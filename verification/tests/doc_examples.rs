use diskplan::attrs::{Mode, SetAttrs};
use diskplan::config::Config;
use diskplan::filesystem::{Filesystem, Links, MemoryFilesystem};
use diskplan::listing::tree_lines;
use diskplan::namemap::NameMap;
use diskplan::paths::Root;
use diskplan::text::parse_schema;
use diskplan::traversal::{traverse, StackFrame, VariableSource};
use diskplan::tree_text::parse_tree;

/// Builds a filesystem from the input drawing, applies the schema of `root` onto `target`, and
/// checks that every entry of the output drawing is there
fn verify_trees(
    root: &str,
    schema: &str,
    in_tree: &str,
    out_tree: &str,
    target: &str,
) -> Result<MemoryFilesystem, String> {
    let mut config = Config::new(target, false);
    let schema = parse_schema(schema).map_err(|e| format!("{e:?}"))?;
    config.add_precached_stem(Root::try_from_str(root)?, root, schema);
    let stack = StackFrame::stack(&config, VariableSource::Empty, "root", "root", Mode(0o755));

    let mut fs = MemoryFilesystem::new();
    for entry in parse_tree(in_tree)? {
        if let Some(target) = entry.link_target {
            fs.create_symlink(&entry.path, &target)?;
        } else if entry.is_dir {
            if !fs.path_exists(&entry.path) {
                fs.create_directory(&entry.path, SetAttrs::default())?;
            }
        } else {
            fs.create_file(&entry.path, SetAttrs::default(), String::new())?;
        }
    }

    traverse(target, &stack, &mut fs)?;

    for entry in parse_tree(out_tree)? {
        if let Some(target) = entry.link_target {
            assert_eq!(fs.read_link(&entry.path)?, target);
            assert_eq!((&target, fs.path_exists(&target)), (&target, true));
        } else if entry.is_dir {
            assert_eq!((&entry.path, fs.is_directory(&entry.path)), (&entry.path, true));
        } else {
            assert_eq!((&entry.path, fs.is_file(&entry.path)), (&entry.path, true));
        }
    }
    Ok(fs)
}

const ZONE_SCHEMA: &str = "
:let remote_disk = /net/remote

:mode 777

:def admin_directory/
    :owner root
    :group root
    :mode 750

$zone/
    :match zone_[a-z]

    description.md
        :source ${remote_disk}/resources/common_zone_description.md

    admin/
        :use admin_directory

        zone_image.img
            :source ${remote_disk}/resources/${zone}.img

        storage/ -> ${remote_disk}/storage_pool/${zone}
            database.db
                :source ${remote_disk}/resources/empty_database.db

";

const ZONE_INPUT: &str = "
/
├── net/
│   └── remote/
│       └── resources/
│           ├── common_zone_description.md
│           ├── empty_database.db
│           ├── zone_a.img
│           └── zone_b.img
└── local/
    ├── non_zone/
    ├── zone_a/
    └── zone_b/
";

const ZONE_OUTPUT: &str = "
/
├── net/
│   └── remote/
│       ├── resources/
│       │   ├── common_zone_description.md
│       │   ├── empty_database.db
│       │   ├── zone_a.img
│       │   └── zone_b.img
│       └── storage_pool/
│           ├── zone_a/
│           │   └── database.db
│           └── zone_b/
│               └── database.db
└── local/
    ├── non_zone/
    ├── zone_a/
    │   ├── admin/
    │   │   ├── storage -> /net/remote/storage_pool/zone_a
    │   │   └── zone_image.img
    │   └── description.md
    └── zone_b/
        ├── admin/
        │   ├── storage -> /net/remote/storage_pool/zone_b
        │   └── zone_image.img
        └── description.md
";

#[test]
fn zones_example() {
    let fs = verify_trees("/local", ZONE_SCHEMA, ZONE_INPUT, ZONE_OUTPUT, "/local").unwrap();
    // Nothing is made for names that do not match
    assert!(!fs.path_exists("/local/non_zone/admin"));
    // The used definition sets the attributes of the directory using it
    let attrs = fs.attributes("/local/zone_a/admin").unwrap();
    assert_eq!(attrs.mode, Mode(0o750));
    assert_eq!(attrs.owner, "root");
    // The top level's mode applies to the root
    assert_eq!(fs.attributes("/local").unwrap().mode, Mode(0o777));
}

#[test]
fn simple_example() {
    let schema = "
directory/
    :mode 777
";
    let fs = verify_trees("/local", schema, "/\n└── local/\n", "/\n└── local/\n    └── directory/\n", "/local")
        .unwrap();
    assert!(fs.is_directory("/local/directory"));
    assert_eq!(fs.attributes("/local/directory").unwrap().mode, Mode(0o777));
}

const QUICKSTART_SCHEMA: &str = "
# Root directory configuration
# ...
:let emptyfile = /dev/null

# Sub-directory
sub-directory/

    # Variable directory...
    $variable/
        # ...whose name must match this pattern...
        :match [A-Z][a-z]*

        # ...will then create this
        inner-directory/

    # An empty file
    blank_file
        :source ${emptyfile}
";

const QUICKSTART_INPUT: &str = "
/
├── dev/
│   └── null
└── tmp/
";

fn quickstart(target: &str, vars: Option<NameMap>) -> MemoryFilesystem {
    let mut config = Config::new(target, false);
    let schema = parse_schema(QUICKSTART_SCHEMA).unwrap();
    let root = "/tmp/diskplan-root";
    config.add_precached_stem(Root::try_from_str(root).unwrap(), root, schema);
    let source = match &vars {
        Some(map) => VariableSource::Given(map),
        None => VariableSource::Empty,
    };
    let stack = StackFrame::stack(&config, source, "root", "root", Mode(0o755));
    let mut fs = MemoryFilesystem::new();
    for entry in parse_tree(QUICKSTART_INPUT).unwrap() {
        if fs.path_exists(&entry.path) {
            continue;
        }
        if entry.is_dir {
            fs.create_directory(&entry.path, SetAttrs::default()).unwrap();
        } else {
            fs.create_file(&entry.path, SetAttrs::default(), String::new()).unwrap();
        }
    }
    traverse(target, &stack, &mut fs).unwrap();
    fs
}

#[test]
fn quickstart_preview() {
    let fs = quickstart("/tmp/diskplan-root", None);
    assert!(fs.is_directory("/tmp/diskplan-root"));
    assert!(fs.is_directory("/tmp/diskplan-root/sub-directory"));
    assert!(fs.is_file("/tmp/diskplan-root/sub-directory/blank_file"));
    assert_eq!(fs.list_directory("/tmp/diskplan-root/sub-directory").unwrap(), vec!["blank_file".to_owned()]);
    let dir = fs.attributes("/tmp/diskplan-root/sub-directory").unwrap();
    assert_eq!((dir.owner.as_str(), dir.group.as_str(), dir.mode), ("root", "root", Mode(0o755)));
    let file = fs.attributes("/tmp/diskplan-root/sub-directory/blank_file").unwrap();
    assert_eq!(file.mode, Mode(0o644));
}

fn check_example(fs: &MemoryFilesystem) {
    assert!(fs.is_directory("/tmp/diskplan-root/sub-directory/Example"));
    assert!(fs.is_directory("/tmp/diskplan-root/sub-directory/Example/inner-directory"));
    assert!(fs.is_file("/tmp/diskplan-root/sub-directory/blank_file"));
}

#[test]
fn quickstart_by_path() {
    check_example(&quickstart("/tmp/diskplan-root/sub-directory/Example", None));
}

#[test]
fn quickstart_by_variable() {
    let vars = NameMap::parse("variable:Example").unwrap();
    check_example(&quickstart("/tmp/diskplan-root", Some(vars)));
}

#[test]
fn quickstart_path_must_match() {
    let mut config = Config::new("/tmp/diskplan-root/sub-directory/lowercase", false);
    let schema = parse_schema(QUICKSTART_SCHEMA).unwrap();
    let root = "/tmp/diskplan-root";
    config.add_precached_stem(Root::try_from_str(root).unwrap(), root, schema);
    let stack = StackFrame::stack(&config, VariableSource::Empty, "root", "root", Mode(0o755));
    let mut fs = MemoryFilesystem::new();
    fs.create_directory("/dev", SetAttrs::default()).unwrap();
    fs.create_file("/dev/null", SetAttrs::default(), String::new()).unwrap();
    assert!(traverse("/tmp/diskplan-root/sub-directory/lowercase", &stack, &mut fs).is_err());
}

#[test]
fn tree_drawing_entries() {
    let entries = parse_tree(ZONE_OUTPUT).unwrap();
    assert_eq!(entries[0].path, "/");
    assert!(entries[0].is_dir);
    assert_eq!(entries[1].path, "/net");
    let link = entries.iter().find(|e| e.link_target.is_some()).unwrap();
    assert_eq!(link.path, "/local/zone_a/admin/storage");
    assert_eq!(link.link_target.as_deref(), Some("/net/remote/storage_pool/zone_a"));
    assert!(!link.is_dir);
    assert!(parse_tree("/\n├── bad name\n").is_err());
}

#[test]
fn quickstart_preview_listing() {
    let fs = quickstart("/tmp/diskplan-root", None);
    assert_eq!(
        tree_lines(&fs, "/tmp/diskplan-root").unwrap(),
        vec![
            "drwxr-xr-x root       root       /tmp/diskplan-root/".to_owned(),
            "drwxr-xr-x root       root         sub-directory/".to_owned(),
            "-rw-r--r-- root       root           blank_file".to_owned(),
        ]
    );
}

#[test]
fn quickstart_example_listing() {
    let vars = NameMap::parse("variable:Example").unwrap();
    let fs = quickstart("/tmp/diskplan-root", Some(vars));
    assert_eq!(
        tree_lines(&fs, "/tmp/diskplan-root").unwrap(),
        vec![
            "drwxr-xr-x root       root       /tmp/diskplan-root/".to_owned(),
            "drwxr-xr-x root       root         sub-directory/".to_owned(),
            "drwxr-xr-x root       root           Example/".to_owned(),
            "drwxr-xr-x root       root             inner-directory/".to_owned(),
            "-rw-r--r-- root       root           blank_file".to_owned(),
        ]
    );
}
