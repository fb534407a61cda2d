use std::collections::HashSet;

use diskplan::attrs::{Mode, SetAttrs, DEFAULT_DIRECTORY_MODE};
use diskplan::config::Config;
use diskplan::filesystem::{Filesystem, Links, MemoryFilesystem};
use diskplan::paths::Root;
use diskplan::text::parse_schema;
use diskplan::traversal::{traverse, StackFrame, VariableSource};

#[derive(Default, Clone, Copy)]
struct Attr {
    owner: Option<&'static str>,
    group: Option<&'static str>,
    mode: Option<u16>,
}

fn mode(m: u16) -> Option<Attr> {
    Some(Attr { mode: Some(m), ..Default::default() })
}

fn set_attrs(a: &Attr) -> SetAttrs {
    SetAttrs {
        owner: a.owner.map(|s| s.to_owned()),
        group: a.group.map(|s| s.to_owned()),
        mode: a.mode.map(Mode),
    }
}

#[derive(Default)]
struct Case {
    schemas: Vec<(&'static str, &'static str)>,
    onto: &'static str,
    with_dirs: Vec<(&'static str, Attr)>,
    with_files: Vec<(&'static str, &'static str)>,
    with_links: Vec<(&'static str, &'static str)>,
    dirs: Vec<(&'static str, Option<Attr>)>,
    files: Vec<(&'static str, &'static str)>,
    links: Vec<(&'static str, &'static str)>,
}

fn check_attrs(fs: &MemoryFilesystem, path: &str, expected: &Option<Attr>) {
    if let Some(a) = expected {
        let attrs = fs.attributes(path).unwrap();
        if let Some(owner) = a.owner {
            assert_eq!(attrs.owner, owner, "owner of {path}");
        }
        if let Some(group) = a.group {
            assert_eq!(attrs.group, group, "group of {path}");
        }
        if let Some(m) = a.mode {
            assert_eq!(attrs.mode, Mode(m), "mode of {path}");
        }
    }
}

/// Applies the schemas (each under its root) onto a path of an in-memory filesystem prepared
/// with the given entries, and checks that exactly the expected entries result
fn run(case: Case) -> Result<(), String> {
    let mut fs = MemoryFilesystem::new();
    let mut expected: HashSet<String> = HashSet::new();
    let mut config = Config::new(case.onto, false);
    let mut last_root = String::from("/");
    for (root, text) in &case.schemas {
        let schema = parse_schema(text).map_err(|e| format!("{e:?}"))?;
        let root = Root::try_from_str(root)?;
        last_root = root.path().to_owned();
        let path = root.path().to_owned();
        config.add_precached_stem(root, &path, schema);
    }
    let stack = StackFrame::stack(&config, VariableSource::Empty, "root", "root", Mode(0o755));
    for (path, attrs) in &case.with_dirs {
        fs.create_directory(path, set_attrs(attrs))?;
        expected.insert(path.to_string());
    }
    for (path, content) in &case.with_files {
        fs.create_file(path, SetAttrs::default(), content.to_string())?;
        expected.insert(path.to_string());
    }
    for (path, target) in &case.with_links {
        fs.create_symlink(path, target)?;
        expected.insert(path.to_string());
    }

    traverse(case.onto, &stack, &mut fs)?;

    expected.insert("/".to_owned());
    expected.insert(last_root);
    for (path, attrs) in &case.dirs {
        assert!(fs.is_directory(path), "Expected directory was not produced: {path}");
        check_attrs(&fs, path, attrs);
        expected.insert(path.to_string());
    }
    for (path, content) in &case.files {
        assert!(fs.is_file(path), "Expected file at: {path}");
        assert_eq!(&fs.read_file(path)?, content);
        expected.insert(path.to_string());
    }
    for (link, target) in &case.links {
        assert!(fs.is_link(link), "Expected symlink at: {link}");
        assert_eq!(&fs.read_link(link)?, target, "Expected symlink: {link} -> {target}");
        expected.insert(link.to_string());
    }
    let actual: HashSet<String> = fs.to_path_set().into_iter().collect();
    let unaccounted: Vec<_> = actual.difference(&expected).collect();
    if !unaccounted.is_empty() {
        panic!("Paths unaccounted for: {:?}", unaccounted);
    }
    Ok(())
}

fn run_or_panic(case: Case) {
    if let Err(e) = run(case) {
        panic!("{}", e);
    }
}

// Attributes

#[test]
#[should_panic]
fn incorrect_attribute_assertion() {
    run(Case {
        schemas: vec![("/target", "\n                dir/\n                    :mode 640\n                ")],
        onto: "/target",
        dirs: vec![("/target/dir", mode(640))], // This is incorrectly decimal
        ..Default::default()
    })
    .unwrap_or_default();
}

#[test]
fn attributes() -> Result<(), String> {
    run(Case {
        schemas: vec![(
            "/target",
            "
            dir/
                :mode 640
            another/
                :owner daemon
                :group sys
            ",
        )],
        onto: "/target",
        dirs: vec![
            ("/target", mode(DEFAULT_DIRECTORY_MODE)),
            ("/target/dir", mode(0o640)),
            (
                "/target/another",
                Some(Attr {
                    owner: Some("daemon"),
                    group: Some("sys"),
                    mode: Some(DEFAULT_DIRECTORY_MODE),
                }),
            ),
        ],
        ..Default::default()
    })
}

#[test]
fn top_level_attributes() -> Result<(), String> {
    run(Case {
        schemas: vec![(
            "/target",
            "
            :mode 640
            :owner daemon
            :group sys
            sub/
            ",
        )],
        onto: "/target",
        dirs: vec![
            ("/target", Some(Attr { owner: Some("daemon"), group: Some("sys"), mode: Some(0o640) })),
            ("/target/sub", mode(DEFAULT_DIRECTORY_MODE)),
        ],
        ..Default::default()
    })
}

#[test]
fn attribute_expressions() -> Result<(), String> {
    run(Case {
        schemas: vec![(
            "/target",
            "
            :let x = dae
            :let y = s
            attrs/
                :owner ${x}mon
                :group ${y}y${y}
            ",
        )],
        onto: "/target",
        dirs: vec![(
            "/target/attrs",
            Some(Attr {
                owner: Some("daemon"),
                group: Some("sys"),
                mode: Some(DEFAULT_DIRECTORY_MODE),
            }),
        )],
        ..Default::default()
    })
}

#[test]
fn changing_attributes() -> Result<(), String> {
    run(Case {
        schemas: vec![(
            "/target",
            "
            dir/
                :mode 750
            ",
        )],
        onto: "/target",
        with_dirs: vec![
            ("/target", Attr::default()),
            ("/target/control", Attr { mode: Some(0o555), ..Default::default() }),
            ("/target/dir", Attr { mode: Some(0o555), ..Default::default() }),
        ],
        dirs: vec![("/target/control", mode(0o555)), ("/target/dir", mode(0o750))],
        ..Default::default()
    })
}

#[test]
fn inherited_attributes() -> Result<(), String> {
    run(Case {
        schemas: vec![(
            "/target",
            "
            :mode 640
            :owner daemon
            :group sys
            sub/
            ",
        )],
        onto: "/target",
        dirs: vec![
            ("/target", Some(Attr { owner: Some("daemon"), group: Some("sys"), mode: Some(0o640) })),
            (
                "/target/sub",
                Some(Attr {
                    owner: Some("daemon"),
                    group: Some("sys"),
                    mode: Some(DEFAULT_DIRECTORY_MODE),
                }),
            ),
        ],
        ..Default::default()
    })
}

// Creation

#[test]
fn create_directory() -> Result<(), String> {
    run(Case {
        schemas: vec![(
            "/primary",
            "
            subdir/
                subsubdir/
            ",
        )],
        onto: "/primary",
        dirs: vec![
            ("/primary", None),
            ("/primary/subdir", None),
            ("/primary/subdir/subsubdir", None),
        ],
        ..Default::default()
    })
}

#[test]
fn create_file() -> Result<(), String> {
    run(Case {
        schemas: vec![(
            "/primary",
            "
            subdir/
                subsubfile
                    :source /resource/file1
            subfile
                :source /resource/file2
            ",
        )],
        onto: "/primary",
        with_dirs: vec![("/resource", Attr::default())],
        with_files: vec![
            ("/resource/file1", "FILE CONTENT 1"),
            ("/resource/file2", "FILE CONTENT 2"),
        ],
        dirs: vec![("/primary/subdir", None)],
        files: vec![
            ("/primary/subdir/subsubfile", "FILE CONTENT 1"),
            ("/primary/subfile", "FILE CONTENT 2"),
        ],
        ..Default::default()
    })
}

#[test]
fn create_symlink() -> Result<(), String> {
    run(Case {
        schemas: vec![
            (
                "/primary",
                "
            subdirlink/ -> /secondary/${NAME}
                subfile
                    :source /resource/file
            ",
            ),
            (
                "/secondary",
                "
            $_a/
                $_b/
                    $_c/
            ",
            ),
        ],
        onto: "/primary",
        with_dirs: vec![("/resource", Attr::default())],
        with_files: vec![("/resource/file", "FILE CONTENT")],
        dirs: vec![("/primary", None), ("/secondary", None), ("/secondary/subdirlink", None)],
        files: vec![("/secondary/subdirlink/subfile", "FILE CONTENT")],
        links: vec![("/primary/subdirlink", "/secondary/subdirlink")],
        ..Default::default()
    })
}

#[test]
fn create_symlink_using_target() -> Result<(), String> {
    run(Case {
        schemas: vec![
            (
                "/primary",
                "
            subdirlink/
                :target /secondary/${NAME}
                subfile
                    :source /resource/file
            ",
            ),
            (
                "/secondary",
                "
            $_a/
                $_b/
                    $_c/
            ",
            ),
        ],
        onto: "/primary",
        with_dirs: vec![("/resource", Attr::default())],
        with_files: vec![("/resource/file", "FILE CONTENT")],
        dirs: vec![("/primary", None), ("/secondary", None), ("/secondary/subdirlink", None)],
        files: vec![("/secondary/subdirlink/subfile", "FILE CONTENT")],
        links: vec![("/primary/subdirlink", "/secondary/subdirlink")],
        ..Default::default()
    })
}

#[test]
fn create_relative_symlink() -> Result<(), String> {
    run(Case {
        schemas: vec![(
            "/",
            "
            versions/
                1.0/
                1.0.1/ -> 1.0
            ",
        )],
        onto: "/",
        dirs: vec![("/versions", None), ("/versions/1.0", None)],
        links: vec![("/versions/1.0.1", "1.0")],
        ..Default::default()
    })
}

#[test]
fn symlink_two_schemas() -> Result<(), String> {
    run(Case {
        schemas: vec![
            (
                "/local",
                "
            $name/ -> /remote/$PATH
                # Symlink target is created first then modified by this
                :group adm
            ",
            ),
            (
                "/remote",
                "
            $_1/
                # This applies first, but is overridden by schema above
                :group sys
            ",
            ),
        ],
        onto: "/local/example",
        dirs: vec![
            ("/local", None),
            ("/remote/example", Some(Attr { group: Some("adm"), ..Default::default() })),
        ],
        links: vec![("/local/example", "/remote/example")],
        ..Default::default()
    })
}

// Matching

#[test]
fn binding_static_beats_dynamic() -> Result<(), String> {
    run(Case {
        schemas: vec![(
            "/",
            "
            fixed/
                MATCHED_FIXED/
            $variable/
                :match .*
                MATCHED_VARIABLE/
            ",
        )],
        onto: "/",
        with_dirs: vec![("/fixed", Attr::default())],
        dirs: vec![("/fixed/MATCHED_FIXED", None)],
        ..Default::default()
    })
}

#[test]
fn binding_static_beats_dynamic_reordered() -> Result<(), String> {
    run(Case {
        schemas: vec![(
            "/",
            "
            $variable/
                :match .*
                MATCHED_VARIABLE/
            fixed/
                MATCHED_FIXED/
            ",
        )],
        onto: "/",
        with_dirs: vec![("/fixed", Attr::default())],
        dirs: vec![("/fixed/MATCHED_FIXED", None)],
        ..Default::default()
    })
}

#[test]
#[should_panic(
    expected = r#""existing" matches multiple dynamic bindings "$variable_a" and "$variable_b""#
)]
fn binding_multiple_variable_error() {
    run_or_panic(Case {
        schemas: vec![(
            "/",
            "
                $variable_a/
                    :match .*
                    MATCHED_VARIABLE_A/
                $variable_b/
                    :match .*
                    MATCHED_VARIABLE_B/
                ",
        )],
        onto: "/",
        with_dirs: vec![("/existing", Attr::default())],
        dirs: vec![("/existing/MATCHED_VARIABLE_A", None)],
        ..Default::default()
    });
}

#[test]
#[should_panic(expected = r#""duplicate" matches multiple static bindings "duplicate" and "duplicate""#)]
fn binding_multiple_static_error() {
    run_or_panic(Case {
        schemas: vec![(
            "/",
            "
                duplicate/
                duplicate/
                ",
        )],
        onto: "/",
        ..Default::default()
    });
}

#[test]
fn match_let_variable() -> Result<(), String> {
    run(Case {
        schemas: vec![(
            "/target",
            "
            :let var = xxx
            $var/
                :match .*
                variable/
            ",
        )],
        onto: "/target",
        dirs: vec![("/target/xxx", None), ("/target/xxx/variable", None)],
        ..Default::default()
    })
}

#[test]
fn match_let_variable_overridden_by_static() -> Result<(), String> {
    run(Case {
        schemas: vec![(
            "/target",
            "
            :let var = xxx
            $var/
                :match .*
                variable/
            xxx/
                static/
            ",
        )],
        onto: "/target",
        dirs: vec![("/target/xxx", None), ("/target/xxx/static", None)],
        ..Default::default()
    })
}

#[test]
fn match_pattern_start_or_end() -> Result<(), String> {
    run(Case {
        schemas: vec![(
            "/target",
            "
            $a/
                :match x.*
                starts
                    :source /src/empty
            $b/
                :match .*x
                ends
                    :source /src/empty
            ",
        )],
        onto: "/target",
        with_dirs: vec![
            ("/src", Attr::default()),
            ("/target", Attr::default()),
            ("/target/has_an_x_in_it", Attr::default()),
            ("/target/x_at_the_beginning", Attr::default()),
            ("/target/ends_with_an_x", Attr::default()),
        ],
        with_files: vec![("/src/empty", "")],
        files: vec![
            ("/target/x_at_the_beginning/starts", ""),
            ("/target/ends_with_an_x/ends", ""),
        ],
        ..Default::default()
    })
}

#[test]
#[should_panic(expected = r#""x_at_start_and_end_x" matches multiple dynamic bindings "$a" and "$b"#)]
fn match_pattern_start_or_end_collision() {
    run_or_panic(Case {
        schemas: vec![(
            "/target",
            "
            $a/
                :match x.*
                starts
                    :source /src/empty
            $b/
                :match .*x
                ends
                    :source /src/empty
            ",
        )],
        onto: "/target",
        with_dirs: vec![
            ("/src", Attr::default()),
            ("/target", Attr::default()),
            ("/target/x_at_start_and_end_x", Attr::default()),
        ],
        with_files: vec![("/src/empty", "")],
        ..Default::default()
    });
}

#[test]
fn match_variable_inherited() -> Result<(), String> {
    run(Case {
        schemas: vec![(
            "/target",
            "
            $var/
                :match .*
                $var/
                sub/
                    $var/
            ",
        )],
        onto: "/target",
        with_dirs: vec![("/target", Attr::default()), ("/target/VALUE", Attr::default())],
        dirs: vec![
            ("/target/VALUE/VALUE", None),
            ("/target/VALUE/sub", None),
            ("/target/VALUE/sub/VALUE", None),
        ],
        ..Default::default()
    })
}

#[test]
fn match_let() -> Result<(), String> {
    run(Case {
        schemas: vec![(
            "/target",
            "
            :let var = xxx
            $var/
                created/
            ",
        )],
        onto: "/target",
        with_dirs: vec![("/target", Attr::default()), ("/target/yyy", Attr::default())],
        dirs: vec![
            ("/target/xxx", None),
            ("/target/xxx/created", None),
            ("/target/yyy/created", None),
        ],
        ..Default::default()
    })
}

#[test]
fn inherited_variable_can_rebind() -> Result<(), String> {
    run(Case {
        schemas: vec![(
            "/",
            "
            $var/
                $var/
                    inner/
            ",
        )],
        onto: "/",
        with_dirs: vec![("/a", Attr::default()), ("/a/x", Attr::default())],
        dirs: vec![
            ("/a/a", None),
            ("/a/a/inner", None),
            ("/a/x", None),
            ("/a/x/inner", None),
        ],
        ..Default::default()
    })
}

#[test]
fn inherited_variable_with_match_avoids_rebind() -> Result<(), String> {
    run(Case {
        schemas: vec![(
            "/target",
            "
            $var/
                $var/
                    :match $var
                    inner/
            ",
        )],
        onto: "/target",
        with_dirs: vec![
            ("/target", Attr::default()),
            ("/target/a", Attr::default()),
            ("/target/a/x", Attr::default()),
        ],
        dirs: vec![("/target/a/a", None), ("/target/a/a/inner", None)],
        ..Default::default()
    })
}

#[test]
fn match_categories() -> Result<(), String> {
    run(Case {
        schemas: vec![(
            "/target",
            "
            $building/
                :match .*shed
                BUILDING/
            $animal/
                :match .*
                :avoid .*shed
                ANIMAL/
            ",
        )],
        onto: "/target",
        with_dirs: vec![
            ("/target", Attr::default()),
            ("/target/cow", Attr::default()),
            ("/target/shed", Attr::default()),
            ("/target/cow_shed", Attr::default()),
            ("/target/chicken", Attr::default()),
        ],
        dirs: vec![
            ("/target/cow/ANIMAL", None),
            ("/target/shed/BUILDING", None),
            ("/target/cow_shed/BUILDING", None),
            ("/target/chicken/ANIMAL", None),
        ],
        ..Default::default()
    })
}

// Further cases

#[test]
fn onto_path_below_root() -> Result<(), String> {
    run(Case {
        schemas: vec![(
            "/target",
            "
            $project/
                :match [a-z]+
                docs/
            other/
            ",
        )],
        onto: "/target/alpha",
        dirs: vec![
            ("/target/alpha", None),
            ("/target/alpha/docs", None),
            ("/target/other", None),
        ],
        ..Default::default()
    })
}

#[test]
fn path_that_no_entry_takes_is_refused() {
    let result = run(Case {
        schemas: vec![("/target", "$project/\n    :match [a-z]+\n")],
        onto: "/target/NOT_LOWER",
        ..Default::default()
    });
    assert!(result.is_err());
}

#[test]
fn path_without_root_is_refused() {
    let result = run(Case {
        schemas: vec![("/target", "dir/\n")],
        onto: "/elsewhere",
        ..Default::default()
    });
    assert!(result.is_err());
}

#[test]
fn relative_path_is_refused() {
    let result = run(Case {
        schemas: vec![("/target", "dir/\n")],
        onto: "target",
        ..Default::default()
    });
    assert!(result.is_err());
}

#[test]
fn undefined_variable_is_an_error() {
    let result = run(Case {
        schemas: vec![("/target", "$missing_value_dir/\n    x/\nfile\n    :source $nothing\n")],
        onto: "/target",
        ..Default::default()
    });
    assert!(result.is_err());
}

#[test]
fn special_variables() -> Result<(), String> {
    run(Case {
        schemas: vec![(
            "/target",
            "
            sub/
                a
                    :source /src/${PARENT_NAME}/${NAME}
                b
                    :source /src/$PATH
            ",
        )],
        onto: "/target",
        with_dirs: vec![("/src", Attr::default()), ("/src/sub", Attr::default())],
        with_files: vec![("/src/sub/a", "A"), ("/src/sub/b", "B")],
        dirs: vec![("/target/sub", None)],
        files: vec![("/target/sub/a", "A"), ("/target/sub/b", "B")],
        ..Default::default()
    })
}

#[test]
fn existing_files_keep_their_content() {
    let schema = "
sub/
    file
        :source /src
";
    let mut config = Config::new("/root", false);
    let schema = parse_schema(schema).unwrap();
    config.add_precached_stem(Root::try_from_str("/root").unwrap(), "/root", schema);
    let stack = StackFrame::stack(&config, VariableSource::Empty, "root", "root", Mode(0o755));
    let mut fs = MemoryFilesystem::new();
    fs.create_file("/src", SetAttrs::default(), "new".to_owned()).unwrap();
    fs.create_directory("/root", SetAttrs::default()).unwrap();
    fs.create_directory("/root/sub", SetAttrs::default()).unwrap();
    fs.create_file("/root/sub/file", SetAttrs::default(), "old".to_owned()).unwrap();
    traverse("/root", &stack, &mut fs).unwrap();
    assert_eq!(fs.read_file("/root/sub/file").unwrap(), "old");
    assert_eq!(fs.attributes("/root/sub/file").unwrap().mode.value(), 0o644);
}

#[test]
fn scopes_describe_their_variables() {
    let config = Config::new("/", false);
    let schema = parse_schema(":let a = x/${b}\n:let b = y\n").unwrap();
    let dir = schema.schema.as_directory().unwrap();
    let stack = StackFrame::stack(&config, VariableSource::Directory(dir), "root", "root", Mode(0o755));
    assert_eq!(stack.to_text(), "Directory variables:\n  $a = \"x/${b}\"\n  $b = \"y\"");
    let empty = parse_schema("x/\n").unwrap();
    let frame = stack.push(VariableSource::Directory(empty.schema.as_directory().unwrap()));
    assert_eq!(frame.to_text(), "Directory variables:\n  (no variables)");
    let mut map = diskplan::namemap::NameMap::new();
    map.insert("k".to_owned(), "1".to_owned());
    map.insert("j".to_owned(), "2".to_owned());
    map.insert("k".to_owned(), "3".to_owned());
    let given = StackFrame::stack(&config, VariableSource::Given(&map), "root", "root", Mode(0o755));
    assert_eq!(given.to_text(), "Variable map:\n  $j = \"2\"\n  $k = \"3\"");
    let id = diskplan::expression::Identifier::new("n");
    let bound = StackFrame::stack(&config, VariableSource::Binding(&id, "v".to_owned()), "r", "r", Mode(0o755));
    assert_eq!(bound.to_text(), "Schema binding:\n  $n = \"v\"");
    assert_eq!(StackFrame::stack(&config, VariableSource::Empty, "r", "r", Mode(0o755)).to_text(), "");
}
