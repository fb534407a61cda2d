use diskplan::attrs::{Mode, SetAttrs};
use diskplan::filesystem::memory::id_text;
use diskplan::filesystem::{Filesystem, MemoryFilesystem};
use diskplan::paths::{PlantedPath, Root};

#[test]
fn lib_check_relative() {
    let path = PlantedPath::new(&Root::try_from_str("/example").unwrap(), Some("/example/path")).unwrap();
    assert_eq!(path.relative(), "path");
}

#[test]
fn lib_canonicalize() -> Result<(), String> {
    let path = "/";
    let mut fs = MemoryFilesystem::new();
    assert_eq!(fs.canonicalize(path).unwrap(), "/");

    fs.create_directory("/dir", SetAttrs::default())?;
    fs.create_symlink("/dir/sym", "../dir2/deeper")?;

    //   /
    //     dir/
    //       sym -> ../dir2/deeper    (Doesn't exist so path is kept)

    assert_eq!(fs.canonicalize("/dir/./sym//final")?, "/dir2/deeper/final");

    fs.create_directory("/dir2", SetAttrs::default())?;
    fs.create_directory("/dir2/deeper", SetAttrs::default())?;
    fs.create_symlink("/dir2/deeper/final", "/end")?;

    //   /
    //     dir/
    //       sym -> ../dir2/deeper    (Exists, so path is replaced)
    //     dir2/
    //       deeper/
    //         final -> /end

    assert_eq!(fs.canonicalize("/dir/./sym//final")?, "/end");

    assert_eq!(fs.canonicalize("/dir/sym")?, "/dir2/deeper");
    assert_eq!(fs.canonicalize("/dir/sym/.")?, "/dir2/deeper");
    assert_eq!(fs.canonicalize("/dir/sym/..")?, "/dir2");

    Ok(())
}

#[test]
fn filesystem_check_relative() {
    let path = PlantedPath::new(&Root::try_from_str("/example").unwrap(), Some("/example/path")).unwrap();
    assert_eq!(path.relative(), "path");
}

#[test]
fn filesystem_canonicalize() -> Result<(), String> {
    let mut fs = MemoryFilesystem::new();
    assert_eq!(fs.canonicalize("/").unwrap(), "/");
    fs.create_directory("/dir", SetAttrs::default())?;
    fs.create_symlink("/dir/sym", "../dir2/deeper")?;
    assert_eq!(fs.canonicalize("/dir/./sym//final")?, "/dir2/deeper/final");
    fs.create_directory("/dir2", SetAttrs::default())?;
    fs.create_directory("/dir2/deeper", SetAttrs::default())?;
    fs.create_symlink("/dir2/deeper/final", "/end")?;
    assert_eq!(fs.canonicalize("/dir/./sym//final")?, "/end");
    assert_eq!(fs.canonicalize("/dir/sym")?, "/dir2/deeper");
    assert_eq!(fs.canonicalize("/dir/sym/.")?, "/dir2/deeper");
    assert_eq!(fs.canonicalize("/dir/sym/..")?, "/dir2");
    Ok(())
}

#[test]
fn test_exists() {
    let mut fs = MemoryFilesystem::new();
    assert!(fs.path_exists("/"));
    assert!(!fs.path_exists("/entry"));
    fs.create_directory("/entry", SetAttrs::default()).unwrap();
    assert!(fs.path_exists("/entry"));
}

#[test]
fn test_symlink_make_sub_directory() {
    let mut fs = MemoryFilesystem::new();
    fs.create_directory("/primary", SetAttrs::default()).unwrap();
    fs.create_directory("/secondary", SetAttrs::default()).unwrap();
    fs.create_symlink("/primary/link", "/secondary/target").unwrap();
    fs.create_directory("/secondary/target", SetAttrs::default()).unwrap();
    fs.create_directory("/primary/link/through", SetAttrs::default()).unwrap();
    assert!(fs.path_exists("/primary/link/through"));
}

#[test]
fn relative_paths_cannot_be_canonical() {
    let fs = MemoryFilesystem::new();
    assert!(fs.canonicalize("relative/path").is_err());
}

#[test]
fn above_root_is_refused() {
    let fs = MemoryFilesystem::new();
    assert!(fs.canonicalize("/..").is_err());
}

#[test]
fn link_loops_end() {
    let mut fs = MemoryFilesystem::new();
    fs.create_symlink("/a", "/b").unwrap();
    fs.create_symlink("/b", "/a").unwrap();
    assert!(fs.canonicalize("/a").is_err());
}

#[test]
fn creating_twice_is_refused() {
    let mut fs = MemoryFilesystem::new();
    fs.create_directory("/d", SetAttrs::default()).unwrap();
    assert!(fs.create_directory("/d", SetAttrs::default()).is_err());
    assert!(fs.create_file("/d", SetAttrs::default(), String::new()).is_err());
}

#[test]
fn files_hold_their_content() {
    let mut fs = MemoryFilesystem::new();
    fs.create_file("/f", SetAttrs::default(), "content".to_owned()).unwrap();
    assert!(fs.is_file("/f"));
    assert!(!fs.is_directory("/f"));
    assert_eq!(fs.read_file("/f").unwrap(), "content");
    assert!(fs.read_file("/missing").is_err());
    assert!(fs.list_directory("/f").is_err());
}

#[test]
fn listing_names_children_in_order() {
    let mut fs = MemoryFilesystem::new();
    fs.create_directory("/d", SetAttrs::default()).unwrap();
    fs.create_directory("/d/b", SetAttrs::default()).unwrap();
    fs.create_file("/d/a", SetAttrs::default(), String::new()).unwrap();
    assert_eq!(fs.list_directory("/d").unwrap(), vec!["b".to_owned(), "a".to_owned()]);
}

#[test]
fn planted_path_parts() {
    let root = Root::try_from_str("/root").unwrap();
    let path = PlantedPath::new(&root, Some("/root/a/b")).unwrap();
    assert_eq!(path.root(), "/root");
    assert_eq!(path.absolute(), "/root/a/b");
    assert_eq!(path.relative(), "a/b");
    let joined = path.join("c").unwrap();
    assert_eq!(joined.absolute(), "/root/a/b/c");
    assert!(path.join("c/d").is_err());
    assert!(PlantedPath::new(&root, Some("/rootless")).is_err());
    assert!(Root::try_from_str("relative").is_err());
}

#[test]
fn created_through_a_link_reads_back() {
    let mut fs = MemoryFilesystem::new();
    fs.create_directory("/real", SetAttrs::default()).unwrap();
    fs.create_symlink("/link", "/real").unwrap();
    fs.create_file("/link/f", SetAttrs::default(), "text".to_owned()).unwrap();
    assert_eq!(fs.read_file("/link/f").unwrap(), "text");
    assert_eq!(fs.read_file("/real/f").unwrap(), "text");
    assert_eq!(fs.canonicalize("/link/f").unwrap(), "/real/f");
    fs.create_directory("/link/d", SetAttrs::default()).unwrap();
    assert!(fs.is_directory("/real/d"));
    assert_eq!(fs.list_directory("/real").unwrap(), vec!["f".to_owned(), "d".to_owned()]);
}

#[test]
fn unnamed_owner_is_the_running_user() {
    let mut fs = MemoryFilesystem::new();
    fs.create_directory("/d", SetAttrs::default()).unwrap();
    fs.create_file("/d/f", SetAttrs::default(), String::new()).unwrap();
    let uid = nix::unistd::getuid().as_raw();
    let gid = nix::unistd::getgid().as_raw();
    let user = id_text(
        users::get_user_by_uid(uid).map(|u| u.name().to_string_lossy().into_owned()),
        uid,
    );
    let group = id_text(
        users::get_group_by_gid(gid).map(|g| g.name().to_string_lossy().into_owned()),
        gid,
    );
    for path in ["/d", "/d/f"] {
        let attrs = fs.attributes(path).unwrap();
        assert_eq!(attrs.owner, user);
        assert_eq!(attrs.group, group);
    }
}

#[test]
fn ids_without_names_show_in_decimal() {
    assert_eq!(id_text(None, 61002), "61002");
    assert_eq!(id_text(None, 0), "0");
    assert_eq!(id_text(Some("admin".to_owned()), 0), "admin");
}

#[test]
fn attributes_set_are_read_back() {
    let mut fs = MemoryFilesystem::new();
    fs.create_directory("/d", SetAttrs::default()).unwrap();
    fs.create_file("/d/f", SetAttrs::default(), String::new()).unwrap();
    fs.create_symlink("/l", "/d").unwrap();
    fs.set_attributes("/l", SetAttrs { owner: None, group: None, mode: Some(Mode::from(0o700)) })
        .unwrap();
    assert_eq!(fs.attributes("/d").unwrap().mode, Mode::from(0o700));
    fs.set_attributes("/d", SetAttrs::default()).unwrap();
    assert_eq!(fs.attributes("/l").unwrap().mode, Mode::from(0o755));
    fs.set_attributes("/d/f", SetAttrs::default()).unwrap();
    assert_eq!(fs.attributes("/d/f").unwrap().mode, Mode::from(0o644));
    assert!(fs.set_attributes("/missing", SetAttrs::default()).is_err());
}

#[test]
fn create_directory_all_makes_missing_parents() -> Result<(), String> {
    let mut fs = MemoryFilesystem::new();
    fs.create_directory("/a", SetAttrs::default())?;
    diskplan::filesystem::create_directory_all(&mut fs, "/a/b/c/d", SetAttrs::default())?;
    for p in ["/a", "/a/b", "/a/b/c", "/a/b/c/d"] {
        assert!(fs.is_directory(p), "expected a directory at {p}");
    }
    // Existing directories are left as they are
    diskplan::filesystem::create_directory_all(&mut fs, "/a/b", SetAttrs::default())?;
    assert_eq!(fs.list_directory("/a")?, vec!["b".to_owned()]);
    Ok(())
}
