use diskplan::attrs::{Mode, SetAttrs};
use diskplan::filesystem::{Filesystem, MemoryFilesystem};
use diskplan::listing::{entry_line, file_name, mode_text, sort_names, tree_lines};

#[test]
fn modes_show_as_ls_shows_them() {
    assert_eq!(mode_text(true, 0o755), "drwxr-xr-x");
    assert_eq!(mode_text(false, 0o644), "-rw-r--r--");
    assert_eq!(mode_text(false, 0o4755), "-rwsr-xr-x");
    assert_eq!(mode_text(true, 0o1777), "drwxrwxrwt");
    assert_eq!(mode_text(false, 0o2710), "-rwx--s---");
    assert_eq!(mode_text(false, 0), "----------");
}

#[test]
fn entry_lines_pad_and_indent() {
    assert_eq!(
        entry_line(true, 0o755, "root", "wheel", 0, "/tmp/x", None),
        "drwxr-xr-x root       wheel      /tmp/x/"
    );
    assert_eq!(
        entry_line(false, 0o644, "a-long-owner-name", "g", 2, "f", Some("/t")),
        "-rw-r--r-- a-long-owner-name g              f -> /t"
    );
}

#[test]
fn names_are_sorted() {
    let names = vec!["b".to_owned(), "a".to_owned(), "B".to_owned(), "ab".to_owned()];
    assert_eq!(sort_names(names), vec!["B".to_owned(), "a".to_owned(), "ab".to_owned(), "b".to_owned()]);
}

#[test]
fn file_names() {
    assert_eq!(file_name("/a/b"), Some("b".to_owned()));
    assert_eq!(file_name("/a/b/"), Some("b".to_owned()));
    assert_eq!(file_name("/"), None);
    assert_eq!(file_name("/a/.."), None);
}

#[test]
fn trees_list_children_in_order() {
    let mut fs = MemoryFilesystem::new();
    fs.create_directory("/r", SetAttrs::default()).unwrap();
    fs.create_directory("/r/z", SetAttrs { owner: None, group: None, mode: Some(Mode(0o700)) }).unwrap();
    fs.create_file("/r/a", SetAttrs::default(), String::new()).unwrap();
    fs.create_symlink("/r/z/l", "/r/a").unwrap();
    let lines = tree_lines(&fs, "/r").unwrap();
    assert_eq!(lines.len(), 4);
    assert!(lines[0].starts_with("drwxr-xr-x "));
    assert!(lines[0].ends_with(" /r/"));
    assert!(lines[1].starts_with("-rw-r--r-- "));
    assert!(lines[1].ends_with("   a"));
    assert!(lines[2].starts_with("drwx------ "));
    assert!(lines[2].ends_with("   z/"));
    assert!(lines[3].ends_with("     l -> /r/a"));
    assert!(tree_lines(&fs, "/").is_err());
}
