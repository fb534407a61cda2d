use diskplan::config::{Config, SchemaCache};
use diskplan::paths::Root;
use diskplan::text::parse_schema;

#[test]
fn cache_gives_back_the_latest_schema() {
    let mut cache = SchemaCache::new();
    assert!(cache.get("/s").is_none());
    cache.inject("/s", parse_schema("a/\n").unwrap());
    cache.inject("/t", parse_schema("t/\n").unwrap());
    cache.inject("/s", parse_schema("b/\n").unwrap());
    let got = cache.get("/s").unwrap();
    assert_eq!(got, &parse_schema("b/\n").unwrap());
    assert_eq!(cache.get("/t").unwrap(), &parse_schema("t/\n").unwrap());
}

#[test]
fn longest_root_gives_the_schema() {
    let mut config = Config::new("/a/b/c", false);
    config.add_stem(Root::try_from_str("/a").unwrap(), "/outer.diskplan");
    config.add_stem(Root::try_from_str("/a/b").unwrap(), "/inner.diskplan");
    assert!(config.schema_for("/a/b/c").is_err());
    config.cache_schema("/inner.diskplan", parse_schema("inner/\n").unwrap());
    config.cache_schema("/outer.diskplan", parse_schema("outer/\n").unwrap());
    let (schema, root) = config.schema_for("/a/b/c").unwrap();
    assert_eq!(root.path(), "/a/b");
    assert_eq!(schema, &parse_schema("inner/\n").unwrap());
    let (schema, root) = config.schema_for("/a/x").unwrap();
    assert_eq!(root.path(), "/a");
    assert_eq!(schema, &parse_schema("outer/\n").unwrap());
    assert!(config.schema_for("/elsewhere").is_err());
    assert!(config.has_root_for("/a/bc"));
}

#[test]
fn no_root_lists_the_configured_roots() {
    let mut config = Config::new("/x", false);
    config.add_stem(Root::try_from_str("/a").unwrap(), "/a.diskplan");
    config.add_stem(Root::try_from_str("/b/c").unwrap(), "/b.diskplan");
    match config.schema_for("/elsewhere") {
        Ok(_) => panic!("a path outside every root has no schema"),
        Err(e) => assert_eq!(
            e,
            "No root/schema for path /elsewhere\nConfigured roots:\n - /a\n - /b/c"
        ),
    }
}

#[test]
fn precached_schema_applies_below_its_root() {
    let mut config = Config::new("/p/q", false);
    config.add_stem(Root::try_from_str("/other").unwrap(), "/other.diskplan");
    config.add_precached_stem(
        Root::try_from_str("/p").unwrap(),
        "/p.diskplan",
        parse_schema("p/\n").unwrap(),
    );
    let (schema, root) = config.schema_for("/p/q").unwrap();
    assert_eq!(root.path(), "/p");
    assert_eq!(schema, &parse_schema("p/\n").unwrap());
    assert!(config.schema_for("/other/x").is_err());
}

#[test]
fn missing_schema_names_file_root_and_path() {
    let mut config = Config::new("/a/x", false);
    config.add_stem(Root::try_from_str("/a").unwrap(), "/a.diskplan");
    match config.schema_for("/a/x") {
        Ok(_) => panic!("the schema was never cached"),
        Err(e) => assert_eq!(
            e,
            "Failed to load schema /a.diskplan for configured root /a (for target path /a/x)"
        ),
    }
}
