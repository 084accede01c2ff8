use fairlead::lang::cache::{blob_id, key, ParseCache};

#[test]
fn blob_ids_match_git() {
    // `printf 'hello\n' | git hash-object --stdin`
    assert_eq!(
        blob_id(b"hello\n"),
        "ce013625030ba8dba906f756967f9e9ca394464a"
    );
    assert_eq!(blob_id(b""), "e69de29bb2d1d6434b8b29ae775ad8c2e48c5391");
}

#[test]
fn the_same_bytes_key_differently_by_extension() {
    assert_ne!(key("a.ts", b"x"), key("a.js", b"x"));
    assert_eq!(key("a.ts", b"x"), key("b/c.ts", b"x"));
}

#[test]
fn a_key_is_the_blob_id_a_dot_and_the_extension() {
    assert_eq!(key("a.ts", b"hello\n"), "ce013625030ba8dba906f756967f9e9ca394464a.ts");
    assert_eq!(key("Makefile", b""), "e69de29bb2d1d6434b8b29ae775ad8c2e48c5391.");
}

#[test]
fn a_disabled_cache_has_no_directory_and_finds_nothing() {
    let c = ParseCache::disabled();
    assert!(!c.enabled());
    assert!(c.dir().is_none());
    assert!(c.get("anything").is_none());
}
