use fairlead::lang::tree::{normalize, parent, relative, Tree};

#[test]
fn normalize_resolves_dots_and_refuses_to_climb_out() {
    assert_eq!(normalize("a/b", "../c/d.js").as_deref(), Some("a/c/d.js"));
    assert_eq!(normalize("a", "./x.json").as_deref(), Some("a/x.json"));
    assert_eq!(normalize("a", "../../x"), None);
    assert_eq!(normalize("a/b", "/top.ts").as_deref(), Some("top.ts"));
}

#[test]
fn declaration_files_are_not_sources() {
    assert!(Tree::is_source("src/a.ts"));
    assert!(Tree::is_source("src/a.test.tsx"));
    assert!(!Tree::is_source("src/a.d.ts"));
    assert!(!Tree::is_source("src/a.json"));
}

#[test]
fn a_parent_is_everything_before_the_last_slash() {
    assert_eq!(parent("a/b/c.ts"), "a/b");
    assert_eq!(parent("c.ts"), "");
}

#[test]
fn a_tree_knows_its_files_and_sources() {
    let t = Tree::from_files("/repo", vec!["src/a.ts".into(), "README.md".into(), "src/b.d.ts".into()]);
    assert!(t.contains("src/a.ts"));
    assert!(!t.contains("src/c.ts"));
    assert_eq!(t.sources(), vec!["src/a.ts".to_string()]);
    assert_eq!(t.abs("src/a.ts"), "/repo/src/a.ts");
    assert_eq!(t.rel("/repo/src/a.ts").as_deref(), Some("src/a.ts"));
    assert_eq!(relative("/repo", "/elsewhere/x"), None);
}
