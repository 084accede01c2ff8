use fairlead::lang::resolve::package_name;

#[test]
fn package_names_from_bare_specifiers() {
    assert_eq!(package_name("lodash/fp").as_deref(), Some("lodash"));
    assert_eq!(package_name("@scope/pkg/sub/path").as_deref(), Some("@scope/pkg"));
    assert_eq!(package_name("node:fs").as_deref(), Some("node:fs"));
    assert_eq!(package_name("@/lib/utils"), None);
    assert_eq!(package_name("~/x"), None);
}

#[test]
fn a_scope_needs_a_name_after_it() {
    assert_eq!(package_name("@scope"), None);
    assert_eq!(package_name("@scope/"), None);
    assert_eq!(package_name("_private"), None);
    assert_eq!(package_name(".hidden/x"), None);
    assert_eq!(package_name("@a/b").as_deref(), Some("@a/b"));
}
