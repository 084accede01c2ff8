use fairlead::pattern::Pattern;

#[test]
fn a_glob_nested_past_the_regex_limit_is_an_error_not_a_panic() {
    let deep = format!("{}x{}", "{a,".repeat(300), "}".repeat(300));
    assert!(Pattern::new(&deep).is_err());
    let shallow = format!("{}x{}", "{a,".repeat(3), "}".repeat(3));
    let p = Pattern::new(&shallow).unwrap();
    assert!(p.is_match("x") && p.is_match("a") && !p.is_match("b"));
}
