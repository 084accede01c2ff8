use fairlead::config::CommandRule;
use fairlead::guard::commands::Commands;

#[test]
fn the_first_matching_rule_gives_its_reason() {
    let rule = |m: &str, r: &str| CommandRule { matches: m.into(), reason: r.into() };
    let c = Commands::new(&[rule(r"(^|\s)git stash(\s|$)", "Commit instead."), rule(r"rm -rf /", "Never.")]).unwrap();
    assert_eq!(c.denied("cd x && git stash pop"), Some("Commit instead."));
    assert_eq!(c.denied("git stashed"), None);
    assert_eq!(c.denied("ls"), None);
}

#[test]
fn a_rule_that_does_not_compile_is_an_error_and_no_rules_deny_nothing() {
    let rule = |m: &str| CommandRule { matches: m.into(), reason: "r".into() };
    assert!(Commands::new(&[rule("ok"), rule("(")]).is_err());
    let none = Commands::new(&[]).unwrap();
    assert!(none.is_empty());
    assert_eq!(none.denied("anything"), None);
}
