use fairlead::config::validate::{duplicates, placeholders, validate};
use fairlead::config::{Check, Config, List, Quarantine, Runner, Invoke};

#[test]
fn placeholders_skip_brace_globs() {
    let found = placeholders("services/{name}/test/**/*.{ts,tsx}");
    assert_eq!(found, vec!["name".to_string()]);
}

#[test]
fn duplicates_are_reported_once_each() {
    assert_eq!(duplicates(&["a", "b", "a", "a"]), vec!["a".to_string()]);
}

#[test]
fn the_defaults_have_no_problems() {
    assert!(validate(&Config::default()).is_empty());
}

#[test]
fn each_section_names_its_key() {
    let mut c = Config::default();
    c.fairlead = Some("banana".into());
    c.tests.runners = List::Items(vec![
        Runner {
            id: "unit".into(),
            matches: Vec::new(),
            invoke: Invoke::Once,
            cwd: Some("{module}/{other}".into()),
            command: vec!["vitest".into()],
        },
        Runner {
            id: "unit".into(),
            matches: vec!["**".into()],
            invoke: Invoke::Once,
            cwd: None,
            command: Vec::new(),
        },
    ]);
    c.checks = List::Items(vec![Check {
        id: "lint".into(),
        command: vec!["eslint".into()],
        paths: Vec::new(),
        modules: Vec::new(),
        files: None,
    }]);
    c.replay.quarantine = List::Items(vec![Quarantine {
        path: "a/*.ts".into(),
        job: "unit".into(),
        reason: "  ".into(),
        until: "2026-1-1".into(),
    }]);
    let found: Vec<(String, String)> = validate(&c).into_iter().map(|p| (p.key, p.message)).collect();
    let keys: Vec<&str> = found.iter().map(|(k, _)| k.as_str()).collect();
    assert_eq!(
        keys,
        vec![
            "fairlead",
            "tests.runners",
            "tests.runners[0].match",
            "tests.runners[0].cwd",
            "tests.runners[1].command",
            "checks[0]",
            "replay.quarantine[0].until",
            "replay.quarantine[0].reason",
            "replay.quarantine[0].path",
        ]
    );
    assert_eq!(found[0].1, "`banana` isn't a version like \"0.2\"");
    assert_eq!(found[1].1, "runner id `unit` is used more than once");
    assert_eq!(found[3].1, "unknown placeholder `{other}`");
}

#[test]
fn a_newer_pin_is_a_problem_and_an_older_one_is_not() {
    let mut c = Config::default();
    c.fairlead = Some("0.1".into());
    assert!(validate(&c).is_empty());
    c.fairlead = Some("9.0".into());
    let p = validate(&c);
    assert_eq!(p.len(), 1);
    assert_eq!(p[0].message, "this config needs Fairlead 9.0 or later; this is 0.2.0");
}
