use fairlead::replay::extract::{extract, Extractor, Printed};

fn printed(path: &str, project: Option<&str>, title: Option<&str>) -> Printed {
    Printed {
        path: path.into(),
        project: project.map(Into::into),
        title: title.map(Into::into),
    }
}

#[test]
fn a_package_prefix_becomes_the_project() {
    let log = "packages/core test: FAIL test/a.test.ts (1.2 s)\n";
    assert_eq!(
        extract(&Extractor::named("jest", None).unwrap(), log),
        [printed("test/a.test.ts", Some("packages/core"), None)]
    );
}

#[test]
fn a_custom_pattern_needs_a_file_group() {
    assert!(Extractor::named("regex", Some(r"^ERR (?P<file>\S+)$")).is_ok());
    assert!(Extractor::named("regex", Some(r"^ERR (\S+)$")).is_err());
    let re = Extractor::named("regex", Some(r"^ERR (?P<file>\S+)$")).unwrap();
    assert_eq!(
        extract(&re, "ERR tests/x.spec.ts\nok\n"),
        [printed("tests/x.spec.ts", None, None)]
    );
}

#[test]
fn an_unknown_extractor_or_a_missing_pattern_is_refused() {
    assert_eq!(
        Extractor::named("mocha", None).err().unwrap(),
        "unknown extractor `mocha`; use vitest, jest or regex"
    );
    assert_eq!(
        Extractor::named("regex", None).err().unwrap(),
        "replay.failures: extractor \"regex\" needs a pattern"
    );
}
