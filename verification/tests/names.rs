use fairlead::config::{List, TestNames};
use fairlead::guard::names::Names;
use fairlead::guard::rules::Source;

fn names(file: Option<&str>, without: Option<&str>) -> Names {
    Names::new(&TestNames {
        files: List::Items(vec!["**".to_string()]),
        file: file.map(String::from),
        titles_without: without.map(String::from),
        ..TestNames::default()
    })
    .unwrap()
}

fn check(n: &Names, path: &str, text: &str) -> Vec<String> {
    n.check(&Source::new(path, text)).iter().map(|f| f.to_string()).collect()
}

#[test]
fn a_file_name_outside_the_pattern_is_a_finding() {
    let n = names(Some(r"^[a-z]+(-[a-z]+)*\.test\.ts$"), None);
    assert!(check(&n, "test/leave-balance.test.ts", "").is_empty());
    assert_eq!(
        check(&n, "test/LeaveBalance.test.ts", ""),
        ["test/LeaveBalance.test.ts:1 test-file-name: file name `LeaveBalance.test.ts` doesn't match the test file pattern"]
    );
}

#[test]
fn a_title_that_carries_the_pattern_is_a_finding_wherever_the_call_sits() {
    let n = names(None, Some(r"(?-u:\b)T[0-9]{4}(?-u:\b)"));
    let text = "describe(\"T1024 leave\", () => {\n  it.only('works', () => {})\n  test(`T2000 edge`, () => {})\n  it(`${x} T3000`, () => {})\n})\n";
    assert_eq!(
        check(&n, "a.test.ts", text),
        [
            "a.test.ts:1 test-title: test title carries \"T1024\"",
            "a.test.ts:3 test-title: test title carries \"T2000\""
        ]
    );
}

#[test]
fn a_title_finding_anchors_on_the_title_and_other_calls_are_not_read() {
    let n = names(None, Some("TODO"));
    let found = n.check(&Source::new("a.test.ts", "it('TODO a', f)\nfoo('TODO b')\n"));
    assert_eq!(found.len(), 1);
    assert_eq!(found[0].anchor, "TODO a");
    assert_eq!(found[0].line, 1);
    assert!(n.applies("x/y.test.ts"));
    assert!(n.ratcheted().is_empty());
}
