use fairlead::config::{ExternalRule, Stage};
use fairlead::guard::external::{empty_command, parse, run_result, External};

#[test]
fn findings_are_read_with_or_without_a_column_and_other_lines_are_ignored() {
    let out = "src/a.ts:3 no-raw-color: use a token\n./src/b.tsx:10:4: something\nsummary: 2 problems\n\nnot a finding\n";
    let found: Vec<String> = parse("design", out).iter().map(|f| f.to_string()).collect();
    assert_eq!(
        found,
        [
            "src/a.ts:3 design: no-raw-color: use a token",
            "src/b.tsx:10 design: something"
        ]
    );
}

#[test]
fn a_line_number_too_large_or_a_message_starting_with_space_is_not_a_finding() {
    assert!(parse("x", "a.ts:99999999999 big\n").is_empty());
    assert!(parse("x", "a.ts:3\tmsg\n").is_empty());
    let found = parse("x", "./:3 odd\na.ts:4:   spaced   \n");
    assert_eq!(found.len(), 2);
    assert_eq!((found[0].file.as_str(), found[0].line), ("./", 3));
    assert_eq!((found[1].message.as_str(), found[1].anchor.as_str()), ("spaced", "spaced"));
}

fn rule(command: &[&str], stages: Vec<Stage>) -> External {
    External::new(&ExternalRule {
        id: "x".into(),
        command: command.iter().map(|s| s.to_string()).collect(),
        stages,
        ratchet: false,
    })
}

#[test]
fn a_rule_runs_at_its_stages_only() {
    let r = rule(&["lint"], vec![Stage::Check, Stage::Commit]);
    assert!(r.runs_at(Stage::Check) && r.runs_at(Stage::Commit));
    assert!(!r.runs_at(Stage::Write));
}

#[test]
fn files_are_spread_where_the_command_names_them() {
    let r = rule(&["eslint", "{files}", "--quiet"], vec![Stage::Commit]);
    assert_eq!(
        r.argv(&["a.ts".to_string(), "b.ts".to_string()]),
        ["eslint", "a.ts", "b.ts", "--quiet"]
    );
    assert_eq!(r.argv(&[]), ["eslint", "--quiet"]);
}

#[test]
fn a_failed_run_with_findings_keeps_them_and_one_without_names_its_last_words() {
    let found = parse("lint", "src/a.ts:3 no-raw-color: use a token\n");
    assert_eq!(found.len(), 1);
    assert_eq!(run_result("lint", "eslint", false, found.clone(), "exit status: 1", "x\n").unwrap(), found);
    assert!(run_result("lint", "eslint", true, Vec::new(), "exit status: 0", "").unwrap().is_empty());
    assert_eq!(
        run_result("lint", "eslint", false, Vec::new(), "exit status: 2", "first\nlast words\n  \n").unwrap_err(),
        "lint: `eslint` failed with exit status: 2 and printed no findings: last words"
    );
    assert_eq!(
        run_result("lint", "eslint", false, Vec::new(), "exit status: 2", "").unwrap_err(),
        "lint: `eslint` failed with exit status: 2 and printed no findings: "
    );
    assert_eq!(empty_command("lint"), "lint: the command is empty");
}
