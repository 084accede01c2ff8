use fairlead::guard::finding::Finding;
use fairlead::guard::stages::{commit_base, history, in_staged, History};

#[test]
fn immutable_migrations_read_history_against_the_flag_then_the_base() {
    assert_eq!(history(Some("v1"), Some("main"), true), History::Against("v1".into()));
    assert_eq!(history(None, Some("main"), true), History::Against("main".into()));
    assert_eq!(
        history(None, None, true),
        History::Note("migrations: without --base or guard.migrations.base, edits to existing migrations aren't checked here".into())
    );
    assert_eq!(history(Some("v1"), None, false), History::Skip);
}

#[test]
fn the_commit_stage_falls_back_to_head() {
    assert_eq!(commit_base(Some("main"), Some("abc")), ("abc".to_string(), "main".to_string()));
    assert_eq!(commit_base(Some("main"), None), ("HEAD".to_string(), "HEAD".to_string()));
    assert_eq!(commit_base(None, Some("abc")), ("HEAD".to_string(), "HEAD".to_string()));
}

fn finding(file: &str) -> Finding {
    Finding {
        file: file.into(),
        line: 1,
        rule: "x".into(),
        message: "m".into(),
        anchor: String::new(),
        measure: None,
    }
}

#[test]
fn an_external_rule_at_commit_counts_only_staged_files() {
    let kept = in_staged(vec![finding("a.ts"), finding("b.ts"), finding("a.ts")], &["a.ts".to_string()]);
    assert_eq!(kept.len(), 2);
    assert!(kept.iter().all(|f| f.file == "a.ts"));
}
