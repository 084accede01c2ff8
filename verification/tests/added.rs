use fairlead::guard::added::added;
use fairlead::guard::finding::{sort, Finding, Measure};

fn plain(line: u32, message: &str, anchor: &str) -> Finding {
    Finding {
        file: "a.ts".into(),
        line,
        rule: "history".into(),
        message: message.into(),
        anchor: anchor.into(),
        measure: None,
    }
}

fn sized(line: u32, anchor: &str, size: u64) -> Finding {
    Finding {
        file: "a.ts".into(),
        line,
        rule: "function-length".into(),
        message: format!("{size} lines"),
        anchor: anchor.into(),
        measure: Some(Measure { size, limit: 10 }),
    }
}

#[test]
fn a_finding_that_only_moved_lines_is_not_new() {
    let before = [plain(3, "a date", "x")];
    let after = [plain(9, "a date", "x")];
    assert!(added(&before, &after).is_empty());
}

#[test]
fn a_second_identical_finding_is_new() {
    let before = [plain(3, "a date", "x")];
    let after = [plain(3, "a date", "x"), plain(7, "a date", "x")];
    assert_eq!(added(&before, &after), vec![plain(7, "a date", "x")]);
}

#[test]
fn a_different_message_is_new() {
    let before = [plain(3, "a date", "x")];
    let after = [plain(3, "a name", "x")];
    assert_eq!(added(&before, &after).len(), 1);
}

#[test]
fn rewording_a_comment_that_keeps_its_finding_adds_none() {
    let before = [plain(3, "a date", "old words"), plain(9, "a date", "other")];
    let after = [plain(3, "a date", "new words"), plain(9, "a date", "other")];
    assert!(added(&before, &after).is_empty());
    let one_more = [
        plain(3, "a date", "new words"),
        plain(5, "a date", "x"),
        plain(9, "a date", "other"),
    ];
    assert_eq!(added(&before, &one_more).len(), 1);
}

#[test]
fn a_measured_thing_edited_inside_pairs_by_order_and_counts_only_growth() {
    let before = [sized(1, "old text", 12), sized(30, "g", 15)];
    let shrank = [sized(1, "new text", 11), sized(30, "g", 15)];
    assert!(added(&before, &shrank).is_empty());
    let grew = [sized(1, "new text", 13), sized(30, "g", 15)];
    assert_eq!(added(&before, &grew), vec![sized(1, "new text", 13)]);
}

#[test]
fn a_measured_finding_is_new_when_it_crosses_the_limit_or_grows() {
    assert_eq!(added(&[], &[sized(1, "f", 12)]).len(), 1);
    assert_eq!(added(&[sized(1, "f", 12)], &[sized(5, "f", 13)]).len(), 1);
}

#[test]
fn a_measured_finding_that_stays_or_shrinks_is_not_new() {
    assert!(added(&[sized(1, "f", 12)], &[sized(5, "f", 12)]).is_empty());
    assert!(added(&[sized(1, "f", 12)], &[sized(1, "f", 11)]).is_empty());
}

#[test]
fn same_named_measured_findings_pair_in_the_order_they_appear() {
    let before = [sized(1, "f", 20), sized(40, "f", 12)];
    let shrank_and_grew = [sized(3, "f", 15), sized(45, "f", 21)];
    assert_eq!(added(&before, &shrank_and_grew), vec![sized(45, "f", 21)]);
    let both_shrank = [sized(1, "f", 19), sized(40, "f", 11)];
    assert!(added(&before, &both_shrank).is_empty());
}

#[test]
fn against_nothing_every_finding_is_new_in_reading_order() {
    let after = [plain(9, "b", "y"), sized(2, "f", 12), plain(3, "a", "x")];
    assert_eq!(added(&[], &after), vec![sized(2, "f", 12), plain(3, "a", "x"), plain(9, "b", "y")]);
    assert!(added(&after, &after).is_empty());
}

#[test]
fn a_new_unmeasured_finding_is_one_its_message_has_more_of() {
    let before = [plain(1, "m", "x")];
    let after = [plain(1, "m", "y"), plain(5, "m", "z")];
    let r = added(&before, &after);
    assert_eq!(r.len(), 1);
    assert_eq!(r[0].message, "m");
}

#[test]
fn sorting_keeps_ties_in_the_order_they_came() {
    let mut v = vec![plain(4, "second", "b"), plain(2, "x", "c"), plain(4, "first", "a")];
    v[0].rule = "same".into();
    v[2].rule = "same".into();
    sort(&mut v);
    assert_eq!(v.iter().map(|f| f.anchor.as_str()).collect::<Vec<_>>(), vec!["c", "b", "a"]);
}
