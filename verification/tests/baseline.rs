use fairlead::guard::baseline::{changes, tally, Counts};
use fairlead::guard::finding::Finding;

fn finding(file: &str, rule: &str) -> Finding {
    Finding {
        file: file.into(),
        line: 1,
        rule: rule.into(),
        message: String::new(),
        anchor: String::new(),
        measure: None,
    }
}

fn counts(entries: &[(&str, &str, u64)]) -> Counts {
    let mut c = Counts::new();
    for (file, rule, n) in entries {
        c.set(file, rule, *n);
    }
    c
}

#[test]
fn tally_counts_per_file_and_rule() {
    let found = [finding("a", "x"), finding("a", "x"), finding("b", "x")];
    assert_eq!(tally(&found), counts(&[("a", "x", 2), ("b", "x", 1)]));
}

#[test]
fn changes_name_every_pair_that_rose_or_fell_and_none_that_held() {
    let was = counts(&[("a", "x", 2), ("b", "x", 1), ("c", "x", 1)]);
    let now = counts(&[("a", "x", 3), ("c", "x", 1), ("d", "x", 1)]);
    let found: Vec<(String, u64, u64)> = changes(&now, &was)
        .into_iter()
        .map(|c| (c.file, c.was, c.now))
        .collect();
    assert_eq!(
        found,
        vec![("a".into(), 2, 3), ("b".into(), 1, 0), ("d".into(), 0, 1)]
    );
}

#[test]
fn counts_come_out_in_file_then_rule_order() {
    let c = counts(&[("b", "y", 1), ("a", "z", 2), ("a", "y", 3)]);
    let keys: Vec<(String, String, u64)> = c.entries().clone();
    assert_eq!(
        keys,
        vec![
            ("a".into(), "y".into(), 3),
            ("a".into(), "z".into(), 2),
            ("b".into(), "y".into(), 1)
        ]
    );
    assert_eq!(c.get("a", "z"), 2);
    assert_eq!(c.get("c", "z"), 0);
}

#[test]
fn unchanged_counts_have_no_changes() {
    let c = counts(&[("a", "x", 2)]);
    assert!(changes(&c, &c).is_empty());
    assert!(Counts::new().is_empty());
}

#[test]
fn comparing_the_other_way_swaps_was_and_now() {
    let now = counts(&[("a", "x", 3), ("b", "y", 1)]);
    let was = counts(&[("a", "x", 1), ("c", "z", 2)]);
    let forward = changes(&now, &was);
    let back = changes(&was, &now);
    assert_eq!(forward.len(), back.len());
    for (f, b) in forward.iter().zip(back.iter()) {
        assert_eq!((&f.file, &f.rule, f.was, f.now), (&b.file, &b.rule, b.now, b.was));
    }
    assert!(changes(&now, &now).is_empty());
}
