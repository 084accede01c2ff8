use fairlead::guard::git::{nul_fields, parse_changes, staged_of, Change, Staged};

fn fields(v: &[&str]) -> Vec<String> {
    v.iter().map(|s| s.to_string()).collect()
}

#[test]
fn nul_fields_skips_empty_fields_and_reads_the_last_one() {
    assert_eq!(nul_fields(b"M\0a\0\0R100\0o\0n"), fields(&["M", "a", "R100", "o", "n"]));
    assert_eq!(nul_fields(b"a\0"), fields(&["a"]));
    assert!(nul_fields(b"").is_empty());
    assert!(nul_fields(b"\0\0").is_empty());
    assert_eq!(nul_fields(b"caf\xc3\xa9\0b\xff"), fields(&["caf\u{e9}", "b\u{fffd}"]));
}

#[test]
fn a_rename_takes_two_paths_and_a_cut_record_names_nothing() {
    let r = parse_changes(&fields(&["M", "a", "R100", "o", "n", "D"]));
    assert_eq!(
        r,
        vec![
            Change { status: 'M', before: None, path: "a".into() },
            Change { status: 'R', before: Some("o".into()), path: "n".into() },
        ]
    );
    assert!(parse_changes(&fields(&["C75", "x"])).is_empty());
}

#[test]
fn staging_keeps_the_head_path_only_when_there_is_a_head() {
    let cs = vec![
        Change { status: 'A', before: None, path: "new".into() },
        Change { status: 'D', before: None, path: "gone".into() },
        Change { status: 'M', before: None, path: "edit".into() },
        Change { status: 'R', before: Some("old".into()), path: "moved".into() },
    ];
    assert_eq!(
        staged_of(&cs, true),
        vec![
            Staged { before: None, path: "new".into() },
            Staged { before: Some("edit".into()), path: "edit".into() },
            Staged { before: Some("old".into()), path: "moved".into() },
        ]
    );
    assert_eq!(
        staged_of(&cs, false),
        vec![
            Staged { before: None, path: "new".into() },
            Staged { before: None, path: "edit".into() },
            Staged { before: None, path: "moved".into() },
        ]
    );
}
