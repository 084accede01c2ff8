use fairlead::config::{Guard as GuardConfig, List, SizeRules};
use fairlead::guard::rules::{Guard, Source};

fn size(file_lines: Option<u32>, ratchet: bool) -> GuardConfig {
    GuardConfig {
        size: Some(SizeRules {
            files: List::Items(vec!["src/**".to_string()]),
            exclude: List::Items(vec!["src/gen/**".to_string()]),
            file_lines,
            ratchet,
            ..SizeRules::default()
        }),
        ..GuardConfig::default()
    }
}

#[test]
fn a_preset_that_is_not_configured_adds_no_rule() {
    assert!(Guard::new(&GuardConfig::default()).unwrap().is_empty());
    assert!(Guard::new(&size(None, true)).unwrap().is_empty());
}

#[test]
fn a_rule_reads_only_its_files_and_never_an_excluded_one() {
    let mut config = size(Some(1), true);
    config.exclude = List::Items(vec!["src/vendor/**".to_string()]);
    let guard = Guard::new(&config).unwrap();
    assert!(guard.reads("src/a.ts"));
    assert!(!guard.reads("lib/a.ts"));
    assert!(!guard.reads("src/gen/a.ts"));
    assert!(!guard.reads("src/vendor/a.ts"));
    let two_lines = Source {
        path: "src/vendor/a.ts",
        text: "a\nb\n",
    };
    assert!(guard.lint(two_lines).is_empty());
}

#[test]
fn ratchet_is_the_presets_choice() {
    let ratcheted = Guard::new(&size(Some(1), true)).unwrap().ratcheted();
    assert!(ratcheted.contains(&"file-length"));
    assert!(Guard::new(&size(Some(1), false))
        .unwrap()
        .ratcheted()
        .is_empty());
}

#[test]
fn a_file_the_rule_reads_gets_its_findings() {
    let guard = Guard::new(&size(Some(1), true)).unwrap();
    let found = guard.lint(Source::new("src/a.ts", "a\nb\n"));
    assert_eq!(found.len(), 1);
    assert_eq!(found[0].to_string(), "src/a.ts:1 file-length: file is 2 lines, over 1");
    assert!(Guard::new(&GuardConfig {
        exclude: List::Items(vec!["{".to_string()]),
        ..GuardConfig::default()
    })
    .is_err());
}
