use fairlead::config::{List, SizeRules};
use fairlead::guard::finding::{Finding, Measure};
use fairlead::guard::rules::Source;
use fairlead::guard::size::Size;

fn size(file_lines: Option<u32>, function_lines: Option<u32>) -> Size {
    Size::new(&SizeRules {
        files: List::Items(vec!["**".to_string()]),
        file_lines,
        function_lines,
        ..SizeRules::default()
    })
    .unwrap()
}

fn check(size: &Size, path: &str, text: &str) -> Vec<Finding> {
    size.check(&Source::new(path, text))
}

#[test]
fn a_file_at_the_limit_is_fine_and_one_line_over_is_a_finding() {
    assert!(check(&size(Some(2), None), "a.ts", "a\nb\n").is_empty());
    let found = check(&size(Some(2), None), "a.ts", "a\nb\nc\n");
    assert_eq!(found.len(), 1);
    assert_eq!(
        found[0].to_string(),
        "a.ts:1 file-length: file is 3 lines, over 2"
    );
    assert_eq!(found[0].measure, Some(Measure { size: 3, limit: 2 }));
}

#[test]
fn a_missing_final_newline_and_a_blank_last_line_count_as_lines_do() {
    assert!(check(&size(Some(2), None), "a.ts", "a\nb").is_empty());
    assert_eq!(check(&size(Some(2), None), "a.ts", "a\nb\n\n").len(), 1);
}

#[test]
fn an_empty_file_has_no_lines() {
    assert!(check(&size(Some(0), None), "a.ts", "").is_empty());
    assert_eq!(check(&size(Some(0), None), "a.ts", "\r\n").len(), 1);
}
