use fairlead::guard::citations::heading_names;
use fairlead::strset::contains_str;

#[test]
fn a_heading_names_its_first_word_at_any_level() {
    let names =
        heading_names("# Lessons\n\n## T1024\ntext\n### no-stash: why\n#not a heading\n");
    assert!(
        contains_str(&names, "T1024")
            && contains_str(&names, "no-stash")
            && contains_str(&names, "Lessons")
    );
    assert!(!contains_str(&names, "not"));
}

#[test]
fn heading_names_come_sorted_and_once_each() {
    let names = heading_names("## T2.\n  # T1:\n## T2 again\n##\n");
    assert_eq!(names, ["T1", "T2"]);
}
