use fairlead::guard::comments::checks::{block_limit, unmarked_lines, Limits};
use fairlead::guard::comments::lines::{blocks, classify, flatten, lines, style_of, Block, Kind, Style};
use fairlead::guard::comments::lines::Kind::{Blank, Code, Comment};

fn owned(v: &[&str]) -> Vec<String> {
    v.iter().map(|s| s.to_string()).collect()
}

#[test]
fn a_block_comment_runs_to_its_close_and_a_comment_after_code_is_code() {
    let text = "/* a\n b */\nx() // c\n  // d\n\n-- e\n";
    let kinds = classify(&lines(text), Style::C);
    assert_eq!(kinds, [Comment, Comment, Code, Comment, Blank, Code]);
}

#[test]
fn sql_and_hash_comments_use_their_own_marker() {
    assert_eq!(
        classify(&owned(&["-- a", "select 1"]), Style::Sql),
        [Kind::Comment, Kind::Code]
    );
    assert_eq!(
        classify(&owned(&["# a", "a: 1"]), Style::Hash),
        [Kind::Comment, Kind::Code]
    );
}

#[test]
fn flattening_strips_each_lines_marker_and_joins_across_the_wrap() {
    assert_eq!(
        flatten("/**\n * used\n * to be */", Style::C),
        "used to be */"
    );
    assert_eq!(flatten("// a\n//   b", Style::C), "a b");
    assert_eq!(flatten("-- a\n--b", Style::Sql), "a b");
}

#[test]
fn a_block_knows_its_start_length_indent_and_whether_code_is_above() {
    let text = "x()\n\n  // a\n  // b\ny()\n// c\n";
    let found = blocks(&lines(text), &classify(&lines(text), Style::C), Style::C);
    assert_eq!(found.len(), 2);
    assert_eq!(
        (
            found[0].start,
            found[0].length,
            found[0].indented,
            found[0].after_code
        ),
        (3, 2, true, true)
    );
    assert_eq!(found[0].flat, "a b");
    assert_eq!((found[1].start, found[1].indented), (6, false));
}

fn block(start: u32, indented: bool, after_code: bool) -> Block {
    Block {
        start,
        length: 3,
        flat: String::new(),
        indented,
        after_code,
    }
}

#[test]
fn a_blocks_context_is_the_first_that_applies_with_a_limit() {
    let l = Limits {
        source: 8,
        test: Some(10),
        header: Some(12),
        inline: Some(2),
        migration: Some(1),
    };
    assert_eq!(
        block_limit(&block(5, true, true), &l, false, true),
        (1, "migration")
    );
    assert_eq!(
        block_limit(&block(5, true, true), &l, true, false),
        (2, "inline")
    );
    assert_eq!(
        block_limit(&block(1, false, false), &l, true, false),
        (12, "file header")
    );
    assert_eq!(
        block_limit(&block(5, true, false), &l, true, false),
        (10, "test")
    );
    assert_eq!(
        block_limit(&block(5, false, true), &l, false, false),
        (8, "source")
    );
    let bare = Limits {
        source: 8,
        test: None,
        header: None,
        inline: None,
        migration: None,
    };
    assert_eq!(
        block_limit(&block(1, true, true), &bare, true, true),
        (8, "source")
    );
}

#[test]
fn a_multi_line_block_needs_a_star_on_each_continuation_line() {
    let lines = owned(&["/**", " * ok", " not ok", " */", "/* one line */", "x()"]);
    assert_eq!(unmarked_lines(&lines), [3]);
}

#[test]
fn the_style_follows_the_extension() {
    assert_eq!(style_of("a/b.tsx"), Some(Style::C));
    assert_eq!(style_of("db/1.sql"), Some(Style::Sql));
    assert_eq!(style_of(".github/ci.yaml"), Some(Style::Hash));
    assert_eq!(style_of("README.md"), None);
    assert_eq!(style_of("Makefile"), None);
}

#[test]
fn a_final_newline_does_not_start_a_line() {
    assert_eq!(lines("a\nb\n"), ["a", "b"]);
    assert_eq!(lines("a\n\n"), ["a", ""]);
    assert_eq!(lines(""), Vec::<String>::new());
}

#[test]
fn hash_and_sql_markers_take_one_space_after_them() {
    assert_eq!(flatten("#  a\n# b", Style::Hash), "a b");
    assert_eq!(flatten("x -- y", Style::Sql), "x -- y");
}
