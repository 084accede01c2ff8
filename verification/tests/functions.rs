use fairlead::config::{List, SizeRules};
use fairlead::guard::finding::Measure;
use fairlead::guard::functions::lengths;
use fairlead::guard::rules::Source;
use fairlead::guard::size::Size;
use fairlead::lang::extract::unwrap_tag_types;
use fairlead::lang::syntax::{parse, SyntaxNode};

fn lengths_of(path: &str, text: &str) -> Vec<(u32, u64, u64, String)> {
    let nodes = parse(path, text.as_bytes()).unwrap();
    let hooks: Vec<String> = ["describe", "it", "test"].iter().map(|s| s.to_string()).collect();
    lengths(&nodes, text.as_bytes(), &hooks)
        .into_iter()
        .map(|l| (l.line, l.own, l.total, l.name))
        .collect()
}

#[test]
fn a_nested_function_is_charged_to_itself_not_its_parent() {
    let text = "function outer() {\n  const inner = () => {\n    a()\n  }\n  b()\n}\n";
    assert_eq!(
        lengths_of("a.ts", text),
        vec![(1, 3, 6, "outer".into()), (2, 3, 3, "inner".into())]
    );
}

#[test]
fn export_and_decorators_start_the_function() {
    let text = "export function f() {\n}\nclass C {\n  @dec()\n  // why\n  m() {\n  }\n}\n";
    let found = lengths_of("a.ts", text);
    assert_eq!(found[0], (1, 2, 2, "f".into()));
    assert_eq!(found[1], (4, 4, 4, "m".into()));
}

#[test]
fn a_test_hook_callback_is_not_measured_but_what_it_nests_is() {
    let text = "describe(\"x\", () => {\n  it.each([1])(\"y\", () => {\n    const f = function () {\n      a()\n    }\n  })\n})\n";
    assert_eq!(lengths_of("a.test.ts", text), vec![(3, 3, 3, "f".into())]);
}

#[test]
fn methods_getters_constructors_and_generators_are_functions() {
    let text = "class C {\n  constructor() {}\n  get g() { return 1 }\n  *gen() {}\n}\nfunction* h() {}\n";
    let names: Vec<String> = lengths_of("a.ts", text).into_iter().map(|l| l.3).collect();
    assert_eq!(names, ["constructor", "g", "gen", "h"]);
}

fn size(file_lines: Option<u32>, function_lines: Option<u32>) -> Size {
    Size::new(&SizeRules {
        files: List::Items(vec!["**".to_string()]),
        file_lines,
        function_lines,
        ..SizeRules::default()
    })
    .unwrap()
}

#[test]
fn a_long_function_is_named_and_measured_and_a_short_one_is_not() {
    let text = "export function long() {\n  a()\n  b()\n}\nfunction short() {}\n";
    let found = size(None, Some(3)).check(&Source::new("a.ts", text));
    assert_eq!(found.len(), 1);
    assert_eq!(
        found[0].to_string(),
        "a.ts:1 function-length: function's own lines are 4, over 3 (4 total)"
    );
    assert_eq!(found[0].anchor, "long");
    assert_eq!(found[0].measure, Some(Measure { size: 4, limit: 3 }));
}

#[test]
fn function_length_needs_a_syntax_tree() {
    let text = "a\nb\nc\nd\ne\n";
    assert!(size(None, Some(1)).check(&Source::new("a.sql", text)).is_empty());
}

fn first_child(nodes: &[SyntaxNode], of: usize, named: bool) -> usize {
    (of + 1..nodes.len())
        .find(|&i| nodes[i].parent == Some(of) && (!named || nodes[i].named))
        .unwrap()
}

fn field(nodes: &[SyntaxNode], of: usize, name: &str) -> usize {
    (of + 1..nodes.len())
        .find(|&i| nodes[i].parent == Some(of) && nodes[i].field.as_deref() == Some(name))
        .unwrap()
}

#[test]
fn a_template_tag_with_type_arguments_parses_as_a_tagged_template() {
    let src = "const f = (a: string) =>\n  sql<{ n: Array<number>; f: (a: string) => void }>`\n    select ${a}\n  `\nconst g = (x: number) => x > 1 ? `a` : `b`\n";
    let nodes = parse("a.ts", src.as_bytes()).unwrap();
    assert!(!nodes[0].error);
    let declaration = first_child(&nodes, 0, false);
    let declarator = first_child(&nodes, declaration, true);
    let arrow = &nodes[field(&nodes, declarator, "value")];
    assert_eq!((arrow.kind.as_str(), arrow.end_row), ("arrow_function", 3));
    assert_eq!(&src[arrow.start_byte..arrow.start_byte + 3], "(a:");
}

#[test]
fn tag_type_arguments_are_blanked_and_newlines_kept() {
    assert_eq!(unwrap_tag_types(b"sql<Row>`x`"), b"sql     `x`".to_vec());
    assert_eq!(unwrap_tag_types(b"f<\nA>`x`"), b"f \n  `x`".to_vec());
    assert_eq!(unwrap_tag_types(b"a > 1 ? `a` : `b`"), b"a > 1 ? `a` : `b`".to_vec());
    assert_eq!(unwrap_tag_types(b"(x) => `a`"), b"(x) => `a`".to_vec());
}

#[test]
fn unwrapping_keeps_every_line_and_backtick_in_place() {
    let src = b"const q = sql<Row,\n Other>`select`; f(`a`)";
    let out = unwrap_tag_types(src);
    assert_eq!(out.len(), src.len());
    for (o, s) in out.iter().zip(src.iter()) {
        assert!(o == s || (*o == b' ' && *s != b'\n' && *s != b'`'));
    }
}
