use fairlead::lang::extract::{extract, lexical, SpecKind, LEXICAL_ABOVE_BYTES};

fn specs(rel: &str, src: &str) -> Vec<(String, SpecKind)> {
    extract(rel, src.as_bytes()).specs
}

#[test]
fn finds_every_kind_of_specifier() {
    let src = r#"
import a from "./a.js";
import type { B } from "./b";
export { c } from "../c";
export * from "./d";
const e = await import("./e");
const f = require("./f");
vi.mock("./g");
jest.requireActual("./h");
require.resolve("./i");
import j = require("./j");
"#;
    let found = specs("src/x.ts", src);
    let expect = [
        ("../c", SpecKind::Import),
        ("./a.js", SpecKind::Import),
        ("./b", SpecKind::TypeImport),
        ("./d", SpecKind::Import),
        ("./e", SpecKind::Dynamic),
        ("./f", SpecKind::Require),
        ("./g", SpecKind::Mock),
        ("./h", SpecKind::Mock),
        ("./i", SpecKind::Require),
        ("./j", SpecKind::Require),
    ];
    for (spec, kind) in expect {
        assert!(
            found.contains(&(spec.to_string(), kind)),
            "missing {spec} {kind:?} in {found:?}"
        );
    }
}

#[test]
fn a_non_literal_dynamic_import_is_unknown() {
    assert!(extract("x.js", b"const m = await import(name);").unknown_dynamic);
    assert!(extract("x.ts", b"await import(`./p/${n}.js`);").unknown_dynamic);
    assert!(!extract("x.ts", b"await import('./p.js');").unknown_dynamic);
    assert!(extract("x.cjs", b"const m = require(path.join(dir, name));").unknown_dynamic);
    assert!(!extract("x.cjs", b"const m = require('./m');").unknown_dynamic);
}

#[test]
fn path_like_literals_are_kept_and_module_specifiers_are_not() {
    let src = r#"import a from "./a.json"; const bin = "../../cli/bin/run.mjs"; const s = "hello world"; const u = "https://x.io/a.js";"#;
    let got = extract("t/x.test.ts", src.as_bytes());
    assert_eq!(got.literals, vec!["../../cli/bin/run.mjs".to_string()]);
}

#[test]
fn large_files_are_scanned_lexically() {
    let mut src = String::from("import { a } from \"./a\";\nconst x = require('./b');\n");
    src.push_str(&"// filler\n".repeat(LEXICAL_ABOVE_BYTES / 10 + 1));
    let got = specs("big.ts", &src);
    assert_eq!(
        got,
        vec![
            ("./a".to_string(), SpecKind::Import),
            ("./b".to_string(), SpecKind::Import)
        ]
    );
}

#[test]
fn specifiers_come_sorted_by_text_then_kind_each_once() {
    let src = "import a from './b';\nimport type { T } from './b';\nimport c from './a';\nimport d from './a';\n";
    assert_eq!(
        specs("x.ts", src),
        vec![
            ("./a".to_string(), SpecKind::Import),
            ("./b".to_string(), SpecKind::Import),
            ("./b".to_string(), SpecKind::TypeImport),
        ]
    );
}

#[test]
fn other_files_refer_to_nothing() {
    let got = extract("README.md", b"import a from './a';");
    assert!(got.specs.is_empty() && got.literals.is_empty() && !got.unknown_dynamic);
}

#[test]
fn a_lexical_scan_reads_quoted_strings_after_the_keywords() {
    let got = lexical("export * from './x';\nconst y = import(\"./y\");\nfrom nothing");
    assert_eq!(
        got.specs,
        vec![("./x".to_string(), SpecKind::Import), ("./y".to_string(), SpecKind::Import)]
    );
}

#[test]
fn the_fingerprint_is_a_stable_sha1() {
    let a = fairlead::lang::extract::fingerprint();
    assert_eq!(a.len(), 40);
    assert!(a.chars().all(|c| c.is_ascii_hexdigit()));
    assert_eq!(a, fairlead::lang::extract::fingerprint());
}
