use fairlead::lang::extract::{Extracted, SpecKind};
use fairlead::lang::graph::EdgeKind;
use fairlead::lang::scan::{file_result, literal_path, snapshot_of, to_resolve, Target};
use fairlead::lang::tree::Tree;

fn tree() -> Tree {
    Tree::from_files(
        "/r",
        vec!["src/a.ts".to_string(), "src/b.ts".to_string(), "bin/run.mjs".to_string()],
    )
}

#[test]
fn type_imports_are_followed_unless_turned_off() {
    let ex = Extracted {
        specs: vec![("./a".into(), SpecKind::Import), ("./t".into(), SpecKind::TypeImport)],
        literals: vec![],
        unknown_dynamic: false,
    };
    assert_eq!(to_resolve(&ex, true).len(), 2);
    assert_eq!(to_resolve(&ex, false), [("./a".to_string(), SpecKind::Import)]);
}

#[test]
fn a_file_adds_its_resolved_edges_then_its_path_literals() {
    let ex = Extracted {
        specs: vec![
            ("./a".into(), SpecKind::Import),
            ("pkg".into(), SpecKind::Require),
            ("lodash".into(), SpecKind::Import),
            ("./gone".into(), SpecKind::Dynamic),
        ],
        literals: vec!["./b.ts".into(), "./bin/run.mjs".into(), "nope.txt".into()],
        unknown_dynamic: true,
    };
    let targets = vec![
        (Target::File("src/a.ts".into()), false),
        (Target::Package("pkg".into()), true),
        (Target::External, false),
        (Target::Unresolved, false),
    ];
    let r = file_result(&tree(), "src/x.ts", &ex, &ex.specs, &targets);
    assert_eq!(
        r.edges,
        [
            ("src/a.ts".to_string(), EdgeKind::Import),
            ("src/b.ts".to_string(), EdgeKind::PathLiteral),
            ("bin/run.mjs".to_string(), EdgeKind::PathLiteral)
        ]
    );
    assert_eq!(r.packages, ["pkg"]);
    assert_eq!(r.unresolved, ["./gone"]);
    assert!(r.unknown && r.fell_back);
    assert_eq!(literal_path(&tree(), "src/x.ts", "../bin/run.mjs"), Some("bin/run.mjs".to_string()));
}

#[test]
fn a_snapshot_belongs_to_the_test_beside_its_folder() {
    assert_eq!(snapshot_of("src/__snapshots__/x.test.ts.snap"), Some("src/x.test.ts".to_string()));
    assert_eq!(snapshot_of("__snapshots__/y.test.ts.snap"), Some("y.test.ts".to_string()));
    assert_eq!(snapshot_of("src/snaps/x.test.ts.snap"), None);
    assert_eq!(snapshot_of("src/__snapshots__/x.test.ts"), None);
}
