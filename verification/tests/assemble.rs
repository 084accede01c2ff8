use fairlead::config::{Config, EdgeRule, List};
use fairlead::lang::assemble::{add_result, add_results, add_snapshot_edges, attach_deleted};
use fairlead::lang::edges::rule_pairs;
use fairlead::lang::graph::{EdgeKind, Graph};
use fairlead::lang::rules::Rules;
use fairlead::lang::scan::FileResult;
use fairlead::lang::tree::Tree;

fn files(names: &[&str]) -> Vec<String> {
    names.iter().map(|s| s.to_string()).collect()
}

#[test]
fn an_edge_added_twice_is_recorded_once() {
    let mut g = Graph::with_files(files(&["a.ts", "b.ts"]), vec![]);
    g.add_edge(0, 1, EdgeKind::Import);
    g.add_edge(0, 1, EdgeKind::Import);
    g.add_edge(0, 0, EdgeKind::Import);
    assert_eq!(g.dependencies(0), &[(1, EdgeKind::Import)]);
    assert_eq!(g.stats().edges, 1);
    assert_eq!(g.importers(1), vec![(0, Some(EdgeKind::Import))]);
}

#[test]
fn a_package_edge_added_twice_counts_once() {
    let mut g = Graph::with_files(files(&["app/x.ts", "lib/y.ts"]), vec![("lib".into(), "lib".into())]);
    g.add_package_edge(0, "lib");
    g.add_package_edge(0, "lib");
    g.add_package_edge(0, "missing");
    assert_eq!(g.stats().package_edges, 1);
    assert_eq!(g.importers(1), vec![(0, None)]);
}

#[test]
fn a_known_phantom_changes_nothing() {
    let mut g = Graph::with_files(files(&["lib/a.ts"]), vec![("lib".into(), "lib".into())]);
    let id = g.add_phantom("lib/gone.ts");
    assert_eq!(id, 1);
    assert_eq!(g.add_phantom("lib/gone.ts"), 1);
    assert_eq!(g.add_phantom("lib/a.ts"), 0);
    assert_eq!(g.files.len(), 2);
    assert!(g.dependencies(1).is_empty());
    assert_eq!(g.package_of[1], Some(0));
}

#[test]
fn why_gives_the_shortest_chain() {
    // a -> b -> c -> d and a -> d: the chain is the direct edge.
    let mut g = Graph::with_files(files(&["a.ts", "b.ts", "c.ts", "d.ts"]), vec![]);
    g.add_edge(0, 1, EdgeKind::Import);
    g.add_edge(1, 2, EdgeKind::Import);
    g.add_edge(2, 3, EdgeKind::Import);
    g.add_edge(0, 3, EdgeKind::Dynamic);
    let chain = g.why(0, 3).unwrap();
    assert_eq!(chain, vec![("a.ts".to_string(), Some(EdgeKind::Dynamic)), ("d.ts".to_string(), None)]);
    assert_eq!(g.why(3, 0), None);
    let order = g.affected(&[3]);
    let parent_of_a = order.iter().find(|(f, _)| *f == 0).unwrap().1;
    assert_eq!(parent_of_a, Some(3));
}

#[test]
fn a_file_result_becomes_edges_and_notes() {
    let mut g = Graph::with_files(files(&["a.ts", "b.ts", "pkg/c.ts"]), vec![("pkg".into(), "pkg".into())]);
    let result = FileResult {
        edges: vec![("b.ts".into(), EdgeKind::Import), ("nowhere.ts".into(), EdgeKind::Import), ("a.ts".into(), EdgeKind::Require)],
        packages: vec!["pkg".into(), "other".into()],
        unresolved: vec!["./missing".into()],
        unknown: true,
        fell_back: false,
    };
    add_result(&mut g, 0, &result);
    assert_eq!(g.dependencies(0), &[(1, EdgeKind::Import)]);
    assert_eq!(g.importers(2), vec![(0, None)]);
    assert_eq!(g.unresolved, vec![(0, "./missing".to_string())]);
    assert_eq!(g.unknown, vec![0]);
    assert!(g.tsconfig_fallbacks.is_empty());
    let empty = FileResult { edges: vec![("a.ts".into(), EdgeKind::Mock)], packages: vec![], unresolved: vec![], unknown: false, fell_back: true };
    add_results(&mut g, &[(1, empty)]);
    assert_eq!(g.dependencies(1), &[(0, EdgeKind::Mock)]);
    assert_eq!(g.tsconfig_fallbacks, vec![1]);
}

#[test]
fn a_snapshot_depends_on_its_test() {
    let names = files(&["src/x.test.ts", "src/__snapshots__/x.test.ts.snap", "src/__snapshots__/y.test.ts.snap"]);
    let tree = Tree::from_files("/repo", names.clone());
    let mut g = Graph::with_files(names, vec![]);
    add_snapshot_edges(&tree, &mut g);
    assert_eq!(g.dependencies(0), &[(1, EdgeKind::Snapshot)]);
    assert!(g.dependencies(2).is_empty());
}

#[test]
fn deleted_files_come_back_with_their_importers() {
    let names = files(&["a.ts", "b.ts"]);
    let tree = Tree::from_files("/repo", names.clone());
    let mut g = Graph::with_files(names, vec![]);
    g.dangling.push((1, "gone.json".to_string()));
    let ids = attach_deleted(
        &tree,
        &mut g,
        &files(&["gone.ts", "a.ts", "gone.json"]),
        &[(0, "gone.ts".to_string(), EdgeKind::Import), (0, "elsewhere.ts".to_string(), EdgeKind::Import)],
    );
    assert_eq!(ids, vec![2, 3]);
    assert_eq!(g.files[2], "gone.ts");
    assert_eq!(g.dependencies(0), &[(2, EdgeKind::Import)]);
    assert_eq!(g.dependencies(1), &[(3, EdgeKind::PathLiteral)]);
}

#[test]
fn a_rule_links_files_through_a_placeholder() {
    let names = files(&["services/a/client.ts", "services/a/server/main.ts", "services/b/client.ts", "services/b/server/x.ts"]);
    let rule = EdgeRule { from: "services/{name}/client.ts".into(), to: vec!["services/{name}/server/**".into()] };
    let pairs = rule_pairs(&names, &rule).unwrap();
    assert_eq!(pairs, vec![(0, 1), (2, 3)]);
    let plain = EdgeRule { from: "*.md".into(), to: vec!["**".into()] };
    assert!(rule_pairs(&names, &plain).unwrap().is_empty());
    let broken = EdgeRule { from: "{a".into(), to: vec!["**".into()] };
    assert!(rule_pairs(&names, &broken).is_err());
}

#[test]
fn applying_rules_adds_rule_edges_and_counts_them() {
    let names = files(&["services/a/client.ts", "services/a/server/main.ts", "docs/x.md"]);
    let mut c = Config::default().graph;
    c.edges = List::Items(vec![
        EdgeRule { from: "services/{name}/client.ts".into(), to: vec!["services/{name}/server/**".into()] },
        EdgeRule { from: "nothing/**".into(), to: vec!["**".into()] },
    ]);
    let rules = Rules::new(&c).unwrap();
    let mut g = Graph::with_files(names, vec![]);
    let stats = rules.apply(&mut g).unwrap();
    assert_eq!(stats.edges, 1);
    assert_eq!(stats.unmatched, vec!["nothing/**".to_string()]);
    assert!(stats.large.is_empty());
    assert_eq!(g.dependencies(0), &[(1, EdgeKind::Rule)]);
    let mut h = Graph::with_files(files(&["services/a/client.ts", "services/a/server/main.ts", "services/b/client.ts", "services/b/server/x.ts"]), vec![]);
    rules.apply_to(&mut h, &[3]).unwrap();
    assert!(h.dependencies(0).is_empty());
    assert_eq!(h.dependencies(2), &[(3, EdgeKind::Rule)]);
}
