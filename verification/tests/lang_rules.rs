use fairlead::config::{Config, List};
use fairlead::lang::graph::Graph;
use fairlead::lang::rules::Rules;

#[test]
fn barrier_files_among_the_ids_are_marked_once() {
    let mut c = Config::default().graph;
    c.barrier = List::Items(vec!["src/server/**".to_string()]);
    let rules = Rules::new(&c).unwrap();
    let mut g = Graph::with_files(
        vec!["src/server/index.ts".to_string(), "src/a.ts".to_string(), "src/server/b.ts".to_string()],
        vec![],
    );
    rules.mark(&mut g, &[0, 1]);
    rules.mark(&mut g, &[0]);
    assert_eq!(g.barrier, [0]);
    assert!(g.is_barrier(0) && !g.is_barrier(1) && !g.is_barrier(2));
}

#[test]
fn a_barrier_glob_that_does_not_compile_is_an_error() {
    let mut c = Config::default().graph;
    c.barrier = List::Items(vec!["a/{b".to_string()]);
    assert!(Rules::new(&c).is_err());
}
