//! Putting the graph together: each source file's references become its
//! edges, package edges and unresolved specifiers; snapshot files join
//! their tests; files a change deleted come back as phantom nodes.
use vstd::prelude::*;

use crate::lang::graph::{first_named, has_edge, last_at, lemma_last_at, EdgeKind, Graph};
use crate::lang::scan::{snapshot_of, snapshot_test, FileResult};
use crate::lang::tree::{listed, Tree};

verus! {

/// An edge `result` adds from `from`: a referenced path that is a file of
/// the graph, to that file, other than `from` itself.
pub open spec fn result_edge(files: Seq<String>, from: int, result: &FileResult, t: int, k: EdgeKind) -> bool {
    &&& t != from
    &&& exists|j: int| 0 <= j < result.edges.len() && (#[trigger] result.edges@[j]).1 == k
        && last_at(files, result.edges@[j].0@, files.len() as int) == Some(t)
}

/// Whether `result` names the package at `p`.
pub open spec fn result_package(packages: Seq<String>, result: &FileResult, p: int) -> bool {
    exists|j: int| 0 <= j < result.packages.len() && first_named(packages, (#[trigger] result.packages@[j])@, packages.len() as int) == p
}

/// The unresolved specifiers of `result`, as graph entries from `from`.
pub open spec fn result_unresolved(from: u32, result: &FileResult) -> Seq<(u32, Seq<char>)> {
    result.unresolved@.map_values(|s: String| (from, s@))
}

pub open spec fn unresolved_view(u: Seq<(u32, String)>) -> Seq<(u32, Seq<char>)> {
    u.map_values(|e: (u32, String)| (e.0, e.1@))
}

/// `after` keeps what `before` had and adds what `result` adds from
/// `from`, and nothing else changes.
pub open spec fn added_result(before: Graph, after: Graph, from: u32, result: &FileResult) -> bool {
    let n = before.files.len() as int;
    &&& after.wf()
    &&& after.files == before.files
    &&& after.packages == before.packages
    &&& after.package_of == before.package_of
    &&& after.package_dirs == before.package_dirs
    &&& after.failed == before.failed
    &&& after.dangling == before.dangling
    &&& after.barrier == before.barrier
    &&& forall|f: int, t: int, k: EdgeKind| 0 <= f < n && 0 <= t < n ==> (#[trigger] has_edge(after.deps@, f, t, k)
        <==> (has_edge(before.deps@, f, t, k) || (f == from && result_edge(before.files@, f, result, t, k))))
    &&& after.package_importers.len() == before.package_importers.len()
    &&& forall|p: int| 0 <= p < before.packages.len() ==> (#[trigger] after.package_importers@[p])@.to_set()
        == if result_package(before.packages@, result, p) {
            before.package_importers@[p]@.to_set().insert(from)
        } else {
            before.package_importers@[p]@.to_set()
        }
    &&& unresolved_view(after.unresolved@) == unresolved_view(before.unresolved@) + result_unresolved(from, result)
    &&& after.unknown@ == if result.unknown { before.unknown@.push(from) } else { before.unknown@ }
    &&& after.tsconfig_fallbacks@ == if result.fell_back {
        before.tsconfig_fallbacks@.push(from)
    } else {
        before.tsconfig_fallbacks@
    }
}

/// Adds what one source file's references give: an edge to each
/// referenced file of the graph, a package edge to each named package,
/// its unresolved specifiers, and whether it has a dynamic import of
/// unknown target or fell back from its tsconfig.
pub fn add_result(graph: &mut Graph, from: u32, result: &FileResult)
    requires
        old(graph).wf(),
        (from as int) < old(graph).files.len(),
    ensures
        added_result(*old(graph), *final(graph), from, result),
{
    let ghost g0 = *graph;
    let ghost n = g0.files.len() as int;
    let mut i: usize = 0;
    while i < result.edges.len()
        invariant
            graph.wf(),
            (from as int) < n == graph.files.len(),
            i <= result.edges.len(),
            graph.files == g0.files,
            graph.packages == g0.packages,
            graph.package_of == g0.package_of,
            graph.package_dirs == g0.package_dirs,
            graph.package_importers == g0.package_importers,
            graph.failed == g0.failed,
            graph.dangling == g0.dangling,
            graph.barrier == g0.barrier,
            graph.unresolved == g0.unresolved,
            graph.unknown == g0.unknown,
            graph.tsconfig_fallbacks == g0.tsconfig_fallbacks,
            forall|f: int, t: int, k: EdgeKind| 0 <= f < n && 0 <= t < n ==> (#[trigger] has_edge(graph.deps@, f, t, k)
                <==> (has_edge(g0.deps@, f, t, k) || (f == from && t != from && exists|j: int| 0 <= j < i
                    && (#[trigger] result.edges@[j]).1 == k && last_at(g0.files@, result.edges@[j].0@, n) == Some(t)))),
        decreases result.edges.len() - i,
    {
        let (path, kind) = (&result.edges[i].0, result.edges[i].1);
        let found = graph.id(path.as_str());
        proof {
            lemma_last_at(g0.files@, path@, n);
        }
        let ghost before = graph.deps@;
        if let Some(to) = found {
            graph.add_edge(from, to, kind);
        }
        proof {
            assert forall|f: int, t: int, k: EdgeKind| 0 <= f < n && 0 <= t < n implies (#[trigger] has_edge(graph.deps@, f, t, k)
                <==> (has_edge(g0.deps@, f, t, k) || (f == from && t != from && exists|j: int| 0 <= j < i + 1
                    && (#[trigger] result.edges@[j]).1 == k && last_at(g0.files@, result.edges@[j].0@, n) == Some(t)))) by {
                assert(result.edges@[i as int].1 == kind && result.edges@[i as int].0@ == path@);
                if has_edge(graph.deps@, f, t, k) && !has_edge(before, f, t, k) {
                    assert(found == Some(t as u32));
                }
                if f == from && t != from && exists|j: int| 0 <= j < i + 1
                    && (#[trigger] result.edges@[j]).1 == k && last_at(g0.files@, result.edges@[j].0@, n) == Some(t) {
                    let j = choose|j: int| 0 <= j < i + 1
                        && (#[trigger] result.edges@[j]).1 == k && last_at(g0.files@, result.edges@[j].0@, n) == Some(t);
                    if j == i {
                        assert(found == Some(t as u32));
                    }
                }
            }
        }
        i = i + 1;
    }
    let ghost g1 = *graph;
    let mut i: usize = 0;
    while i < result.packages.len()
        invariant
            graph.wf(),
            (from as int) < n == graph.files.len(),
            i <= result.packages.len(),
            graph.files == g0.files,
            graph.deps == g1.deps,
            graph.packages == g0.packages,
            graph.package_of == g0.package_of,
            graph.package_dirs == g0.package_dirs,
            graph.failed == g0.failed,
            graph.dangling == g0.dangling,
            graph.barrier == g0.barrier,
            graph.unresolved == g0.unresolved,
            graph.unknown == g0.unknown,
            graph.tsconfig_fallbacks == g0.tsconfig_fallbacks,
            graph.package_importers.len() == g0.package_importers.len(),
            forall|p: int| 0 <= p < g0.packages.len() ==> (#[trigger] graph.package_importers@[p])@.to_set()
                == if exists|j: int| 0 <= j < i && first_named(g0.packages@, (#[trigger] result.packages@[j])@, g0.packages.len() as int) == p {
                    g0.package_importers@[p]@.to_set().insert(from)
                } else {
                    g0.package_importers@[p]@.to_set()
                },
        decreases result.packages.len() - i,
    {
        let ghost before = graph.package_importers@;
        graph.add_package_edge(from, result.packages[i].as_str());
        proof {
            assert forall|p: int| 0 <= p < g0.packages.len() implies (#[trigger] graph.package_importers@[p])@.to_set()
                == if exists|j: int| 0 <= j < i + 1 && first_named(g0.packages@, (#[trigger] result.packages@[j])@, g0.packages.len() as int) == p {
                    g0.package_importers@[p]@.to_set().insert(from)
                } else {
                    g0.package_importers@[p]@.to_set()
                } by {
                let here = first_named(g0.packages@, result.packages@[i as int]@, g0.packages.len() as int) == p;
                let earlier = exists|j: int| 0 <= j < i && first_named(g0.packages@, (#[trigger] result.packages@[j])@, g0.packages.len() as int) == p;
                let now = exists|j: int| 0 <= j < i + 1 && first_named(g0.packages@, (#[trigger] result.packages@[j])@, g0.packages.len() as int) == p;
                assert(now == (earlier || here)) by {
                    if now && !earlier {
                        let j = choose|j: int| 0 <= j < i + 1 && first_named(g0.packages@, (#[trigger] result.packages@[j])@, g0.packages.len() as int) == p;
                        assert(j == i);
                    }
                }
                assert(g0.package_importers@[p]@.to_set().insert(from).insert(from) =~= g0.package_importers@[p]@.to_set().insert(from));
            }
        }
        i = i + 1;
    }
    let ghost g2 = *graph;
    let mut i: usize = 0;
    while i < result.unresolved.len()
        invariant
            graph.wf(),
            n == graph.files.len(),
            i <= result.unresolved.len(),
            graph.files == g0.files,
            graph.deps == g1.deps,
            graph.rdeps == g2.rdeps,
            graph.packages == g0.packages,
            graph.package_of == g0.package_of,
            graph.package_dirs == g0.package_dirs,
            graph.package_importers == g2.package_importers,
            graph.failed == g0.failed,
            graph.dangling == g0.dangling,
            graph.barrier == g0.barrier,
            graph.unknown == g0.unknown,
            graph.tsconfig_fallbacks == g0.tsconfig_fallbacks,
            unresolved_view(graph.unresolved@) == unresolved_view(g0.unresolved@)
                + result.unresolved@.take(i as int).map_values(|s: String| (from, s@)),
        decreases result.unresolved.len() - i,
    {
        let s = result.unresolved[i].clone();
        let ghost old_u = graph.unresolved@;
        graph.unresolved.push((from, s));
        proof {
            assert(result.unresolved@.take(i as int + 1) =~= result.unresolved@.take(i as int).push(result.unresolved@[i as int]));
            assert(graph.unresolved@.last().1@ == result.unresolved@[i as int]@);
            assert(unresolved_view(graph.unresolved@) =~= unresolved_view(old_u).push((from, result.unresolved@[i as int]@)));
            assert(unresolved_view(graph.unresolved@) =~= unresolved_view(g0.unresolved@)
                + result.unresolved@.take(i as int + 1).map_values(|s: String| (from, s@)));
        }
        i = i + 1;
    }
    proof {
        assert(result.unresolved@.take(i as int) =~= result.unresolved@);
    }
    if result.unknown {
        graph.unknown.push(from);
    }
    if result.fell_back {
        graph.tsconfig_fallbacks.push(from);
    }
    proof {
        assert forall|p: int| 0 <= p < g0.packages.len() implies (#[trigger] graph.package_importers@[p])@.to_set()
            == if result_package(g0.packages@, result, p) {
                g0.package_importers@[p]@.to_set().insert(from)
            } else {
                g0.package_importers@[p]@.to_set()
            } by {
            assert(graph.package_importers@[p] == g2.package_importers@[p]);
        }
    }
}


/// The unresolved specifiers of all `results`, in order.
pub open spec fn all_unresolved(results: Seq<(u32, FileResult)>) -> Seq<(u32, Seq<char>)>
    decreases results.len(),
{
    if results.len() == 0 {
        Seq::empty()
    } else {
        all_unresolved(results.drop_last()) + result_unresolved(results.last().0, &results.last().1)
    }
}

/// The files among `results` flagged by `flag`, in order.
pub open spec fn all_flagged(results: Seq<(u32, FileResult)>, flag: spec_fn(&FileResult) -> bool) -> Seq<u32>
    decreases results.len(),
{
    if results.len() == 0 {
        Seq::empty()
    } else if flag(&results.last().1) {
        all_flagged(results.drop_last(), flag).push(results.last().0)
    } else {
        all_flagged(results.drop_last(), flag)
    }
}

pub open spec fn is_unknown(r: &FileResult) -> bool {
    r.unknown
}

pub open spec fn fell_back(r: &FileResult) -> bool {
    r.fell_back
}

/// `after` is `before` with what every one of `results` adds.
pub open spec fn added_results(before: Graph, after: Graph, results: Seq<(u32, FileResult)>) -> bool {
    let n = before.files.len() as int;
    &&& after.wf()
    &&& after.files == before.files
    &&& after.packages == before.packages
    &&& after.package_of == before.package_of
    &&& after.package_dirs == before.package_dirs
    &&& after.failed == before.failed
    &&& after.dangling == before.dangling
    &&& after.barrier == before.barrier
    &&& forall|f: int, t: int, k: EdgeKind| 0 <= f < n && 0 <= t < n ==> (#[trigger] has_edge(after.deps@, f, t, k)
        <==> (has_edge(before.deps@, f, t, k) || exists|i: int| 0 <= i < results.len() && results[i].0 == f
            && result_edge(before.files@, f, &(#[trigger] results[i]).1, t, k)))
    &&& after.package_importers.len() == before.package_importers.len()
    &&& forall|p: int| 0 <= p < before.packages.len() ==> (#[trigger] after.package_importers@[p])@.to_set()
        == before.package_importers@[p]@.to_set().union(Set::new(|x: u32| exists|i: int| 0 <= i < results.len()
            && (#[trigger] results[i]).0 == x && result_package(before.packages@, &results[i].1, p)))
    &&& unresolved_view(after.unresolved@) == unresolved_view(before.unresolved@) + all_unresolved(results)
    &&& after.unknown@ == before.unknown@ + all_flagged(results, |r: &FileResult| is_unknown(r))
    &&& after.tsconfig_fallbacks@ == before.tsconfig_fallbacks@ + all_flagged(results, |r: &FileResult| fell_back(r))
}

/// Adds what every source file's references give (`add_result` for each,
/// in order).
pub fn add_results(graph: &mut Graph, results: &[(u32, FileResult)])
    requires
        old(graph).wf(),
        forall|i: int| 0 <= i < results.len() ==> ((#[trigger] results@[i]).0 as int) < old(graph).files.len(),
    ensures
        added_results(*old(graph), *final(graph), results@),
{
    let ghost g0 = *graph;
    let ghost n = g0.files.len() as int;
    let mut i: usize = 0;
    proof {
        assert(results@.take(0) =~= Seq::<(u32, FileResult)>::empty());
        assert forall|p: int| 0 <= p < g0.packages.len() implies (#[trigger] graph.package_importers@[p])@.to_set()
            == g0.package_importers@[p]@.to_set().union(Set::new(|x: u32| exists|j: int| 0 <= j < results@.take(0).len()
                && (#[trigger] results@.take(0)[j]).0 == x && result_package(g0.packages@, &results@.take(0)[j].1, p))) by {
            assert(g0.package_importers@[p]@.to_set().union(Set::new(|x: u32| exists|j: int| 0 <= j < results@.take(0).len()
                && (#[trigger] results@.take(0)[j]).0 == x && result_package(g0.packages@, &results@.take(0)[j].1, p)))
                =~= g0.package_importers@[p]@.to_set());
        }
        assert(unresolved_view(graph.unresolved@) =~= unresolved_view(g0.unresolved@) + all_unresolved(results@.take(0)));
        assert(graph.unknown@ =~= g0.unknown@ + all_flagged(results@.take(0), |r: &FileResult| is_unknown(r)));
        assert(graph.tsconfig_fallbacks@ =~= g0.tsconfig_fallbacks@ + all_flagged(results@.take(0), |r: &FileResult| fell_back(r)));
    }
    while i < results.len()
        invariant
            i <= results.len(),
            n == g0.files.len(),
            g0.wf(),
            forall|j: int| 0 <= j < results.len() ==> ((#[trigger] results@[j]).0 as int) < n,
            added_results(g0, *graph, results@.take(i as int)),
        decreases results.len() - i,
    {
        let ghost gi = *graph;
        let ghost done = results@.take(i as int);
        let ghost next = results@.take(i as int + 1);
        add_result(graph, results[i].0, &results[i].1);
        proof {
            let r = results@[i as int];
            assert(next =~= done.push(r));
            assert(next.drop_last() =~= done);
            assert forall|f: int, t: int, k: EdgeKind| 0 <= f < n && 0 <= t < n implies (#[trigger] has_edge(graph.deps@, f, t, k)
                <==> (has_edge(g0.deps@, f, t, k) || exists|j: int| 0 <= j < next.len() && next[j].0 == f
                    && result_edge(g0.files@, f, &(#[trigger] next[j]).1, t, k))) by {
                assert(has_edge(gi.deps@, f, t, k) <==> (has_edge(g0.deps@, f, t, k) || exists|j: int| 0 <= j < done.len() && done[j].0 == f
                    && result_edge(g0.files@, f, &(#[trigger] done[j]).1, t, k)));
                assert(has_edge(graph.deps@, f, t, k) <==> (has_edge(gi.deps@, f, t, k)
                    || (f == r.0 && result_edge(g0.files@, f, &r.1, t, k))));
                if exists|j: int| 0 <= j < next.len() && next[j].0 == f && result_edge(g0.files@, f, &(#[trigger] next[j]).1, t, k) {
                    let j = choose|j: int| 0 <= j < next.len() && next[j].0 == f && result_edge(g0.files@, f, &(#[trigger] next[j]).1, t, k);
                    if j < i {
                        assert(done[j] == next[j]);
                    } else {
                        assert(next[j] == r);
                    }
                }
                if f == r.0 && result_edge(g0.files@, f, &r.1, t, k) {
                    assert(next[i as int] == r);
                    assert(result_edge(g0.files@, f, &next[i as int].1, t, k));
                }
                if exists|j: int| 0 <= j < done.len() && done[j].0 == f && result_edge(g0.files@, f, &(#[trigger] done[j]).1, t, k) {
                    let j = choose|j: int| 0 <= j < done.len() && done[j].0 == f && result_edge(g0.files@, f, &(#[trigger] done[j]).1, t, k);
                    assert(next[j] == done[j]);
                }
            }
            assert forall|p: int| 0 <= p < g0.packages.len() implies (#[trigger] graph.package_importers@[p])@.to_set()
                == g0.package_importers@[p]@.to_set().union(Set::new(|x: u32| exists|j: int| 0 <= j < next.len()
                    && (#[trigger] next[j]).0 == x && result_package(g0.packages@, &next[j].1, p))) by {
                let a = Set::new(|x: u32| exists|j: int| 0 <= j < done.len()
                    && (#[trigger] done[j]).0 == x && result_package(g0.packages@, &done[j].1, p));
                let b = Set::new(|x: u32| exists|j: int| 0 <= j < next.len()
                    && (#[trigger] next[j]).0 == x && result_package(g0.packages@, &next[j].1, p));
                assert(b =~= if result_package(g0.packages@, &r.1, p) { a.insert(r.0) } else { a }) by {
                    assert forall|x: u32| b.contains(x) <==> (if result_package(g0.packages@, &r.1, p) { a.insert(r.0) } else { a }).contains(x) by {
                        if b.contains(x) {
                            let j = choose|j: int| 0 <= j < next.len() && (#[trigger] next[j]).0 == x && result_package(g0.packages@, &next[j].1, p);
                            if j < i {
                                assert(done[j] == next[j]);
                            }
                        }
                        if a.contains(x) {
                            let j = choose|j: int| 0 <= j < done.len() && (#[trigger] done[j]).0 == x && result_package(g0.packages@, &done[j].1, p);
                            assert(next[j] == done[j]);
                        }
                        if result_package(g0.packages@, &r.1, p) && x == r.0 {
                            assert(next[i as int] == r);
                        }
                    }
                }
                assert(gi.package_importers@[p]@.to_set() == g0.package_importers@[p]@.to_set().union(a));
                if result_package(g0.packages@, &r.1, p) {
                    assert(graph.package_importers@[p]@.to_set() =~= g0.package_importers@[p]@.to_set().union(a.insert(r.0)));
                } else {
                    assert(graph.package_importers@[p]@.to_set() =~= g0.package_importers@[p]@.to_set().union(a));
                }
            }
            assert(all_unresolved(next) == all_unresolved(done) + result_unresolved(r.0, &r.1));
            assert(unresolved_view(graph.unresolved@) =~= unresolved_view(g0.unresolved@) + all_unresolved(next));
            assert(graph.unknown@ =~= g0.unknown@ + all_flagged(next, |r: &FileResult| is_unknown(r)));
            assert(graph.tsconfig_fallbacks@ =~= g0.tsconfig_fallbacks@ + all_flagged(next, |r: &FileResult| fell_back(r)));
        }
        i = i + 1;
    }
    proof {
        assert(results@.take(i as int) =~= results@);
    }
}


/// `snap` is a snapshot file at `t` of the test at `f`.
pub open spec fn snap_link(files: Seq<String>, snap: Seq<char>, f: int, t: int) -> bool {
    match snapshot_test(snap) {
        Some(test) => last_at(files, test, files.len() as int) == Some(f)
            && last_at(files, snap, files.len() as int) == Some(t),
        None => false,
    }
}

/// A snapshot edge: from the test at `f` to its snapshot file at `t`, one
/// of `snaps` (the tree's files), both in the graph.
pub open spec fn snapshot_edge(snaps: Seq<String>, files: Seq<String>, f: int, t: int) -> bool {
    &&& f != t
    &&& exists|j: int| 0 <= j < snaps.len() && #[trigger] snap_link(files, snaps[j]@, f, t)
}

/// `dir/__snapshots__/x.test.ts.snap` belongs to `dir/x.test.ts`: each
/// snapshot file of the tree gets an edge from its test, where both are in
/// the graph. Nothing else changes.
pub fn add_snapshot_edges(tree: &Tree, graph: &mut Graph)
    requires
        old(graph).wf(),
    ensures
        final(graph).wf(),
        final(graph).files == old(graph).files,
        final(graph).packages == old(graph).packages,
        final(graph).package_of == old(graph).package_of,
        final(graph).package_importers == old(graph).package_importers,
        final(graph).package_dirs == old(graph).package_dirs,
        final(graph).unresolved == old(graph).unresolved,
        final(graph).failed == old(graph).failed,
        final(graph).dangling == old(graph).dangling,
        final(graph).unknown == old(graph).unknown,
        final(graph).tsconfig_fallbacks == old(graph).tsconfig_fallbacks,
        final(graph).barrier == old(graph).barrier,
        forall|f: int, t: int, k: EdgeKind| 0 <= f < old(graph).files.len() && 0 <= t < old(graph).files.len() ==>
            (#[trigger] has_edge(final(graph).deps@, f, t, k) <==> (has_edge(old(graph).deps@, f, t, k)
                || (k == EdgeKind::Snapshot && snapshot_edge(tree.files@, old(graph).files@, f, t)))),
{
    let ghost g0 = *graph;
    let ghost n = g0.files.len() as int;
    let ghost snaps = tree.files@;
    let mut j: usize = 0;
    while j < tree.files.len()
        invariant
            j <= tree.files.len(),
            snaps == tree.files@,
            graph.wf(),
            n == graph.files.len(),
            graph.files == g0.files,
            graph.packages == g0.packages,
            graph.package_of == g0.package_of,
            graph.package_importers == g0.package_importers,
            graph.package_dirs == g0.package_dirs,
            graph.unresolved == g0.unresolved,
            graph.failed == g0.failed,
            graph.dangling == g0.dangling,
            graph.unknown == g0.unknown,
            graph.tsconfig_fallbacks == g0.tsconfig_fallbacks,
            graph.barrier == g0.barrier,
            forall|f: int, t: int, k: EdgeKind| 0 <= f < n && 0 <= t < n ==> (#[trigger] has_edge(graph.deps@, f, t, k)
                <==> (has_edge(g0.deps@, f, t, k) || (k == EdgeKind::Snapshot && f != t
                    && exists|q: int| 0 <= q < j && #[trigger] snap_link(g0.files@, snaps[q]@, f, t)))),
        decreases tree.files.len() - j,
    {
        let snap = &tree.files[j];
        let ghost before = graph.deps@;
        let mut ends: Option<(u32, u32)> = None;
        if let Some(test) = snapshot_of(snap.as_str()) {
            let from = graph.id(test.as_str());
            let to = graph.id(snap.as_str());
            proof {
                lemma_last_at(g0.files@, test@, n);
                lemma_last_at(g0.files@, snap@, n);
            }
            if let (Some(from), Some(to)) = (from, to) {
                graph.add_edge(from, to, EdgeKind::Snapshot);
                ends = Some((from, to));
            }
        }
        proof {
            assert(snaps[j as int] == *snap);
            assert(forall|a: int, b: int| 0 <= a < n && 0 <= b < n && #[trigger] snap_link(g0.files@, snap@, a, b) ==> ends == Some((a as u32, b as u32)));
            assert(ends is None ==> graph.deps == g0.deps || graph.deps@ == before);
            assert forall|f: int, t: int, k: EdgeKind| 0 <= f < n && 0 <= t < n implies (#[trigger] has_edge(graph.deps@, f, t, k)
                <==> (has_edge(before, f, t, k) || (k == EdgeKind::Snapshot && f != t && snap_link(g0.files@, snap@, f, t)))) by {
                if let Some((a, b)) = ends {
                    assert(snap_link(g0.files@, snap@, a as int, b as int));
                }
            }
            assert forall|f: int, t: int, k: EdgeKind| 0 <= f < n && 0 <= t < n implies (#[trigger] has_edge(graph.deps@, f, t, k)
                <==> (has_edge(g0.deps@, f, t, k) || (k == EdgeKind::Snapshot && f != t
                    && exists|q: int| 0 <= q < j + 1 && #[trigger] snap_link(g0.files@, snaps[q]@, f, t)))) by {
                if has_edge(graph.deps@, f, t, k) && !has_edge(before, f, t, k) {
                    assert(ends == Some((f as u32, t as u32)));
                }
                if k == EdgeKind::Snapshot && f != t
                    && exists|q: int| 0 <= q < j + 1 && #[trigger] snap_link(g0.files@, snaps[q]@, f, t) {
                    let q = choose|q: int| 0 <= q < j + 1 && #[trigger] snap_link(g0.files@, snaps[q]@, f, t);
                    if q == j {
                        assert(ends == Some((f as u32, t as u32)));
                    }
                }
            }
        }
        j = j + 1;
    }
}


/// The deleted paths that are not in the tree, in order.
pub open spec fn gone_of(tree_files: Seq<String>, deleted: Seq<String>) -> Seq<Seq<char>>
    decreases deleted.len(),
{
    if deleted.len() == 0 {
        Seq::empty()
    } else if listed(tree_files, deleted.last()@) {
        gone_of(tree_files, deleted.drop_last())
    } else {
        gone_of(tree_files, deleted.drop_last()).push(deleted.last()@)
    }
}

/// An edge to a deleted file: a failed specifier of `f` that now resolves
/// to one (`resolved`), or a dangling path literal of `f` naming one.
pub open spec fn deleted_edge(
    files: Seq<String>,
    gone: Seq<Seq<char>>,
    resolved: Seq<(u32, String, EdgeKind)>,
    dangling: Seq<(u32, String)>,
    f: int,
    t: int,
    k: EdgeKind,
) -> bool {
    &&& f != t
    &&& {
        ||| exists|i: int| 0 <= i < resolved.len() && (#[trigger] resolved[i]).0 == f && resolved[i].2 == k
            && gone.contains(resolved[i].1@) && last_at(files, resolved[i].1@, files.len() as int) == Some(t)
        ||| (k == EdgeKind::PathLiteral && exists|i: int| 0 <= i < dangling.len() && (#[trigger] dangling[i]).0 == f
            && gone.contains(dangling[i].1@) && last_at(files, dangling[i].1@, files.len() as int) == Some(t))
    }
}

proof fn lemma_last_at_found(files: Seq<String>, file: Seq<char>, x: int, m: int)
    requires
        0 <= x < m <= files.len(),
        files[x]@ == file,
    ensures
        last_at(files, file, m) is Some,
    decreases m,
{
    if m - 1 != x && files[m - 1]@ != file {
        lemma_last_at_found(files, file, x, m - 1);
    }
}

fn contains_text(list: &Vec<String>, s: &str) -> (r: bool)
    ensures
        r == list@.map_values(|x: String| x@).contains(s@),
{
    let mut i: usize = 0;
    while i < list.len()
        invariant
            i <= list.len(),
            forall|j: int| 0 <= j < i ==> (#[trigger] list@[j])@ != s@,
        decreases list.len() - i,
    {
        if crate::text::same_str(list[i].as_str(), s) {
            proof {
                assert(list@.map_values(|x: String| x@)[i as int] == s@);
            }
            return true;
        }
        i = i + 1;
    }
    proof {
        if list@.map_values(|x: String| x@).contains(s@) {
            let v = list@.map_values(|x: String| x@);
            let j = choose|j: int| 0 <= j < v.len() && #[trigger] v[j] == s@;
            assert(list@[j]@ == s@);
        }
    }
    false
}

/// Deleted files go back into the graph: each deleted path the tree no
/// longer has becomes a phantom node (its id returned, in order), joined
/// by an edge from each failed specifier that now resolves to it
/// (`resolved`, from the resolver run with the deleted files shown as
/// empty) and from each dangling path literal that names it.
pub fn attach_deleted(
    tree: &Tree,
    graph: &mut Graph,
    deleted: &[String],
    resolved: &[(u32, String, EdgeKind)],
) -> (ids: Vec<u32>)
    requires
        old(graph).wf(),
        old(graph).files.len() + deleted.len() + 1 < u32::MAX,
        forall|i: int| 0 <= i < resolved.len() ==> ((#[trigger] resolved@[i]).0 as int) < old(graph).files.len(),
    ensures
        final(graph).wf(),
        ids@.len() == gone_of(tree.files@, deleted@).len(),
        forall|i: int| #![trigger ids@[i]] 0 <= i < ids.len() ==> (ids@[i] as int) < final(graph).files.len()
            && final(graph).files@[ids@[i] as int]@ == gone_of(tree.files@, deleted@)[i],
        final(graph).files@.take(old(graph).files.len() as int) == old(graph).files@,
        forall|x: int| old(graph).files.len() <= x < final(graph).files.len() ==> gone_of(tree.files@, deleted@).contains(
            (#[trigger] final(graph).files@[x])@),
        final(graph).packages == old(graph).packages,
        final(graph).package_importers == old(graph).package_importers,
        final(graph).failed == old(graph).failed,
        final(graph).dangling == old(graph).dangling,
        forall|f: int, t: int, k: EdgeKind| 0 <= f < final(graph).files.len() && 0 <= t < final(graph).files.len() ==>
            (#[trigger] has_edge(final(graph).deps@, f, t, k) <==> (
                (f < old(graph).files.len() && t < old(graph).files.len() && has_edge(old(graph).deps@, f, t, k))
                || deleted_edge(final(graph).files@, gone_of(tree.files@, deleted@), resolved@, old(graph).dangling@, f, t, k))),
{
    let ghost g0 = *graph;
    let ghost n0 = g0.files.len() as int;
    let ghost tf = tree.files@;
    let mut gone: Vec<String> = Vec::new();
    let mut ids: Vec<u32> = Vec::new();
    let mut i: usize = 0;
    while i < deleted.len()
        invariant
            i <= deleted.len(),
            tf == tree.files@,
            graph.wf(),
            n0 == g0.files.len(),
            g0.files.len() + deleted.len() + 1 < u32::MAX,
            n0 <= graph.files.len() <= n0 + i,
            gone@.map_values(|x: String| x@) == gone_of(tf, deleted@.take(i as int)),
            ids@.len() == gone@.len(),
            forall|q: int| #![trigger ids@[q]] 0 <= q < ids.len() ==> (ids@[q] as int) < graph.files.len()
                && graph.files@[ids@[q] as int]@ == gone@[q]@,
            graph.files@.take(n0) == g0.files@,
            forall|x: int| n0 <= x < graph.files.len() ==> gone@.map_values(|y: String| y@).contains((#[trigger] graph.files@[x])@),
            graph.packages == g0.packages,
            graph.package_importers == g0.package_importers,
            graph.failed == g0.failed,
            graph.dangling == g0.dangling,
            forall|f: int, t: int, k: EdgeKind| 0 <= f < graph.files.len() && 0 <= t < graph.files.len() ==>
                (#[trigger] has_edge(graph.deps@, f, t, k) <==> (f < n0 && t < n0 && has_edge(g0.deps@, f, t, k))),
        decreases deleted.len() - i,
    {
        let ghost gp = *graph;
        let ghost before = gone@;
        let ghost ids0 = ids@;
        assert(forall|q: int| 0 <= q < ids0.len() ==> (ids0[q] as int) < gp.files.len());
        proof {
            assert(deleted@.take(i as int + 1).drop_last() =~= deleted@.take(i as int));
            assert(deleted@.take(i as int + 1).last() == deleted@[i as int]);
        }
        if !tree.contains(deleted[i].as_str()) {
            let id = graph.add_phantom(deleted[i].as_str());
            gone.push(deleted[i].clone());
            ids.push(id);
            proof {
                let m0 = gp.files.len() as int;
                let fresh = last_at(gp.files@, deleted@[i as int]@, m0) is None;
                assert(graph.files@.take(m0) =~= gp.files@) by {
                    if !fresh {
                        assert(*graph == gp);
                    }
                }
                assert(graph.files@.len() >= m0);
                assert(forall|x: int| 0 <= x < m0 ==> graph.files@[x] == #[trigger] gp.files@[x]) by {
                    assert forall|x: int| 0 <= x < m0 implies graph.files@[x] == #[trigger] gp.files@[x] by {
                        assert(graph.files@.take(m0)[x] == graph.files@[x]);
                    }
                }
                if !fresh {
                    assert(*graph == gp);
                } else {
                    assert(graph.deps@.len() == m0 + 1);
                    assert forall|f: int| 0 <= f < m0 implies #[trigger] graph.deps@[f] == gp.deps@[f] by {
                        assert(graph.deps@ == gp.deps@.push(graph.deps@[m0]));
                    }
                }
                assert(gone@.map_values(|x: String| x@) =~= before.map_values(|x: String| x@).push(deleted@[i as int]@));
                let m = graph.files.len() as int;
                assert forall|x: int| n0 <= x < m implies gone@.map_values(|y: String| y@).contains((#[trigger] graph.files@[x])@) by {
                    if x < gp.files.len() {
                        assert(graph.files@[x] == gp.files@.take(gp.files.len() as int)[x]);
                        assert(gp.files@[x] == graph.files@[x]);
                        let v = before.map_values(|y: String| y@);
                        let w = choose|w: int| 0 <= w < v.len() && #[trigger] v[w] == gp.files@[x]@;
                        assert(gone@.map_values(|y: String| y@)[w] == gp.files@[x]@);
                    } else {
                        assert(gone@.map_values(|y: String| y@)[gone@.len() - 1] == deleted@[i as int]@);
                    }
                }
                assert forall|q: int| #![trigger ids@[q]] 0 <= q < ids.len() implies (ids@[q] as int) < graph.files.len()
                    && graph.files@[ids@[q] as int]@ == gone@[q]@ by {
                    if q < ids.len() - 1 {
                        assert(ids@[q] == ids0[q] && gone@[q] == before[q]);
                        assert(gp.files@[ids0[q] as int]@ == before[q]@);
                        assert(graph.files@[ids@[q] as int] == gp.files@[ids@[q] as int]);
                    } else {
                        assert(ids@[q] == id && gone@[q]@ == deleted@[i as int]@);
                    }
                }
                assert(graph.files@.take(n0) =~= g0.files@) by {
                    assert forall|x: int| 0 <= x < n0 implies graph.files@[x] == g0.files@[x] by {
                        assert(gp.files@.take(n0)[x] == gp.files@[x]);
                    }
                }
                assert forall|f: int, t: int, k: EdgeKind| 0 <= f < m && 0 <= t < m implies
                    (#[trigger] has_edge(graph.deps@, f, t, k) <==> (f < n0 && t < n0 && has_edge(g0.deps@, f, t, k))) by {
                    if !fresh {
                        assert(*graph == gp);
                    } else {
                        if f < m - 1 {
                            assert(graph.deps@[f] == gp.deps@[f]);
                            if t == m - 1 {
                                if has_edge(graph.deps@, f, t, k) {
                                    let j = choose|j: int| 0 <= j < graph.deps@[f].len() && #[trigger] graph.deps@[f]@[j] == (t as u32, k);
                                    assert(gp.deps@[f]@[j].0 < m - 1);
                                }
                                assert(t >= n0);
                            } else {
                                assert(has_edge(graph.deps@, f, t, k) == has_edge(gp.deps@, f, t, k));
                                assert(has_edge(gp.deps@, f, t, k) <==> (f < n0 && t < n0 && has_edge(g0.deps@, f, t, k)));
                            }
                        } else {
                            assert(f >= n0);
                            assert(graph.deps@[f]@.len() == 0);
                        }
                    }
                }
            }
        } else {
            proof {
                assert(gone@.map_values(|x: String| x@) =~= gone_of(tf, deleted@.take(i as int + 1)));
            }
        }
        i = i + 1;
    }
    proof {
        assert(deleted@.take(i as int) =~= deleted@);
    }
    let ghost g1 = *graph;
    let ghost n1 = g1.files.len() as int;
    let ghost gset = gone_of(tf, deleted@);
    proof {
        assert forall|q: int| 0 <= q < gone.len() implies last_at(g1.files@, (#[trigger] gone@[q])@, n1) is Some by {
            assert(g1.files@[ids@[q] as int]@ == gone@[q]@);
            lemma_last_at_found(g1.files@, gone@[q]@, ids@[q] as int, n1);
        }
    }
    let mut e: usize = 0;
    while e < resolved.len()
        invariant
            e <= resolved.len(),
            graph.wf(),
            n1 == graph.files.len(),
            graph.files == g1.files,
            graph.packages == g0.packages,
            graph.package_importers == g0.package_importers,
            graph.failed == g0.failed,
            graph.dangling == g0.dangling,
            n0 <= n1,
            gone@.map_values(|x: String| x@) == gset,
            forall|q: int| 0 <= q < gone.len() ==> last_at(g1.files@, (#[trigger] gone@[q])@, n1) is Some,
            forall|q: int| 0 <= q < resolved.len() ==> ((#[trigger] resolved@[q]).0 as int) < n0,
            forall|f: int, t: int, k: EdgeKind| 0 <= f < n1 && 0 <= t < n1 ==>
                (#[trigger] has_edge(graph.deps@, f, t, k) <==> ((f < n0 && t < n0 && has_edge(g0.deps@, f, t, k))
                    || (f != t && exists|q: int| 0 <= q < e && (#[trigger] resolved@[q]).0 == f && resolved@[q].2 == k
                        && gset.contains(resolved@[q].1@) && last_at(g1.files@, resolved@[q].1@, n1) == Some(t)))),
        decreases resolved.len() - e,
    {
        let (from, to, kind) = (resolved[e].0, &resolved[e].1, resolved[e].2);
        let ghost before = graph.deps@;
        let mut added: Option<u32> = None;
        if contains_text(&gone, to.as_str()) {
            let found = graph.id(to.as_str());
            proof {
                let v = gone@.map_values(|x: String| x@);
                let w = choose|w: int| 0 <= w < v.len() && #[trigger] v[w] == to@;
                assert(gone@[w]@ == to@);
                lemma_last_at(g1.files@, to@, n1);
            }
            if let Some(t) = found {
                graph.add_edge(from, t, kind);
                added = Some(t);
            }
        }
        proof {
            assert(resolved@[e as int].1@ == to@ && resolved@[e as int].0 == from && resolved@[e as int].2 == kind);
            assert forall|f: int, t: int, k: EdgeKind| 0 <= f < n1 && 0 <= t < n1 implies
                (#[trigger] has_edge(graph.deps@, f, t, k) <==> ((f < n0 && t < n0 && has_edge(g0.deps@, f, t, k))
                    || (f != t && exists|q: int| 0 <= q < e + 1 && (#[trigger] resolved@[q]).0 == f && resolved@[q].2 == k
                        && gset.contains(resolved@[q].1@) && last_at(g1.files@, resolved@[q].1@, n1) == Some(t)))) by {
                if f != t && exists|q: int| 0 <= q < e + 1 && (#[trigger] resolved@[q]).0 == f && resolved@[q].2 == k
                        && gset.contains(resolved@[q].1@) && last_at(g1.files@, resolved@[q].1@, n1) == Some(t) {
                    let q = choose|q: int| 0 <= q < e + 1 && (#[trigger] resolved@[q]).0 == f && resolved@[q].2 == k
                        && gset.contains(resolved@[q].1@) && last_at(g1.files@, resolved@[q].1@, n1) == Some(t);
                    if q == e {
                        assert(added == Some(t as u32));
                    }
                }
                if has_edge(graph.deps@, f, t, k) && !has_edge(before, f, t, k) {
                    assert(added == Some(t as u32));
                }
            }
        }
        e = e + 1;
    }
    let ghost g2 = *graph;
    let mut e: usize = 0;
    while e < graph.dangling.len()
        invariant
            e <= g0.dangling.len(),
            graph.wf(),
            n1 == graph.files.len(),
            graph.files == g1.files,
            graph.packages == g0.packages,
            graph.package_importers == g0.package_importers,
            graph.failed == g0.failed,
            graph.dangling == g0.dangling,
            n0 <= n1,
            gone@.map_values(|x: String| x@) == gset,
            forall|q: int| 0 <= q < gone.len() ==> last_at(g1.files@, (#[trigger] gone@[q])@, n1) is Some,
            forall|f: int, t: int, k: EdgeKind| 0 <= f < n1 && 0 <= t < n1 ==>
                (#[trigger] has_edge(graph.deps@, f, t, k) <==> (has_edge(g2.deps@, f, t, k)
                    || (f != t && k == EdgeKind::PathLiteral && exists|q: int| 0 <= q < e && (#[trigger] g0.dangling@[q]).0 == f
                        && gset.contains(g0.dangling@[q].1@) && last_at(g1.files@, g0.dangling@[q].1@, n1) == Some(t)))),
        decreases g0.dangling.len() - e,
    {
        let from = graph.dangling[e].0;
        let to = graph.dangling[e].1.clone();
        let ghost before = graph.deps@;
        let mut added: Option<u32> = None;
        if (from as usize) < graph.files.len() && contains_text(&gone, to.as_str()) {
            let found = graph.id(to.as_str());
            proof {
                lemma_last_at(g1.files@, to@, n1);
            }
            if let Some(t) = found {
                graph.add_edge(from, t, EdgeKind::PathLiteral);
                added = Some(t);
            }
        }
        proof {
            assert(g0.dangling@[e as int].1@ == to@ && g0.dangling@[e as int].0 == from);
            assert forall|f: int, t: int, k: EdgeKind| 0 <= f < n1 && 0 <= t < n1 implies
                (#[trigger] has_edge(graph.deps@, f, t, k) <==> (has_edge(g2.deps@, f, t, k)
                    || (f != t && k == EdgeKind::PathLiteral && exists|q: int| 0 <= q < e + 1 && (#[trigger] g0.dangling@[q]).0 == f
                        && gset.contains(g0.dangling@[q].1@) && last_at(g1.files@, g0.dangling@[q].1@, n1) == Some(t)))) by {
                if f != t && k == EdgeKind::PathLiteral && exists|q: int| 0 <= q < e + 1 && (#[trigger] g0.dangling@[q]).0 == f
                        && gset.contains(g0.dangling@[q].1@) && last_at(g1.files@, g0.dangling@[q].1@, n1) == Some(t) {
                    let q = choose|q: int| 0 <= q < e + 1 && (#[trigger] g0.dangling@[q]).0 == f
                        && gset.contains(g0.dangling@[q].1@) && last_at(g1.files@, g0.dangling@[q].1@, n1) == Some(t);
                    if q == e {
                        assert(added == Some(t as u32));
                    }
                }
                if has_edge(graph.deps@, f, t, k) && !has_edge(before, f, t, k) {
                    assert(added == Some(t as u32));
                }
            }
        }
        e = e + 1;
    }
    proof {
        assert forall|f: int, t: int, k: EdgeKind| 0 <= f < graph.files.len() && 0 <= t < graph.files.len() implies
            (#[trigger] has_edge(graph.deps@, f, t, k) <==> (
                (f < n0 && t < n0 && has_edge(g0.deps@, f, t, k))
                || deleted_edge(graph.files@, gset, resolved@, g0.dangling@, f, t, k))) by {
            assert(has_edge(g2.deps@, f, t, k) <==> ((f < n0 && t < n0 && has_edge(g0.deps@, f, t, k))
                || (f != t && exists|q: int| 0 <= q < resolved.len() && (#[trigger] resolved@[q]).0 == f && resolved@[q].2 == k
                    && gset.contains(resolved@[q].1@) && last_at(g1.files@, resolved@[q].1@, n1) == Some(t))));
        }
        assert forall|x: int| n0 <= x < graph.files.len() implies gset.contains((#[trigger] graph.files@[x])@) by {
            assert(gone@.map_values(|y: String| y@).contains(graph.files@[x]@));
        }
    }
    ids
}

} // verus!
