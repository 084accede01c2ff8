//! Rule edges and the walk barrier from `[graph]`: dependencies the
//! imports don't show, such as a test that reaches its code over the
//! network, and files the walk reaches but never goes past, such as a
//! server module that imports every area and is imported by every area.
use vstd::prelude::*;

use crate::config;
use crate::lang::edges::{rule_compiles, rule_glob, rule_pair, rule_pair_list, rule_pairs};
use crate::lang::graph::{has_edge, EdgeKind, Graph};
use crate::pattern::glob_problem;
use crate::pattern::{any_matches, compile, first_problem, matches_any, texts, Pattern};

verus! {

/// More edges than this from one rule almost always means a glob that
/// matches more than was meant, such as `to = ["**"]`.
pub const LARGE_RULE: usize = 50000;

#[derive(Debug, Default, Clone, PartialEq, Eq)]
pub struct RuleStats {
    pub edges: usize,
    /// Rules, by `from`, that linked no file.
    pub unmatched: Vec<String>,
    /// Rules, by `from`, past `LARGE_RULE` edges, with their count.
    pub large: Vec<(String, usize)>,
}

/// The rule edges and the compiled barrier globs.
pub struct Rules {
    pub edges: Vec<config::EdgeRule>,
    pub barrier: Vec<Pattern>,
}

/// The rule's texts: `from` and each `to`.
pub open spec fn rule_text(r: config::EdgeRule) -> (Seq<char>, Seq<Seq<char>>) {
    (r.from@, r.to@.map_values(|s: String| s@))
}

fn copy_rule(r: &config::EdgeRule) -> (c: config::EdgeRule)
    ensures
        rule_text(c) == rule_text(*r),
        c.from@ == r.from@,
        c.to.len() == r.to.len(),
        forall|i: int| 0 <= i < r.to.len() ==> (#[trigger] c.to@[i])@ == r.to@[i]@,
{
    let mut to: Vec<String> = Vec::new();
    let mut i: usize = 0;
    while i < r.to.len()
        invariant
            i <= r.to.len(),
            to.len() == i,
            forall|j: int| 0 <= j < i ==> (#[trigger] to@[j])@ == r.to@[j]@,
        decreases r.to.len() - i,
    {
        to.push(r.to[i].clone());
        i = i + 1;
    }
    let c = config::EdgeRule { from: r.from.clone(), to };
    proof {
        assert(c.to@.map_values(|s: String| s@) =~= r.to@.map_values(|s: String| s@));
    }
    c
}


impl Rules {
    /// The rules of `[graph]`; an error for a barrier glob that doesn't
    /// compile.
    pub fn new(c: &config::Graph) -> (r: Result<Rules, String>)
        ensures
            match r {
                Ok(rules) => texts(rules.barrier@) == c.barrier.view_items().map_values(|g: String| g@)
                    && rules.edges.len() == c.edges.view_items().len()
                    && forall|j: int| 0 <= j < rules.edges.len() ==> rule_text(#[trigger] rules.edges@[j]) == rule_text(c.edges.view_items()[j]),
                Err(e) => first_problem(c.barrier.view_items().map_values(|g: String| g@)) == Some(e@),
            },
    {
        let barrier = match compile(c.barrier.items()) {
            Ok(b) => b,
            Err(e) => return Err(e),
        };
        let items = c.edges.items();
        let mut edges: Vec<config::EdgeRule> = Vec::new();
        let mut i: usize = 0;
        while i < items.len()
            invariant
                i <= items.len(),
                edges.len() == i,
                forall|j: int| 0 <= j < i ==> rule_text(#[trigger] edges@[j]) == rule_text(items@[j]),
            decreases items.len() - i,
        {
            edges.push(copy_rule(&items[i]));
            i = i + 1;
        }
        Ok(Rules { edges, barrier })
    }
}

impl Rules {
    /// Marks the barrier files among `ids`: each one a barrier glob
    /// matches joins the barrier, once.
    pub fn mark(&self, graph: &mut Graph, ids: &[u32])
        requires
            old(graph).wf(),
            forall|k: int| 0 <= k < ids.len() ==> (ids@[k] as int) < old(graph).files.len(),
        ensures
            final(graph).wf(),
            final(graph).files == old(graph).files,
            final(graph).deps == old(graph).deps,
            final(graph).rdeps == old(graph).rdeps,
            final(graph).packages == old(graph).packages,
            final(graph).package_of == old(graph).package_of,
            final(graph).package_importers == old(graph).package_importers,
            forall|x: u32| #[trigger] final(graph).barrier@.contains(x) <==> (old(graph).barrier@.contains(x)
                || exists|k: int| 0 <= k < ids.len() && ids@[k] == x && any_matches(texts(self.barrier@), old(graph).files@[x as int]@)),
    {
        let ghost g0 = *graph;
        let mut k: usize = 0;
        while k < ids.len()
            invariant
                k <= ids.len(),
                graph.wf(),
                graph.files == g0.files,
                graph.deps == g0.deps,
                graph.rdeps == g0.rdeps,
                graph.packages == g0.packages,
                graph.package_of == g0.package_of,
                graph.package_importers == g0.package_importers,
                graph.package_dirs == g0.package_dirs,
                forall|q: int| 0 <= q < ids.len() ==> (ids@[q] as int) < g0.files.len(),
                forall|x: u32| #[trigger] graph.barrier@.contains(x) <==> (g0.barrier@.contains(x)
                    || exists|q: int| 0 <= q < k && ids@[q] == x && any_matches(texts(self.barrier@), g0.files@[x as int]@)),
            decreases ids.len() - k,
        {
            let id = ids[k];
            let hit = matches_any(&self.barrier, graph.files[id as usize].as_str());
            let ghost b0 = graph.barrier@;
            if hit && !graph.is_barrier(id) {
                graph.barrier.push(id);
            }
            proof {
                assert forall|x: u32| #[trigger] graph.barrier@.contains(x) <==> (g0.barrier@.contains(x)
                    || exists|q: int| 0 <= q < k + 1 && ids@[q] == x && any_matches(texts(self.barrier@), g0.files@[x as int]@)) by {
                    if graph.barrier@.contains(x) && !b0.contains(x) {
                        let w = choose|w: int| 0 <= w < graph.barrier@.len() && graph.barrier@[w] == x;
                        assert(w == b0.len());
                        assert(ids@[k as int] == x);
                    }
                    if b0.contains(x) {
                        let w = choose|w: int| 0 <= w < b0.len() && b0[w] == x;
                        assert(graph.barrier@[w] == x);
                    }
                    if exists|q: int| 0 <= q < k + 1 && ids@[q] == x && any_matches(texts(self.barrier@), g0.files@[x as int]@) {
                        let q = choose|q: int| 0 <= q < k + 1 && ids@[q] == x && any_matches(texts(self.barrier@), g0.files@[x as int]@);
                        if q == k {
                            if !b0.contains(x) {
                                assert(graph.barrier@[b0.len() as int] == x);
                            } else {
                                let w = choose|w: int| 0 <= w < b0.len() && b0[w] == x;
                                assert(graph.barrier@[w] == x);
                            }
                        }
                    }
                }
            }
            k = k + 1;
        }
    }
}


/// The edges the first `m` rules add, in all, stopping at `usize::MAX`.
pub open spec fn edge_total(edges: Seq<config::EdgeRule>, files: Seq<String>, m: int) -> nat
    decreases m,
{
    if m <= 0 {
        0
    } else {
        let sum = edge_total(edges, files, m - 1) + rule_pair_list(edges[m - 1], files).len();
        if sum > usize::MAX { usize::MAX as nat } else { sum }
    }
}

/// The `from` of each of the first `m` rules that links no file.
pub open spec fn unmatched_of(edges: Seq<config::EdgeRule>, files: Seq<String>, m: int) -> Seq<Seq<char>>
    decreases m,
{
    if m <= 0 {
        Seq::empty()
    } else if rule_pair_list(edges[m - 1], files).len() == 0 {
        unmatched_of(edges, files, m - 1).push(edges[m - 1].from@)
    } else {
        unmatched_of(edges, files, m - 1)
    }
}

/// The `from` of each of the first `m` rules past `LARGE_RULE` edges, with
/// its count.
pub open spec fn large_of(edges: Seq<config::EdgeRule>, files: Seq<String>, m: int) -> Seq<(Seq<char>, nat)>
    decreases m,
{
    if m <= 0 {
        Seq::empty()
    } else if rule_pair_list(edges[m - 1], files).len() > LARGE_RULE {
        large_of(edges, files, m - 1).push((edges[m - 1].from@, rule_pair_list(edges[m - 1], files).len()))
    } else {
        large_of(edges, files, m - 1)
    }
}

/// A rule edge: one of the rules links `f` to `t`.
pub open spec fn rule_edge(edges: Seq<config::EdgeRule>, files: Seq<String>, f: int, t: int) -> bool {
    exists|i: int| 0 <= i < edges.len() && rule_pair(#[trigger] edges[i], files, f, t)
}

/// Some glob of some rule has the problem `e`.
pub open spec fn rules_problem(edges: Seq<config::EdgeRule>, files: Seq<String>, e: Seq<char>) -> bool {
    exists|i: int, g: Seq<char>| 0 <= i < edges.len() && #[trigger] rule_glob(edges[i], files, g) && glob_problem(g) == Some(e)
}

/// Every glob of every rule compiles.
pub open spec fn rules_compile(edges: Seq<config::EdgeRule>, files: Seq<String>) -> bool {
    forall|i: int| 0 <= i < edges.len() ==> rule_compiles(#[trigger] edges[i], files)
}

pub open spec fn stats_view(s: RuleStats) -> (nat, Seq<Seq<char>>, Seq<(Seq<char>, nat)>) {
    (s.edges as nat, s.unmatched@.map_values(|x: String| x@), s.large@.map_values(|x: (String, usize)| (x.0@, x.1 as nat)))
}

/// Only the edge lists change.
pub open spec fn same_but_edges(a: Graph, b: Graph) -> bool {
    &&& b.files == a.files
    &&& b.packages == a.packages
    &&& b.package_of == a.package_of
    &&& b.package_importers == a.package_importers
    &&& b.package_dirs == a.package_dirs
    &&& b.unresolved == a.unresolved
    &&& b.failed == a.failed
    &&& b.dangling == a.dangling
    &&& b.unknown == a.unknown
    &&& b.tsconfig_fallbacks == a.tsconfig_fallbacks
    &&& b.barrier == a.barrier
}

impl Rules {
    /// Adds every rule edge to a freshly built graph, and says how many
    /// each rule gave: the rules that linked nothing, and those past
    /// `LARGE_RULE`. An error, with the graph part way, when a glob of a
    /// rule does not compile.
    pub fn apply(&self, graph: &mut Graph) -> (r: Result<RuleStats, String>)
        requires
            old(graph).wf(),
        ensures
            final(graph).wf(),
            same_but_edges(*old(graph), *final(graph)),
            match r {
                Ok(stats) => {
                    &&& stats_view(stats) == (edge_total(self.edges@, old(graph).files@, self.edges.len() as int),
                        unmatched_of(self.edges@, old(graph).files@, self.edges.len() as int),
                        large_of(self.edges@, old(graph).files@, self.edges.len() as int))
                    &&& forall|f: int, t: int, k: EdgeKind| 0 <= f < old(graph).files.len() && 0 <= t < old(graph).files.len() ==>
                        (#[trigger] has_edge(final(graph).deps@, f, t, k) <==> (has_edge(old(graph).deps@, f, t, k)
                            || (k == EdgeKind::Rule && rule_edge(self.edges@, old(graph).files@, f, t))))
                },
                Err(e) => rules_problem(self.edges@, old(graph).files@, e@),
            },
            rules_compile(self.edges@, old(graph).files@) ==> r is Ok,
    {
        let ghost g0 = *graph;
        let ghost n = g0.files.len() as int;
        let ghost files = g0.files@;
        let mut total: usize = 0;
        let mut unmatched: Vec<String> = Vec::new();
        let mut large: Vec<(String, usize)> = Vec::new();
        let mut i: usize = 0;
        while i < self.edges.len()
            invariant
                i <= self.edges.len(),
                graph.wf(),
                same_but_edges(g0, *graph),
                g0 == *old(graph),
                files == g0.files@,
                n == g0.files.len(),
                total as nat == edge_total(self.edges@, files, i as int),
                unmatched@.map_values(|x: String| x@) == unmatched_of(self.edges@, files, i as int),
                large@.map_values(|x: (String, usize)| (x.0@, x.1 as nat)) == large_of(self.edges@, files, i as int),
                rules_compile(self.edges@, files) ==> forall|j: int| 0 <= j < self.edges.len() ==> rule_compiles(#[trigger] self.edges@[j], files),
                forall|f: int, t: int, k: EdgeKind| 0 <= f < n && 0 <= t < n ==> (#[trigger] has_edge(graph.deps@, f, t, k)
                    <==> (has_edge(g0.deps@, f, t, k) || (k == EdgeKind::Rule
                        && exists|j: int| 0 <= j < i && rule_pair(#[trigger] self.edges@[j], files, f, t)))),
            decreases self.edges.len() - i,
        {
            let rule = &self.edges[i];
            let ps = match rule_pairs(&graph.files, rule) {
                Ok(ps) => ps,
                Err(e) => {
                    proof {
                        let g = choose|g: Seq<char>| #[trigger] rule_glob(*rule, files, g) && glob_problem(g) == Some(e@);
                        assert(rule_glob(self.edges@[i as int], files, g));
                    }
                    return Err(e);
                },
            };
            let ghost gi = *graph;
            let mut q: usize = 0;
            while q < ps.len()
                invariant
                    q <= ps.len(),
                    graph.wf(),
                    same_but_edges(g0, *graph),
                    files == g0.files@,
                    n == g0.files.len() == graph.files.len(),
                    forall|k: int| 0 <= k < ps.len() ==> rule_pair(*rule, files, (#[trigger] ps@[k]).0 as int, ps@[k].1 as int),
                    forall|f: int, t: int, k: EdgeKind| 0 <= f < n && 0 <= t < n ==> (#[trigger] has_edge(graph.deps@, f, t, k)
                        <==> (has_edge(gi.deps@, f, t, k) || (k == EdgeKind::Rule
                            && exists|w: int| 0 <= w < q && (#[trigger] ps@[w]) == (f as u32, t as u32)))),
                decreases ps.len() - q,
            {
                let (f, t) = ps[q];
                proof {
                    assert(rule_pair(*rule, files, ps@[q as int].0 as int, ps@[q as int].1 as int));
                }
                graph.add_edge_unchecked(f, t, EdgeKind::Rule);
                proof {
                    assert forall|x: int, y: int, k: EdgeKind| 0 <= x < n && 0 <= y < n implies (#[trigger] has_edge(graph.deps@, x, y, k)
                        <==> (has_edge(gi.deps@, x, y, k) || (k == EdgeKind::Rule
                            && exists|w: int| 0 <= w < q + 1 && (#[trigger] ps@[w]) == (x as u32, y as u32)))) by {
                        if exists|w: int| 0 <= w < q + 1 && (#[trigger] ps@[w]) == (x as u32, y as u32) {
                            let w = choose|w: int| 0 <= w < q + 1 && (#[trigger] ps@[w]) == (x as u32, y as u32);
                            if w == q {
                                assert(x == f as int && y == t as int);
                            }
                        }
                        if x == f as int && y == t as int && k == EdgeKind::Rule {
                            assert(ps@[q as int] == (x as u32, y as u32));
                        }
                    }
                }
                q = q + 1;
            }
            let count = ps.len();
            proof {
                assert(rule_pair_list(self.edges@[i as int], files) == ps@);
            }
            if count == 0 {
                unmatched.push(rule.from.clone());
            }
            if count > LARGE_RULE {
                large.push((rule.from.clone(), count));
            }
            total = total.saturating_add(count);
            proof {
                assert(unmatched@.map_values(|x: String| x@) =~= unmatched_of(self.edges@, files, i + 1));
                assert(large@.map_values(|x: (String, usize)| (x.0@, x.1 as nat)) =~= large_of(self.edges@, files, i + 1));
                assert forall|f: int, t: int, k: EdgeKind| 0 <= f < n && 0 <= t < n implies (#[trigger] has_edge(graph.deps@, f, t, k)
                    <==> (has_edge(g0.deps@, f, t, k) || (k == EdgeKind::Rule
                        && exists|j: int| 0 <= j < i + 1 && rule_pair(#[trigger] self.edges@[j], files, f, t)))) by {
                    if exists|w: int| 0 <= w < q && (#[trigger] ps@[w]) == (f as u32, t as u32) {
                        let w = choose|w: int| 0 <= w < q && (#[trigger] ps@[w]) == (f as u32, t as u32);
                        assert(rule_pair(self.edges@[i as int], files, f, t));
                    }
                    if rule_pair(self.edges@[i as int], files, f, t) {
                        assert(ps@.contains((f as u32, t as u32)));
                        let w = choose|w: int| 0 <= w < ps.len() && ps@[w] == (f as u32, t as u32);
                    }
                    if exists|j: int| 0 <= j < i + 1 && rule_pair(#[trigger] self.edges@[j], files, f, t) {
                        let j = choose|j: int| 0 <= j < i + 1 && rule_pair(#[trigger] self.edges@[j], files, f, t);
                        if j == i {
                            assert(ps@.contains((f as u32, t as u32)));
                        }
                    }
                }
            }
            i = i + 1;
        }
        Ok(RuleStats { edges: total, unmatched, large })
    }

    /// Adds the rule edges that touch `ids`, files added after the build.
    pub fn apply_to(&self, graph: &mut Graph, ids: &[u32]) -> (r: Result<(), String>)
        requires
            old(graph).wf(),
        ensures
            final(graph).wf(),
            same_but_edges(*old(graph), *final(graph)),
            match r {
                Ok(_) => forall|f: int, t: int, k: EdgeKind| 0 <= f < old(graph).files.len() && 0 <= t < old(graph).files.len() ==>
                    (#[trigger] has_edge(final(graph).deps@, f, t, k) <==> (has_edge(old(graph).deps@, f, t, k)
                        || (k == EdgeKind::Rule && rule_edge(self.edges@, old(graph).files@, f, t)
                            && (ids@.contains(f as u32) || ids@.contains(t as u32))))),
                Err(e) => rules_problem(self.edges@, old(graph).files@, e@),
            },
            rules_compile(self.edges@, old(graph).files@) ==> r is Ok,
    {
        let ghost g0 = *graph;
        let ghost n = g0.files.len() as int;
        let ghost files = g0.files@;
        let mut i: usize = 0;
        while i < self.edges.len()
            invariant
                i <= self.edges.len(),
                graph.wf(),
                same_but_edges(g0, *graph),
                g0 == *old(graph),
                files == g0.files@,
                n == g0.files.len(),
                rules_compile(self.edges@, files) ==> forall|j: int| 0 <= j < self.edges.len() ==> rule_compiles(#[trigger] self.edges@[j], files),
                forall|f: int, t: int, k: EdgeKind| 0 <= f < n && 0 <= t < n ==> (#[trigger] has_edge(graph.deps@, f, t, k)
                    <==> (has_edge(g0.deps@, f, t, k) || (k == EdgeKind::Rule && (ids@.contains(f as u32) || ids@.contains(t as u32))
                        && exists|j: int| 0 <= j < i && rule_pair(#[trigger] self.edges@[j], files, f, t)))),
            decreases self.edges.len() - i,
        {
            let rule = &self.edges[i];
            let ps = match rule_pairs(&graph.files, rule) {
                Ok(ps) => ps,
                Err(e) => {
                    proof {
                        let g = choose|g: Seq<char>| #[trigger] rule_glob(*rule, files, g) && glob_problem(g) == Some(e@);
                        assert(rule_glob(self.edges@[i as int], files, g));
                    }
                    return Err(e);
                },
            };
            let ghost gi = *graph;
            let mut q: usize = 0;
            while q < ps.len()
                invariant
                    q <= ps.len(),
                    graph.wf(),
                    same_but_edges(g0, *graph),
                    files == g0.files@,
                    n == g0.files.len() == graph.files.len(),
                    forall|k: int| 0 <= k < ps.len() ==> rule_pair(*rule, files, (#[trigger] ps@[k]).0 as int, ps@[k].1 as int),
                    forall|f: int, t: int, k: EdgeKind| 0 <= f < n && 0 <= t < n ==> (#[trigger] has_edge(graph.deps@, f, t, k)
                        <==> (has_edge(gi.deps@, f, t, k) || (k == EdgeKind::Rule && (ids@.contains(f as u32) || ids@.contains(t as u32))
                            && exists|w: int| 0 <= w < q && (#[trigger] ps@[w]) == (f as u32, t as u32)))),
                decreases ps.len() - q,
            {
                let (f, t) = ps[q];
                proof {
                    assert(rule_pair(*rule, files, ps@[q as int].0 as int, ps@[q as int].1 as int));
                }
                let touches = contains_u32(ids, f) || contains_u32(ids, t);
                if touches {
                    graph.add_edge(f, t, EdgeKind::Rule);
                }
                proof {
                    assert forall|x: int, y: int, k: EdgeKind| 0 <= x < n && 0 <= y < n implies (#[trigger] has_edge(graph.deps@, x, y, k)
                        <==> (has_edge(gi.deps@, x, y, k) || (k == EdgeKind::Rule && (ids@.contains(x as u32) || ids@.contains(y as u32))
                            && exists|w: int| 0 <= w < q + 1 && (#[trigger] ps@[w]) == (x as u32, y as u32)))) by {
                        if exists|w: int| 0 <= w < q + 1 && (#[trigger] ps@[w]) == (x as u32, y as u32) {
                            let w = choose|w: int| 0 <= w < q + 1 && (#[trigger] ps@[w]) == (x as u32, y as u32);
                            if w == q {
                                assert(x == f as int && y == t as int);
                            }
                        }
                        if x == f as int && y == t as int && k == EdgeKind::Rule && touches {
                            assert(ps@[q as int] == (x as u32, y as u32));
                        }
                    }
                }
                q = q + 1;
            }
            proof {
                assert forall|f: int, t: int, k: EdgeKind| 0 <= f < n && 0 <= t < n implies (#[trigger] has_edge(graph.deps@, f, t, k)
                    <==> (has_edge(g0.deps@, f, t, k) || (k == EdgeKind::Rule && (ids@.contains(f as u32) || ids@.contains(t as u32))
                        && exists|j: int| 0 <= j < i + 1 && rule_pair(#[trigger] self.edges@[j], files, f, t)))) by {
                    if exists|w: int| 0 <= w < q && (#[trigger] ps@[w]) == (f as u32, t as u32) {
                        let w = choose|w: int| 0 <= w < q && (#[trigger] ps@[w]) == (f as u32, t as u32);
                        assert(rule_pair(self.edges@[i as int], files, f, t));
                    }
                    if rule_pair(self.edges@[i as int], files, f, t) {
                        assert(ps@.contains((f as u32, t as u32)));
                        let w = choose|w: int| 0 <= w < ps.len() && ps@[w] == (f as u32, t as u32);
                    }
                    if exists|j: int| 0 <= j < i + 1 && rule_pair(#[trigger] self.edges@[j], files, f, t) {
                        let j = choose|j: int| 0 <= j < i + 1 && rule_pair(#[trigger] self.edges@[j], files, f, t);
                        if j == i {
                            assert(ps@.contains((f as u32, t as u32)));
                        }
                    }
                }
            }
            i = i + 1;
        }
        Ok(())
    }
}

fn contains_u32(v: &[u32], x: u32) -> (r: bool)
    ensures
        r == v@.contains(x),
{
    let mut i: usize = 0;
    while i < v.len()
        invariant
            i <= v.len(),
            forall|j: int| 0 <= j < i ==> v@[j] != x,
        decreases v.len() - i,
    {
        if v[i] == x {
            return true;
        }
        i = i + 1;
    }
    false
}

} // verus!
