//! The file graph. An edge from A to B means A depends on B, so walking
//! edges backwards from a changed file finds everything it can affect. A
//! package edge stands for an edge to every file in that package.
use vstd::prelude::*;

use crate::text::{chars_of, starts_with_at};

verus! {

#[derive(Debug, Clone, Copy, PartialEq, Eq, Structural, Hash, PartialOrd, Ord)]
pub enum EdgeKind {
    Import,
    TypeImport,
    Dynamic,
    Require,
    Mock,
    /// A string literal naming a file in the repository.
    PathLiteral,
    /// `__snapshots__/<test>.snap` to its test.
    Snapshot,
    /// A `[[graph.edges]]` rule. Last, so an import between the same two
    /// files names itself first.
    Rule,
}

/// The order kinds are declared in, which is the order they sort in.
pub open spec fn rank(k: EdgeKind) -> nat {
    match k {
        EdgeKind::Import => 0,
        EdgeKind::TypeImport => 1,
        EdgeKind::Dynamic => 2,
        EdgeKind::Require => 3,
        EdgeKind::Mock => 4,
        EdgeKind::PathLiteral => 5,
        EdgeKind::Snapshot => 6,
        EdgeKind::Rule => 7,
    }
}

/// The kind of a rank.
pub open spec fn kind_of(r: nat) -> EdgeKind {
    if r == 0 { EdgeKind::Import }
    else if r == 1 { EdgeKind::TypeImport }
    else if r == 2 { EdgeKind::Dynamic }
    else if r == 3 { EdgeKind::Require }
    else if r == 4 { EdgeKind::Mock }
    else if r == 5 { EdgeKind::PathLiteral }
    else if r == 6 { EdgeKind::Snapshot }
    else { EdgeKind::Rule }
}

pub fn edge_rank(k: EdgeKind) -> (r: u8)
    ensures
        r as nat == rank(k),
        kind_of(r as nat) == k,
{
    match k {
        EdgeKind::Import => 0,
        EdgeKind::TypeImport => 1,
        EdgeKind::Dynamic => 2,
        EdgeKind::Require => 3,
        EdgeKind::Mock => 4,
        EdgeKind::PathLiteral => 5,
        EdgeKind::Snapshot => 6,
        EdgeKind::Rule => 7,
    }
}

fn rank_kind(r: u8) -> (k: EdgeKind)
    requires
        r < 8,
    ensures
        k == kind_of(r as nat),
        rank(k) == r,
{
    if r == 0 { EdgeKind::Import }
    else if r == 1 { EdgeKind::TypeImport }
    else if r == 2 { EdgeKind::Dynamic }
    else if r == 3 { EdgeKind::Require }
    else if r == 4 { EdgeKind::Mock }
    else if r == 5 { EdgeKind::PathLiteral }
    else if r == 6 { EdgeKind::Snapshot }
    else { EdgeKind::Rule }
}

/// One step of a path: the file, and the edge kind that led to it.
pub type Step = (String, Option<EdgeKind>);

#[derive(Debug, Default)]
pub struct Graph {
    pub files: Vec<String>,
    pub deps: Vec<Vec<(u32, EdgeKind)>>,
    pub rdeps: Vec<Vec<(u32, EdgeKind)>>,
    /// Package names, and for each file the package it sits in.
    pub packages: Vec<String>,
    pub package_of: Vec<Option<u32>>,
    /// Files that depend on a whole package, by package.
    pub package_importers: Vec<Vec<u32>>,
    /// Unresolved specifiers, by file.
    pub unresolved: Vec<(u32, String)>,
    /// Every specifier that didn't resolve, uninstalled packages included.
    pub failed: Vec<(u32, String, EdgeKind)>,
    /// Path-like literals naming no file in the tree, as repo paths.
    pub dangling: Vec<(u32, String)>,
    /// Package folders with a trailing `/`, parallel to `packages`.
    pub package_dirs: Vec<String>,
    /// Files with a dynamic import whose target isn't a plain string.
    pub unknown: Vec<u32>,
    /// Files whose tsconfig couldn't be applied.
    pub tsconfig_fallbacks: Vec<u32>,
    /// Files the walk reaches but doesn't go past (`graph.barrier`).
    pub barrier: Vec<u32>,
}

#[derive(Debug, Clone, PartialEq, Eq, Default)]
pub struct Stats {
    pub files: usize,
    pub edges: usize,
    pub edges_by_kind: Vec<(EdgeKind, usize)>,
    pub package_edges: usize,
    pub packages: usize,
    pub unresolved: usize,
    pub unknown: usize,
    pub tsconfig_fallbacks: usize,
}

/// The last package folder, of the longest, that `file` sits in, among the
/// first `m`.
pub open spec fn deepest(dirs: Seq<String>, file: Seq<char>, m: int) -> Option<int>
    decreases m,
{
    if m <= 0 {
        None
    } else {
        let before = deepest(dirs, file, m - 1);
        if dirs[m - 1]@.is_prefix_of(file) {
            match before {
                Some(i) => if dirs[m - 1]@.len() >= dirs[i]@.len() {
                    Some(m - 1)
                } else {
                    Some(i)
                },
                None => Some(m - 1),
            }
        } else {
            before
        }
    }
}

/// The last position at or before `m` holding `file`.
pub open spec fn last_at(files: Seq<String>, file: Seq<char>, m: int) -> Option<int>
    decreases m,
{
    if m <= 0 {
        None
    } else if files[m - 1]@ == file {
        Some(m - 1)
    } else {
        last_at(files, file, m - 1)
    }
}

pub open spec fn as_opt_u32(o: Option<int>) -> Option<u32> {
    match o {
        Some(i) => Some(i as u32),
        None => None,
    }
}

/// `after` is `before` with `x` added to the end of the list at `at`, and
/// every other list as it was.
pub open spec fn pushed_at<T>(before: Seq<Vec<T>>, after: Seq<Vec<T>>, at: int, x: T) -> bool {
    &&& after.len() == before.len()
    &&& after[at]@ == before[at]@.push(x)
    &&& forall|i: int| 0 <= i < before.len() && i != at ==> #[trigger] after[i] == before[i]
}

/// `from` depends on `to` directly, by an edge of kind `k`.
pub open spec fn has_edge(deps: Seq<Vec<(u32, EdgeKind)>>, from: int, to: int, k: EdgeKind) -> bool {
    exists|j: int| 0 <= j < deps[from].len() && #[trigger] deps[from]@[j] == (to as u32, k)
}

/// The kind named first, in declaration order, among `from`'s edges to `to`.
pub open spec fn direct_kind(deps: Seq<Vec<(u32, EdgeKind)>>, from: int, to: int) -> Option<EdgeKind> {
    if has_edge(deps, from, to, EdgeKind::Import) { Some(EdgeKind::Import) }
    else if has_edge(deps, from, to, EdgeKind::TypeImport) { Some(EdgeKind::TypeImport) }
    else if has_edge(deps, from, to, EdgeKind::Dynamic) { Some(EdgeKind::Dynamic) }
    else if has_edge(deps, from, to, EdgeKind::Require) { Some(EdgeKind::Require) }
    else if has_edge(deps, from, to, EdgeKind::Mock) { Some(EdgeKind::Mock) }
    else if has_edge(deps, from, to, EdgeKind::PathLiteral) { Some(EdgeKind::PathLiteral) }
    else if has_edge(deps, from, to, EdgeKind::Snapshot) { Some(EdgeKind::Snapshot) }
    else if has_edge(deps, from, to, EdgeKind::Rule) { Some(EdgeKind::Rule) }
    else { None }
}

impl Graph {
    /// The graph's parts agree: one entry per file in each per-file list,
    /// edges within the files, and each edge recorded at both ends.
    pub open spec fn wf(&self) -> bool {
        let n = self.files.len();
        &&& n < u32::MAX
        &&& self.packages.len() < u32::MAX
        &&& self.deps.len() == n
        &&& self.rdeps.len() == n
        &&& self.package_of.len() == n
        &&& self.package_importers.len() == self.packages.len()
        &&& self.package_dirs.len() == self.packages.len()
        &&& forall|f: int, j: int| 0 <= f < n && 0 <= j < self.deps[f].len() ==> (#[trigger] self.deps[f]@[j]).0 < n
        &&& forall|t: int, j: int| 0 <= t < n && 0 <= j < self.rdeps[t].len() ==> (#[trigger] self.rdeps[t]@[j]).0 < n
        &&& forall|f: int| 0 <= f < n ==> (#[trigger] self.package_of[f] matches Some(p) ==> p < self.packages.len())
        &&& forall|p: int, j: int| 0 <= p < self.packages.len() && 0 <= j < self.package_importers[p].len()
            ==> (#[trigger] self.package_importers[p]@[j]) < n
        &&& forall|f: int, t: int, k: EdgeKind| 0 <= f < n && 0 <= t < n ==>
            (#[trigger] has_edge(self.deps@, f, t, k) <==> has_edge(self.rdeps@, t, f, k))
    }

    /// `from` depends on `to`: directly, or through a package edge to the
    /// package `to` sits in.
    pub open spec fn imports(&self, from: int, to: int) -> bool {
        ||| exists|k: EdgeKind| #[trigger] has_edge(self.deps@, from, to, k)
        ||| (self.package_of[to] matches Some(p) && self.package_importers[p as int]@.contains(from as u32))
    }

    pub fn with_files(files: Vec<String>, packages: Vec<(String, String)>) -> (g: Graph)
        requires
            files.len() < u32::MAX,
            packages.len() < u32::MAX,
        ensures
            g.wf(),
            g.files == files,
            g.packages@ == packages@.map_values(|p: (String, String)| p.0),
            forall|i: int| 0 <= i < packages.len() ==> (#[trigger] g.package_dirs@[i])@ == packages@[i].1@ + "/"@,
            forall|f: int| 0 <= f < files.len() ==> #[trigger] g.package_of@[f] == as_opt_u32(deepest(g.package_dirs@, files@[f]@, packages.len() as int)),
            forall|f: int| 0 <= f < files.len() ==> (#[trigger] g.deps@[f])@.len() == 0 && g.rdeps@[f]@.len() == 0,
            forall|p: int| 0 <= p < packages.len() ==> (#[trigger] g.package_importers@[p])@.len() == 0,
            g.unresolved@.len() == 0 && g.failed@.len() == 0 && g.dangling@.len() == 0,
            g.unknown@.len() == 0 && g.tsconfig_fallbacks@.len() == 0 && g.barrier@.len() == 0,
    {
        let mut names: Vec<String> = Vec::new();
        let mut dirs: Vec<String> = Vec::new();
        let mut importers: Vec<Vec<u32>> = Vec::new();
        let mut i: usize = 0;
        while i < packages.len()
            invariant
                i <= packages.len(),
                names@ == packages@.take(i as int).map_values(|p: (String, String)| p.0),
                dirs.len() == i,
                importers.len() == i,
                forall|j: int| 0 <= j < i ==> (#[trigger] dirs@[j])@ == packages@[j].1@ + "/"@,
                forall|p: int| 0 <= p < i ==> (#[trigger] importers@[p])@.len() == 0,
            decreases packages.len() - i,
        {
            names.push(packages[i].0.clone());
            let mut d = packages[i].1.clone();
            d.append("/");
            dirs.push(d);
            importers.push(Vec::new());
            proof {
                assert(names@ =~= packages@.take(i as int + 1).map_values(|p: (String, String)| p.0));
            }
            i = i + 1;
        }
        proof {
            assert(packages@.take(i as int) =~= packages@);
        }
        let mut deps: Vec<Vec<(u32, EdgeKind)>> = Vec::new();
        let mut rdeps: Vec<Vec<(u32, EdgeKind)>> = Vec::new();
        let mut package_of: Vec<Option<u32>> = Vec::new();
        let mut f: usize = 0;
        while f < files.len()
            invariant
                f <= files.len() < u32::MAX,
                packages.len() < u32::MAX,
                dirs.len() == packages.len(),
                deps.len() == f,
                rdeps.len() == f,
                package_of.len() == f,
                forall|x: int| 0 <= x < f ==> (#[trigger] deps@[x])@.len() == 0,
                forall|x: int| 0 <= x < f ==> (#[trigger] rdeps@[x])@.len() == 0,
                forall|x: int| 0 <= x < f ==> #[trigger] package_of@[x] == as_opt_u32(deepest(dirs@, files@[x]@, packages.len() as int)),
            decreases files.len() - f,
        {
            let found = deepest_dir(&dirs, files[f].as_str());
            package_of.push(found);
            deps.push(Vec::new());
            rdeps.push(Vec::new());
            f = f + 1;
        }
        let g = Graph {
            files,
            deps,
            rdeps,
            packages: names,
            package_of,
            package_importers: importers,
            unresolved: Vec::new(),
            failed: Vec::new(),
            dangling: Vec::new(),
            package_dirs: dirs,
            unknown: Vec::new(),
            tsconfig_fallbacks: Vec::new(),
            barrier: Vec::new(),
        };
        proof {
            assert forall|x: int, t: int, k: EdgeKind| 0 <= x < g.files.len() && 0 <= t < g.files.len() implies
                (#[trigger] has_edge(g.deps@, x, t, k) <==> has_edge(g.rdeps@, t, x, k)) by {
                assert(g.deps@[x]@.len() == 0);
                assert(g.rdeps@[t]@.len() == 0);
            }
            assert forall|x: int| 0 <= x < g.files.len() implies (#[trigger] g.package_of[x] matches Some(p) ==> p < g.packages.len()) by {
                lemma_deepest(g.package_dirs@, g.files@[x]@, g.packages.len() as int);
            }
        }
        g
    }

    /// The id of `file`, if it is in the graph.
    pub fn id(&self, file: &str) -> (r: Option<u32>)
        requires
            self.files.len() < u32::MAX,
        ensures
            r == as_opt_u32(last_at(self.files@, file@, self.files.len() as int)),
    {
        let want = file.to_owned();
        let mut i: usize = self.files.len();
        proof {
            lemma_last_at_bound(self.files@, file@, self.files.len() as int);
        }
        while i > 0
            invariant
                i <= self.files.len() < u32::MAX,
                want@ == file@,
                last_at(self.files@, file@, self.files.len() as int) == last_at(self.files@, file@, i as int),
            decreases i,
        {
            if self.files[i - 1] == want {
                return Some((i - 1) as u32);
            }
            i = i - 1;
        }
        None
    }

    /// Adds a file that isn't in the tree, such as one a change deleted, so
    /// edges can point at it; returns its id, or the existing one.
    pub fn add_phantom(&mut self, file: &str) -> (id: u32)
        requires
            old(self).wf(),
            old(self).files.len() + 1 < u32::MAX,
        ensures
            final(self).wf(),
            (id as int) < final(self).files.len(),
            final(self).files@[id as int]@ == file@,
            match last_at(old(self).files@, file@, old(self).files.len() as int) {
                Some(i) => id == i && *final(self) == *old(self),
                None => {
                    let n = old(self).files.len() as int;
                    &&& id == n
                    &&& final(self).files@.len() == n + 1
                    &&& final(self).files@.take(n) == old(self).files@
                    &&& final(self).deps@ == old(self).deps@.push(final(self).deps@[n])
                    &&& final(self).deps@[n]@.len() == 0
                    &&& final(self).rdeps@ == old(self).rdeps@.push(final(self).rdeps@[n])
                    &&& final(self).rdeps@[n]@.len() == 0
                    &&& final(self).package_of@ == old(self).package_of@.push(
                        as_opt_u32(deepest(old(self).package_dirs@, file@, old(self).package_dirs.len() as int)))
                    &&& final(self).unresolved == old(self).unresolved
                    &&& final(self).failed == old(self).failed
                    &&& final(self).dangling == old(self).dangling
                    &&& final(self).unknown == old(self).unknown
                    &&& final(self).tsconfig_fallbacks == old(self).tsconfig_fallbacks
                    &&& final(self).barrier == old(self).barrier
                },
            },
            final(self).deps@.take(old(self).files.len() as int) == old(self).deps@,
            final(self).packages == old(self).packages,
            final(self).package_importers == old(self).package_importers,
            final(self).package_dirs == old(self).package_dirs,
            final(self).package_of@.take(old(self).files.len() as int) == old(self).package_of@,
    {
        proof {
            lemma_last_at(self.files@, file@, self.files.len() as int);
        }
        if let Some(id) = self.id(file) {
            return id;
        }
        let id = self.files.len() as u32;
        let found = deepest_dir(&self.package_dirs, file);
        proof {
            lemma_deepest(self.package_dirs@, file@, self.package_dirs.len() as int);
        }
        self.files.push(file.to_owned());
        self.deps.push(Vec::new());
        self.rdeps.push(Vec::new());
        self.package_of.push(found);
        proof {
            let n = self.files.len();
            assert(self.files@.take(id as int) =~= old(self).files@);
            assert(self.deps@.take(id as int) =~= old(self).deps@);
            assert(self.package_of@.take(id as int) =~= old(self).package_of@);
            assert forall|f: int, t: int, k: EdgeKind| 0 <= f < n && 0 <= t < n implies
                (#[trigger] has_edge(self.deps@, f, t, k) <==> has_edge(self.rdeps@, t, f, k)) by {
                if f < n - 1 && t < n - 1 {
                    assert(self.deps@[f] == old(self).deps@[f]);
                    assert(self.rdeps@[t] == old(self).rdeps@[t]);
                    assert(has_edge(old(self).deps@, f, t, k) <==> has_edge(old(self).rdeps@, t, f, k));
                    if has_edge(self.deps@, f, t, k) {
                        let j = choose|j: int| 0 <= j < self.deps@[f].len() && #[trigger] self.deps@[f]@[j] == (t as u32, k);
                        assert(old(self).deps@[f]@[j] == (t as u32, k));
                    }
                    if has_edge(self.rdeps@, t, f, k) {
                        let j = choose|j: int| 0 <= j < self.rdeps@[t].len() && #[trigger] self.rdeps@[t]@[j] == (f as u32, k);
                        assert(old(self).rdeps@[t]@[j] == (f as u32, k));
                    }
                    if has_edge(old(self).deps@, f, t, k) {
                        let j = choose|j: int| 0 <= j < old(self).deps@[f].len() && #[trigger] old(self).deps@[f]@[j] == (t as u32, k);
                        assert(self.deps@[f]@[j] == (t as u32, k));
                    }
                    if has_edge(old(self).rdeps@, t, f, k) {
                        let j = choose|j: int| 0 <= j < old(self).rdeps@[t].len() && #[trigger] old(self).rdeps@[t]@[j] == (f as u32, k);
                        assert(self.rdeps@[t]@[j] == (f as u32, k));
                    }
                } else if f == n - 1 {
                    assert(self.deps@[f]@.len() == 0);
                    if has_edge(self.rdeps@, t, f, k) {
                        let j = choose|j: int| 0 <= j < self.rdeps@[t].len() && #[trigger] self.rdeps@[t]@[j] == (f as u32, k);
                        if t < n - 1 {
                            assert(old(self).rdeps@[t]@[j].0 < n - 1);
                        }
                    }
                } else {
                    assert(self.rdeps@[t]@.len() == 0);
                    if has_edge(self.deps@, f, t, k) {
                        let j = choose|j: int| 0 <= j < self.deps@[f].len() && #[trigger] self.deps@[f]@[j] == (t as u32, k);
                        assert(old(self).deps@[f]@[j].0 < n - 1);
                    }
                }
            }
            assert forall|f: int, j: int| 0 <= f < n && 0 <= j < self.deps[f].len() implies (#[trigger] self.deps[f]@[j]).0 < n by {
                if f < n - 1 {
                    assert(self.deps@[f] == old(self).deps@[f]);
                }
            }
            assert forall|t: int, j: int| 0 <= t < n && 0 <= j < self.rdeps[t].len() implies (#[trigger] self.rdeps[t]@[j]).0 < n by {
                if t < n - 1 {
                    assert(self.rdeps@[t] == old(self).rdeps@[t]);
                }
            }
            assert forall|f: int| 0 <= f < n implies (#[trigger] self.package_of[f] matches Some(p) ==> p < self.packages.len()) by {
                if f < n - 1 {
                    assert(self.package_of@[f] == old(self).package_of@[f]);
                }
            }
        }
        id
    }

    /// Adds an edge from `from` to `to`, unless it is a loop or already there.
    pub fn add_edge(&mut self, from: u32, to: u32, kind: EdgeKind)
        requires
            old(self).wf(),
            (from as int) < old(self).files.len(),
            (to as int) < old(self).files.len(),
        ensures
            final(self).unresolved == old(self).unresolved,
            final(self).failed == old(self).failed,
            final(self).dangling == old(self).dangling,
            final(self).unknown == old(self).unknown,
            final(self).tsconfig_fallbacks == old(self).tsconfig_fallbacks,
            final(self).barrier == old(self).barrier,
            final(self).wf(),
            final(self).files == old(self).files,
            final(self).packages == old(self).packages,
            final(self).package_of == old(self).package_of,
            final(self).package_importers == old(self).package_importers,
            final(self).package_dirs == old(self).package_dirs,
            forall|f: int, t: int, k: EdgeKind| 0 <= f < final(self).files.len() && 0 <= t < final(self).files.len() ==>
                (#[trigger] has_edge(final(self).deps@, f, t, k) <==> (has_edge(old(self).deps@, f, t, k)
                    || (f == from && t == to && k == kind && from != to))),
            if from != to && !has_edge(old(self).deps@, from as int, to as int, kind) {
                &&& pushed_at(old(self).deps@, final(self).deps@, from as int, (to, kind))
                &&& pushed_at(old(self).rdeps@, final(self).rdeps@, to as int, (from, kind))
            } else {
                &&& final(self).deps == old(self).deps
                &&& final(self).rdeps == old(self).rdeps
            },
    {
        if from != to && !contains_edge(&self.deps[from as usize], to, kind) {
            self.add_edge_unchecked(from, to, kind);
        } else {
            proof {
                assert forall|f: int, t: int, k: EdgeKind| 0 <= f < self.files.len() && 0 <= t < self.files.len() implies
                    (#[trigger] has_edge(self.deps@, f, t, k) <==> (has_edge(old(self).deps@, f, t, k)
                        || (f == from && t == to && k == kind && from != to))) by {
                    if f == from && t == to && k == kind && from != to {
                        let j = choose|j: int| 0 <= j < self.deps@[f]@.len() && self.deps@[f]@[j] == (to, kind);
                        assert(self.deps@[f]@[j] == (t as u32, k));
                    }
                }
            }
        }
    }

    /// `add_edge` without the duplicate check, for callers that dedupe a
    /// batch themselves: rule edges run to thousands per file.
    pub fn add_edge_unchecked(&mut self, from: u32, to: u32, kind: EdgeKind)
        requires
            old(self).wf(),
            (from as int) < old(self).files.len(),
            (to as int) < old(self).files.len(),
        ensures
            final(self).unresolved == old(self).unresolved,
            final(self).failed == old(self).failed,
            final(self).dangling == old(self).dangling,
            final(self).unknown == old(self).unknown,
            final(self).tsconfig_fallbacks == old(self).tsconfig_fallbacks,
            final(self).barrier == old(self).barrier,
            final(self).wf(),
            final(self).files == old(self).files,
            final(self).packages == old(self).packages,
            final(self).package_of == old(self).package_of,
            final(self).package_importers == old(self).package_importers,
            final(self).package_dirs == old(self).package_dirs,
            forall|f: int, t: int, k: EdgeKind| 0 <= f < final(self).files.len() && 0 <= t < final(self).files.len() ==>
                (#[trigger] has_edge(final(self).deps@, f, t, k) <==> (has_edge(old(self).deps@, f, t, k)
                    || (f == from && t == to && k == kind))),
            pushed_at(old(self).deps@, final(self).deps@, from as int, (to, kind)),
            pushed_at(old(self).rdeps@, final(self).rdeps@, to as int, (from, kind)),
    {
        let ghost n = self.files.len() as int;
        let mut d: Vec<(u32, EdgeKind)> = Vec::new();
        std::mem::swap(&mut d, &mut self.deps[from as usize]);
        d.push((to, kind));
        self.deps.set(from as usize, d);
        let mut r: Vec<(u32, EdgeKind)> = Vec::new();
        std::mem::swap(&mut r, &mut self.rdeps[to as usize]);
        r.push((from, kind));
        self.rdeps.set(to as usize, r);
        proof {
            assert forall|f: int, t: int, k: EdgeKind| 0 <= f < n && 0 <= t < n implies
                (#[trigger] has_edge(self.deps@, f, t, k) <==> (has_edge(old(self).deps@, f, t, k)
                    || (f == from && t == to && k == kind))) by {
                lemma_has_edge_push(old(self).deps@, self.deps@, from as int, (to, kind), f, t, k);
            }
            assert forall|f: int, t: int, k: EdgeKind| 0 <= f < n && 0 <= t < n implies
                (#[trigger] has_edge(self.deps@, f, t, k) <==> has_edge(self.rdeps@, t, f, k)) by {
                lemma_has_edge_push(old(self).deps@, self.deps@, from as int, (to, kind), f, t, k);
                lemma_has_edge_push(old(self).rdeps@, self.rdeps@, to as int, (from, kind), t, f, k);
                assert(has_edge(old(self).deps@, f, t, k) <==> has_edge(old(self).rdeps@, t, f, k));
            }
            assert forall|f: int, j: int| 0 <= f < n && 0 <= j < self.deps[f].len() implies (#[trigger] self.deps[f]@[j]).0 < n by {
                if f != from || j < old(self).deps@[f].len() {
                    assert(self.deps[f]@[j] == old(self).deps[f]@[j]);
                }
            }
            assert forall|t: int, j: int| 0 <= t < n && 0 <= j < self.rdeps[t].len() implies (#[trigger] self.rdeps[t]@[j]).0 < n by {
                if t != to || j < old(self).rdeps@[t].len() {
                    assert(self.rdeps[t]@[j] == old(self).rdeps[t]@[j]);
                }
            }
        }
    }

    pub fn is_barrier(&self, id: u32) -> (r: bool)
        ensures
            r == self.barrier@.contains(id),
    {
        let mut i: usize = 0;
        while i < self.barrier.len()
            invariant
                i <= self.barrier.len(),
                forall|j: int| 0 <= j < i ==> self.barrier@[j] != id,
            decreases self.barrier.len() - i,
        {
            if self.barrier[i] == id {
                return true;
            }
            i = i + 1;
        }
        false
    }

    /// Records that `from` depends on the whole of `package`, if the graph
    /// knows that package.
    pub fn add_package_edge(&mut self, from: u32, package: &str)
        requires
            old(self).wf(),
            (from as int) < old(self).files.len(),
        ensures
            final(self).package_dirs == old(self).package_dirs,
            final(self).unresolved == old(self).unresolved,
            final(self).failed == old(self).failed,
            final(self).dangling == old(self).dangling,
            final(self).unknown == old(self).unknown,
            final(self).tsconfig_fallbacks == old(self).tsconfig_fallbacks,
            final(self).barrier == old(self).barrier,
            final(self).wf(),
            final(self).files == old(self).files,
            final(self).deps == old(self).deps,
            final(self).packages == old(self).packages,
            final(self).package_of == old(self).package_of,
            final(self).package_importers.len() == old(self).package_importers.len(),
            forall|p: int| 0 <= p < final(self).packages.len() ==> (#[trigger] final(self).package_importers@[p])@
                == if p == first_named(old(self).packages@, package@, old(self).packages.len() as int)
                    && !old(self).package_importers@[p]@.contains(from) {
                    old(self).package_importers@[p]@.push(from)
                } else {
                    old(self).package_importers@[p]@
                },
            forall|p: int| 0 <= p < final(self).packages.len() ==> (#[trigger] final(self).package_importers@[p])@.to_set()
                == if p == first_named(old(self).packages@, package@, old(self).packages.len() as int) {
                    old(self).package_importers@[p]@.to_set().insert(from)
                } else {
                    old(self).package_importers@[p]@.to_set()
                },
    {
        let want = package.to_owned();
        let mut p: usize = 0;
        while p < self.packages.len()
            invariant
                p <= self.packages.len(),
                want@ == package@,
                self.packages == old(self).packages,
                forall|q: int| 0 <= q < p ==> (#[trigger] self.packages@[q])@ != package@,
            ensures
                p <= self.packages.len(),
                self.packages == old(self).packages,
                forall|q: int| 0 <= q < p ==> (#[trigger] self.packages@[q])@ != package@,
                p == self.packages.len() || self.packages@[p as int]@ == package@,
            decreases self.packages.len() - p,
        {
            if self.packages[p] == want {
                break;
            }
            p = p + 1;
        }
        proof {
            lemma_first_named(self.packages@, package@, p as int);
        }
        if p < self.packages.len() {
            let mut list: Vec<u32> = Vec::new();
            std::mem::swap(&mut list, &mut self.package_importers[p]);
            let ghost before = list@;
            if !contains_id(&list, from) {
                list.push(from);
                proof {
                    before.lemma_push_to_set_commute(from);
                }
            } else {
                proof {
                    assert(before.to_set() =~= before.to_set().insert(from));
                }
            }
            self.package_importers.set(p, list);
            proof {
                let n = self.files.len() as int;
                assert forall|q: int, j: int| 0 <= q < self.packages.len() && 0 <= j < self.package_importers[q].len()
                    implies (#[trigger] self.package_importers[q]@[j]) < n by {
                    if q != p as int || j < before.len() {
                        assert(self.package_importers[q]@[j] == old(self).package_importers[q]@[j]);
                    }
                }
            }
        }
    }

    /// The files `id` depends on directly (package edges not included).
    pub fn dependencies(&self, id: u32) -> (r: &[(u32, EdgeKind)])
        requires
            (id as int) < self.deps.len(),
        ensures
            r@ == self.deps@[id as int]@,
    {
        self.deps[id as usize].as_slice()
    }

    /// Files that depend on `id` directly, including through a package edge,
    /// by id; a direct edge names its first kind, a package edge none.
    pub fn importers(&self, id: u32) -> (r: Vec<(u32, Option<EdgeKind>)>)
        requires
            self.wf(),
            (id as int) < self.files.len(),
        ensures
            r@ == importers_upto(self, id as int, self.files.len() as int),
    {
        let n = self.files.len();
        let mut best: Vec<u8> = Vec::new();
        let mut through_package: Vec<bool> = Vec::new();
        let mut f: usize = 0;
        while f < n
            invariant
                f <= n == self.files.len(),
                best@ == filled(f as nat, 8u8),
                through_package@ == filled(f as nat, false),
            decreases n - f,
        {
            best.push(8);
            through_package.push(false);
            proof {
                assert(best@ =~= filled(f as nat + 1, 8u8));
                assert(through_package@ =~= filled(f as nat + 1, false));
            }
            f = f + 1;
        }
        let into = &self.rdeps[id as usize];
        let mut j: usize = 0;
        while j < into.len()
            invariant
                self.wf(),
                (id as int) < n == self.files.len(),
                into == self.rdeps@[id as int],
                j <= into.len(),
                best.len() == n,
                forall|x: int| 0 <= x < n ==> #[trigger] best@[x] <= 8,
                forall|x: int| 0 <= x < n ==> (#[trigger] best@[x] < 8 ==> has_edge(self.rdeps@, id as int, x, kind_of(best@[x] as nat))),
                forall|i: int| 0 <= i < j ==> best@[(#[trigger] into@[i]).0 as int] as nat <= rank(into@[i].1),
            decreases into.len() - j,
        {
            let (from, k) = into[j];
            let r = edge_rank(k);
            proof {
                assert((from as int) < n);
            }
            if r < best[from as usize] {
                best.set(from as usize, r);
            }
            proof {
                assert(into@[j as int] == (from, k));
                assert(has_edge(self.rdeps@, id as int, from as int, k));
                assert forall|i: int| 0 <= i < j + 1 implies best@[(#[trigger] into@[i]).0 as int] as nat <= rank(into@[i].1) by {
                    assert((into@[i].0 as int) < n);
                }
            }
            j = j + 1;
        }
        if let Some(p) = self.package_of[id as usize] {
            let list = &self.package_importers[p as usize];
            let mut j: usize = 0;
            while j < list.len()
                invariant
                    self.wf(),
                    (p as int) < self.packages.len(),
                    list == self.package_importers@[p as int],
                    j <= list.len(),
                    through_package.len() == n == self.files.len(),
                    forall|x: int| 0 <= x < n ==> (#[trigger] through_package@[x] <==> list@.take(j as int).contains(x as u32)),
                decreases list.len() - j,
            {
                let from = list[j];
                proof {
                    assert((from as int) < n);
                }
                through_package.set(from as usize, true);
                proof {
                    assert forall|x: int| 0 <= x < n implies (#[trigger] through_package@[x] <==> list@.take(j as int + 1).contains(x as u32)) by {
                        assert(list@.take(j as int + 1) =~= list@.take(j as int).push(from));
                        if x == from as int {
                            assert(list@.take(j as int + 1)[j as int] == from);
                        }
                    }
                }
                j = j + 1;
            }
            proof {
                assert(list@.take(j as int) =~= list@);
            }
        }
        let mut out: Vec<(u32, Option<EdgeKind>)> = Vec::new();
        let mut f: usize = 0;
        while f < n
            invariant
                self.wf(),
                (id as int) < n == self.files.len(),
                f <= n,
                best.len() == n,
                through_package.len() == n,
                forall|x: int| 0 <= x < n ==> #[trigger] best@[x] <= 8,
                forall|x: int| 0 <= x < n ==> (#[trigger] best@[x] < 8 ==> has_edge(self.rdeps@, id as int, x, kind_of(best@[x] as nat))),
                forall|i: int| 0 <= i < self.rdeps@[id as int]@.len() ==> best@[(#[trigger] self.rdeps@[id as int]@[i]).0 as int] as nat <= rank(self.rdeps@[id as int]@[i].1),
                forall|x: int| 0 <= x < n ==> (#[trigger] through_package@[x] <==> (self.package_of@[id as int] matches Some(p)
                    && self.package_importers@[p as int]@.contains(x as u32))),
                out@ == importers_upto(self, id as int, f as int),
            decreases n - f,
        {
            proof {
                lemma_direct_kind(self, f as int, id as int, best@[f as int] as nat);
            }
            if best[f] < 8 {
                out.push((f as u32, Some(rank_kind(best[f]))));
            } else if through_package[f] {
                out.push((f as u32, None));
            }
            f = f + 1;
        }
        out
    }

    /// Every file that can be affected by a change to any of `changed`, with
    /// the file that led to each one, in the order they were reached:
    /// breadth first, so following the parents from any file reaches
    /// `changed` in the fewest steps there are.
    #[verifier::spinoff_prover]
    #[verifier::rlimit(100)]
    pub fn affected(&self, changed: &[u32]) -> (r: Vec<(u32, Option<u32>)>)
        requires
            self.wf(),
            forall|i: int| 0 <= i < changed.len() ==> (#[trigger] changed@[i] as int) < self.files.len(),
        ensures
            forall|i: int| 0 <= i < changed.len() ==> reached(r@, #[trigger] changed@[i] as int),
            forall|j: int, f: int| 0 <= j < r.len() && 0 <= f < self.files.len() && #[trigger] self.imports(f, r@[j].0 as int)
                ==> reached(r@, f),
            forall|j: int| 0 <= j < r.len() ==> (#[trigger] r@[j].0 as int) < self.files.len(),
            forall|j: int| 0 <= j < r.len() ==> (#[trigger] r@[j].1 matches Some(p) ==>
                exists|i: int| 0 <= i < j && r@[i].0 == p && self.imports(r@[j].0 as int, p as int)),
            forall|j: int| 0 <= j < r.len() ==> (#[trigger] r@[j].1 is None ==> changed@.contains(r@[j].0)),
            forall|i: int, j: int| 0 <= i < j < r.len() ==> r@[i].0 != r@[j].0,
            forall|j: int| 0 <= j < r.len() ==> (#[trigger] r@[j].1 matches Some(p) ==>
                0 <= index_of(r@, p, j) < j && r@[index_of(r@, p, j)].0 == p),
            forall|j: int| 0 <= j < r.len() ==> #[trigger] step_of(r@, r@[j].0 as int) == level(r@, j),
            forall|path: Seq<int>, x: int, c: int| 0 <= c < self.files.len() && changed@.contains(c as u32)
                && #[trigger] is_path(self, path, x, c) ==> reached(r@, x) && step_of(r@, x) + 1 <= path.len(),
            forall|x: int| #[trigger] reached(r@, x) <==> exists|c: int| 0 <= c < self.files.len()
                && changed@.contains(c as u32) && depends(self, x, c),
    {
        let n = self.files.len();
        let mut seen: Vec<bool> = Vec::new();
        let mut f: usize = 0;
        while f < n
            invariant
                f <= n == self.files.len(),
                seen@ == filled(f as nat, false),
            decreases n - f,
        {
            seen.push(false);
            proof {
                assert(seen@ =~= filled(f as nat + 1, false));
            }
            f = f + 1;
        }
        let mut order: Vec<(u32, Option<u32>)> = Vec::new();
        let mut c: usize = 0;
        proof {
            lemma_count_true_none(seen@);
        }
        while c < changed.len()
            invariant
                self.wf(),
                n == self.files.len(),
                seen.len() == n,
                c <= changed.len(),
                forall|i: int| 0 <= i < changed.len() ==> (#[trigger] changed@[i] as int) < n,
                forall|i: int| 0 <= i < c ==> reached(order@, #[trigger] changed@[i] as int),
                forall|j: int| 0 <= j < order.len() ==> (#[trigger] order@[j].0 as int) < n && seen@[order@[j].0 as int],
                forall|x: int| 0 <= x < n && #[trigger] seen@[x] ==> reached(order@, x),
                forall|j: int| 0 <= j < order.len() ==> (#[trigger] order@[j].1 is None && changed@.contains(order@[j].0)),
                forall|i: int, j: int| 0 <= i < j < order.len() ==> order@[i].0 != order@[j].0,
                order.len() == count_true(seen@),
            decreases changed.len() - c,
        {
            let x = changed[c];
            let ghost old_order = order@;
            let ghost old_seen = seen@;
            if !seen[x as usize] {
                proof {
                    lemma_count_true_set(seen@, x as int);
                }
                seen.set(x as usize, true);
                order.push((x, None));
                proof {
                    assert(order@.last().0 == x);
                }
            }
            proof {
                assert(reached(order@, changed@[c as int] as int));
                assert forall|i: int| 0 <= i < c + 1 implies reached(order@, #[trigger] changed@[i] as int) by {
                    if i < c {
                        assert(reached(old_order, changed@[i] as int));
                        let j = choose|j: int| 0 <= j < old_order.len() && old_order[j].0 as int == changed@[i] as int;
                        assert(order@[j] == old_order[j]);
                    }
                }
                assert forall|x2: int| 0 <= x2 < n && #[trigger] seen@[x2] implies reached(order@, x2) by {
                    if x2 != x as int {
                        assert(old_seen[x2]);
                        assert(reached(old_order, x2));
                        let j = choose|j: int| 0 <= j < old_order.len() && old_order[j].0 as int == x2;
                        assert(order@[j] == old_order[j]);
                    } else {
                        assert(reached(order@, changed@[c as int] as int));
                    }
                }
            }
            c = c + 1;
        }
        let mut head: usize = 0;
        proof {
            lemma_count_true_bound(seen@);
            assert forall|j: int| 0 <= j < order.len() implies #[trigger] level(order@, j) == 0 by {
                lemma_level_unfold(order@, j);
            }
        }
        while head < order.len()
            invariant
                self.wf(),
                n == self.files.len(),
                seen.len() == n,
                head <= order.len(),
                order.len() == count_true(seen@) <= n,
                forall|i: int| 0 <= i < changed.len() ==> reached(order@, #[trigger] changed@[i] as int),
                forall|j: int| 0 <= j < order.len() ==> (#[trigger] order@[j].0 as int) < n && seen@[order@[j].0 as int],
                forall|x: int| 0 <= x < n && #[trigger] seen@[x] ==> reached(order@, x),
                forall|j: int| 0 <= j < order.len() ==> (#[trigger] order@[j].1 matches Some(p) ==>
                    exists|i: int| 0 <= i < j && order@[i].0 == p && self.imports(order@[j].0 as int, p as int)),
                forall|j: int| 0 <= j < order.len() ==> (#[trigger] order@[j].1 is None ==> changed@.contains(order@[j].0)),
                forall|i: int, j: int| 0 <= i < j < order.len() ==> order@[i].0 != order@[j].0,
                forall|j: int, x: int| 0 <= j < head && 0 <= x < n && #[trigger] self.imports(x, order@[j].0 as int) ==> seen@[x],
                forall|j: int| 0 <= j < order.len() ==> (changed@.contains(#[trigger] order@[j].0) ==> order@[j].1 is None),
                forall|i: int, j: int| 0 <= i <= j < order.len() ==> #[trigger] level(order@, i) <= #[trigger] level(order@, j),
                head < order.len() ==> forall|j: int| 0 <= j < order.len() ==> #[trigger] level(order@, j) <= level(order@, head as int) + 1,
                forall|j: int, x: int| 0 <= j < head && 0 <= x < n && #[trigger] self.imports(x, order@[j].0 as int) ==>
                    step_of(order@, x) <= level(order@, j) + 1,
            decreases n - head,
        {
            let file = order[head].0;
            let found = self.importers(file);
            proof {
                lemma_importers_exact(self, file as int, n as int);
            }
            let mut k: usize = 0;
            while k < found.len()
                invariant
                    self.wf(),
                    n == self.files.len(),
                    seen.len() == n,
                    head < order.len(),
                    order@[head as int].0 == file,
                    order.len() == count_true(seen@) <= n,
                    found@ == importers_upto(self, file as int, n as int),
                    forall|x: int| 0 <= x < n ==> (#[trigger] self.imports(x, file as int) <==> exists|i: int| 0 <= i < found.len() && found@[i].0 == x),
                    forall|i: int| 0 <= i < found.len() ==> (#[trigger] found@[i].0 as int) < n,
                    k <= found.len(),
                    forall|i: int| 0 <= i < changed.len() ==> reached(order@, #[trigger] changed@[i] as int),
                    forall|j: int| 0 <= j < order.len() ==> (#[trigger] order@[j].0 as int) < n && seen@[order@[j].0 as int],
                    forall|x: int| 0 <= x < n && #[trigger] seen@[x] ==> reached(order@, x),
                    forall|j: int| 0 <= j < order.len() ==> (#[trigger] order@[j].1 matches Some(p) ==>
                        exists|i: int| 0 <= i < j && order@[i].0 == p && self.imports(order@[j].0 as int, p as int)),
                    forall|j: int| 0 <= j < order.len() ==> (#[trigger] order@[j].1 is None ==> changed@.contains(order@[j].0)),
                    forall|i: int, j: int| 0 <= i < j < order.len() ==> order@[i].0 != order@[j].0,
                    forall|j: int, x: int| 0 <= j < head && 0 <= x < n && #[trigger] self.imports(x, order@[j].0 as int) ==> seen@[x],
                    forall|i: int| 0 <= i < k ==> seen@[(#[trigger] found@[i]).0 as int],
                    forall|j: int| 0 <= j < order.len() ==> (changed@.contains(#[trigger] order@[j].0) ==> order@[j].1 is None),
                    forall|i: int, j: int| 0 <= i <= j < order.len() ==> #[trigger] level(order@, i) <= #[trigger] level(order@, j),
                    forall|j: int| 0 <= j < order.len() ==> #[trigger] level(order@, j) <= level(order@, head as int) + 1,
                    forall|j: int, x: int| 0 <= j < head && 0 <= x < n && #[trigger] self.imports(x, order@[j].0 as int) ==>
                        step_of(order@, x) <= level(order@, j) + 1,
                    forall|i: int| 0 <= i < k ==> step_of(order@, (#[trigger] found@[i]).0 as int) <= level(order@, head as int) + 1,
                decreases found.len() - k,
            {
                let imp = found[k].0;
                if !seen[imp as usize] {
                    proof {
                        lemma_count_true_set(seen@, imp as int);
                        lemma_count_true_bound(seen@.update(imp as int, true));
                        assert(self.imports(imp as int, file as int));
                    }
                    let ghost old_order = order@;
                    let ghost seen0 = seen@;
                    seen.set(imp as usize, true);
                    order.push((imp, Some(file)));
                    proof {
                        let last = order@.len() - 1;
                        assert(order@[last].1 == Some(file));
                        assert(order@[head as int].0 == file);
                        assert forall|j: int| 0 <= j < order.len() implies (#[trigger] order@[j].1 matches Some(p) ==>
                            exists|i: int| 0 <= i < j && order@[i].0 == p && self.imports(order@[j].0 as int, p as int)) by {
                            if j < last {
                                assert(order@[j] == old_order[j]);
                                if let Some(p) = order@[j].1 {
                                    let i = choose|i: int| 0 <= i < j && old_order[i].0 == p && self.imports(old_order[j].0 as int, p as int);
                                    assert(order@[i] == old_order[i]);
                                }
                            } else {
                                assert(order@[head as int].0 == file && self.imports(imp as int, file as int));
                            }
                        }
                        assert forall|i: int| 0 <= i < changed.len() implies reached(order@, #[trigger] changed@[i] as int) by {
                            assert(reached(old_order, changed@[i] as int));
                            let j = choose|j: int| 0 <= j < old_order.len() && old_order[j].0 as int == changed@[i] as int;
                            assert(order@[j] == old_order[j]);
                        }
                        assert forall|x: int| 0 <= x < n && #[trigger] seen@[x] implies reached(order@, x) by {
                            if x != imp as int {
                                assert(reached(old_order, x));
                                let j = choose|j: int| 0 <= j < old_order.len() && old_order[j].0 as int == x;
                                assert(order@[j] == old_order[j]);
                            } else {
                                assert(order@[last].0 as int == x);
                            }
                        }
                        assert(order@ == old_order.push((imp, Some(file))));
                        lemma_walk_push(self, changed@, old_order, seen0, head as int, imp, found@, k as int);
                    }
                } else {
                    proof {
                        assert(reached(order@, imp as int));
                        let q = choose|q: int| 0 <= q < order@.len() && order@[q].0 as int == imp as int;
                        lemma_index_of_found(order@, imp, q, order@.len() as int);
                        assert(level(order@, index_of(order@, imp, order@.len() as int)) <= level(order@, head as int) + 1);
                    }
                }
                k = k + 1;
            }
            proof {
                assert forall|j: int, x: int| 0 <= j < head + 1 && 0 <= x < n && #[trigger] self.imports(x, order@[j].0 as int) implies seen@[x] by {
                    if j == head {
                        let i = choose|i: int| 0 <= i < found.len() && found@[i].0 == x;
                        assert(seen@[found@[i].0 as int]);
                    }
                }
                assert forall|j: int, x: int| 0 <= j < head + 1 && 0 <= x < n && #[trigger] self.imports(x, order@[j].0 as int) implies
                    step_of(order@, x) <= level(order@, j) + 1 by {
                    if j == head {
                        let i = choose|i: int| 0 <= i < found.len() && found@[i].0 == x;
                        assert(step_of(order@, found@[i].0 as int) <= level(order@, head as int) + 1);
                    }
                }
                if head + 1 < order.len() {
                    assert(level(order@, head as int) <= level(order@, head + 1));
                    assert forall|j: int| 0 <= j < order.len() implies #[trigger] level(order@, j) <= level(order@, head + 1) + 1 by {
                        assert(level(order@, j) <= level(order@, head as int) + 1);
                    }
                }
            }
            head = head + 1;
        }
        proof {
            let o = order@;
            assert forall|j: int| 0 <= j < o.len() implies (#[trigger] o[j].1 matches Some(p) ==>
                0 <= index_of(o, p, j) < j && o[index_of(o, p, j)].0 == p) by {
                if let Some(p) = o[j].1 {
                    let i = choose|i: int| 0 <= i < j && o[i].0 == p && self.imports(o[j].0 as int, p as int);
                    lemma_index_of_unique(o, p, i, j);
                }
            }
            assert forall|j: int| 0 <= j < o.len() implies #[trigger] step_of(o, o[j].0 as int) == level(o, j) by {
                lemma_index_of_unique(o, o[j].0, j, o.len() as int);
            }
            assert forall|i: int| 0 <= i < changed.len() implies reached(o, #[trigger] changed@[i] as int)
                && step_of(o, changed@[i] as int) == 0 by {
                let j = choose|j: int| 0 <= j < o.len() && o[j].0 as int == changed@[i] as int;
                lemma_index_of_unique(o, o[j].0, j, o.len() as int);
                assert(changed@.contains(o[j].0));
                lemma_level_unfold(o, j);
            }
            assert forall|j: int, f: int| 0 <= j < o.len() && 0 <= f < n && #[trigger] self.imports(f, o[j].0 as int)
                implies reached(o, f) && step_of(o, f) <= level(o, j) + 1 by {
                assert(seen@[f]);
            }
            assert forall|path: Seq<int>, x: int, c: int| 0 <= c < n && changed@.contains(c as u32)
                && #[trigger] is_path(self, path, x, c) implies reached(o, x) && step_of(o, x) + 1 <= path.len() by {
                lemma_path_level(self, o, changed@, path, 0);
            }
            assert forall|x: int| #[trigger] reached(o, x) <==> exists|c: int| 0 <= c < n
                && changed@.contains(c as u32) && depends(self, x, c) by {
                if reached(o, x) {
                    let j = choose|j: int| 0 <= j < o.len() && o[j].0 as int == x;
                    lemma_order_depends(self, changed@, o, j);
                }
                if exists|c: int| 0 <= c < n && changed@.contains(c as u32) && depends(self, x, c) {
                    let c = choose|c: int| 0 <= c < n && changed@.contains(c as u32) && depends(self, x, c);
                    let path = choose|path: Seq<int>| is_path(self, path, x, c);
                    lemma_path_level(self, o, changed@, path, 0);
                }
            }
        }
        order
    }

    /// The shortest chain by which `from` depends on `to`, `from` first, each step
    /// naming the kind of its first edge to the next (none for a package
    /// edge, and none on `to` itself).
    #[verifier::rlimit(40)]
    pub fn why(&self, from: u32, to: u32) -> (r: Option<Vec<Step>>)
        requires
            self.wf(),
            (to as int) < self.files.len(),
        ensures
            r is None <==> !depends(self, from as int, to as int),
            r matches Some(chain) ==> is_chain(self, chain@, from as int, to as int),
            r matches Some(chain) ==> forall|path: Seq<int>| #[trigger] is_path(self, path, from as int, to as int)
                ==> chain.len() <= path.len(),
            from == to ==> (r matches Some(chain) && chain.len() == 1 && chain[0].0@ == self.files@[to as int]@
                && chain[0].1 is None),
    {
        let target = [to];
        let order = self.affected(&target);
        let ghost tgt = target@;
        proof {
            assert(tgt[0] == to);
            assert(reached(order@, to as int));
        }
        let mut pos: usize = 0;
        while pos < order.len()
            invariant
                pos <= order.len(),
                forall|j: int| 0 <= j < pos ==> (#[trigger] order@[j]).0 != from,
            ensures
                pos <= order.len(),
                forall|j: int| 0 <= j < pos ==> (#[trigger] order@[j]).0 != from,
                pos < order.len() ==> order@[pos as int].0 == from,
            decreases order.len() - pos,
        {
            if order[pos].0 == from {
                break;
            }
            pos = pos + 1;
        }
        if pos == order.len() {
            proof {
                if from == to {
                    assert(is_path(self, seq![from as int], from as int, to as int));
                }
                if depends(self, from as int, to as int) {
                    let path = choose|path: Seq<int>| is_path(self, path, from as int, to as int);
                    lemma_path_reached(self, order@, path, 0);
                    let j = choose|j: int| 0 <= j < order@.len() && order@[j].0 as int == path[0];
                    assert(order@[j].0 == from);
                }
            }
            return None;
        }
        let mut chain: Vec<Step> = Vec::new();
        let ghost mut ids: Seq<int> = Seq::empty();
        let ghost pos0 = pos as int;
        loop
            invariant_except_break
                self.wf(),
                (to as int) < self.files.len(),
                pos < order.len(),
                tgt == seq![to],
                forall|j: int| 0 <= j < order.len() ==> (#[trigger] order@[j].0 as int) < self.files.len(),
                forall|j: int| 0 <= j < order.len() ==> (#[trigger] order@[j].1 matches Some(p) ==>
                    exists|i: int| 0 <= i < j && order@[i].0 == p && self.imports(order@[j].0 as int, p as int)),
                forall|j: int| 0 <= j < order.len() ==> (#[trigger] order@[j].1 is None ==> tgt.contains(order@[j].0)),
                partial_chain(self, chain@, ids, from as int, order@[pos as int].0 as int),
                forall|j: int| 0 <= j < order.len() ==> (#[trigger] order@[j].1 matches Some(p) ==>
                    0 <= index_of(order@, p, j) < j && order@[index_of(order@, p, j)].0 == p),
                0 <= pos0 < order.len(),
                chain.len() + level(order@, pos as int) == level(order@, pos0),
            ensures
                is_chain(self, chain@, from as int, to as int),
                chain.len() == level(order@, pos0) + 1,
            decreases pos,
        {
            let file = order[pos].0;
            let name = self.files[file as usize].clone();
            match order[pos].1 {
                None => {
                    proof {
                        assert(tgt.contains(file));
                        let k = choose|k: int| 0 <= k < tgt.len() && tgt[k] == file;
                        assert(file == to);
                        lemma_chain_end(self, chain@, ids, from as int, to as int, (name, None));
                        lemma_level_unfold(order@, pos as int);
                    }
                    chain.push((name, None));
                    break;
                },
                Some(parent) => {
                    let kind = first_kind_exec(&self.deps[file as usize], parent);
                    let ghost at = pos as int;
                    let mut i: usize = 0;
                    while i < pos
                        invariant
                            i <= pos < order.len(),
                            forall|q: int| 0 <= q < i ==> (#[trigger] order@[q]).0 != parent,
                        ensures
                            i <= pos,
                            forall|q: int| 0 <= q < i ==> (#[trigger] order@[q]).0 != parent,
                            i < pos ==> order@[i as int].0 == parent,
                        decreases pos - i,
                    {
                        if order[i].0 == parent {
                            break;
                        }
                        i = i + 1;
                    }
                    proof {
                        let w = choose|w: int| 0 <= w < at && order@[w].0 == parent && self.imports(order@[at].0 as int, parent as int);
                        assert(i < pos) by {
                            if i == pos {
                                assert(order@[w].0 != parent);
                            }
                        }
                        assert((parent as int) < self.files.len()) by {
                            assert((order@[w].0 as int) < self.files.len());
                        }
                        lemma_chain_step(self, chain@, ids, from as int, file as int, parent as int, (name, kind));
                        ids = ids.push(file as int);
                        assert(0 <= index_of(order@, parent, at) < at);
                        lemma_index_of_first(order@, parent, i as int, at);
                        lemma_level_unfold(order@, at);
                    }
                    chain.push((name, kind));
                    pos = i;
                },
            }
        }
        proof {
            assert(order@[pos0].0 == from);
            assert forall|path: Seq<int>| #[trigger] is_path(self, path, from as int, to as int) implies chain.len() <= path.len() by {
                assert(tgt.contains(to));
                assert(step_of(order@, order@[pos0].0 as int) == level(order@, pos0));
            }
            if from == to {
                let single = seq![from as int];
                assert(is_path(self, single, from as int, to as int));
                let ids = choose|ids: Seq<int>| is_path(self, ids, from as int, to as int) && chain_matches(self, chain@, ids);
                assert(chain@.len() == 1);
                assert(ids[0] == from);
                assert(chain@[0].0@ == self.files@[ids[0]]@);
                assert(chain@.last() == chain@[0]);
            }
        }
        Some(chain)
    }

    /// How big the graph is: files, edges in all and by kind (kinds that
    /// occur, in their order), package edges and packages, and the counts of
    /// what went unresolved.
    pub fn stats(&self) -> (r: Stats)
        requires
            self.deps.len() == self.files.len(),
            sum_lens(self.deps@) <= usize::MAX,
            sum_lens(self.package_importers@) <= usize::MAX,
        ensures
            r.files == self.files.len(),
            r.edges == sum_lens(self.deps@),
            r.edges_by_kind@ == by_kind(self.deps@, 8),
            r.package_edges == sum_lens(self.package_importers@),
            r.packages == self.packages.len(),
            r.unresolved == self.unresolved.len(),
            r.unknown == self.unknown.len(),
            r.tsconfig_fallbacks == self.tsconfig_fallbacks.len(),
    {
        let mut counts: Vec<usize> = vec![0, 0, 0, 0, 0, 0, 0, 0];
        let mut edges: usize = 0;
        let mut f: usize = 0;
        while f < self.deps.len()
            invariant
                f <= self.deps.len(),
                sum_lens(self.deps@) <= usize::MAX,
                counts.len() == 8,
                edges == sum_lens(self.deps@.take(f as int)),
                forall|r: int| 0 <= r < 8 ==> #[trigger] counts@[r] == kind_total(self.deps@.take(f as int), kind_of(r as nat)),
            decreases self.deps.len() - f,
        {
            let list = &self.deps[f];
            let mut e: usize = 0;
            proof {
                lemma_sum_lens_take(self.deps@, f as int + 1);
                assert(self.deps@.take(f as int + 1).drop_last() =~= self.deps@.take(f as int));
            }
            while e < list.len()
                invariant
                    f < self.deps.len(),
                    list == self.deps@[f as int],
                    e <= list.len(),
                    sum_lens(self.deps@.take(f as int)) + list@.len() <= usize::MAX,
                    counts.len() == 8,
                    edges == sum_lens(self.deps@.take(f as int)) + e,
                    forall|r: int| 0 <= r < 8 ==> #[trigger] counts@[r] == kind_total(self.deps@.take(f as int), kind_of(r as nat))
                        + kind_count(list@.take(e as int), kind_of(r as nat)),
                decreases list.len() - e,
            {
                let k = list[e].1;
                let r = edge_rank(k) as usize;
                proof {
                    assert(list@.take(e as int + 1).drop_last() =~= list@.take(e as int));
                    assert forall|q: int| 0 <= q < 8 implies #[trigger] kind_total(self.deps@.take(f as int), kind_of(q as nat))
                        + kind_count(list@.take(e as int), kind_of(q as nat)) <= sum_lens(self.deps@.take(f as int)) + e by {
                        lemma_kind_total_bound(self.deps@.take(f as int), kind_of(q as nat));
                        lemma_kind_count_bound(list@.take(e as int), kind_of(q as nat));
                    }
                    assert(counts@[r as int] <= edges);
                }
                counts.set(r, counts[r] + 1);
                edges = edges + 1;
                proof {
                    assert forall|q: int| 0 <= q < 8 implies #[trigger] counts@[q] == kind_total(self.deps@.take(f as int), kind_of(q as nat))
                        + kind_count(list@.take(e as int + 1), kind_of(q as nat)) by {
                        assert(kind_of(q as nat) == k <==> q == r as int) by {
                            assert(rank(k) == r);
                        }
                    }
                }
                e = e + 1;
            }
            proof {
                assert(list@.take(e as int) =~= list@);
                assert forall|q: int| 0 <= q < 8 implies #[trigger] counts@[q] == kind_total(self.deps@.take(f as int + 1), kind_of(q as nat)) by {
                    assert(self.deps@.take(f as int + 1).last() == list);
                }
            }
            f = f + 1;
        }
        proof {
            assert(self.deps@.take(f as int) =~= self.deps@);
        }
        let mut edges_by_kind: Vec<(EdgeKind, usize)> = Vec::new();
        let mut r: usize = 0;
        while r < 8
            invariant
                r <= 8,
                counts.len() == 8,
                forall|q: int| 0 <= q < 8 ==> #[trigger] counts@[q] == kind_total(self.deps@, kind_of(q as nat)),
                edges_by_kind@ == by_kind(self.deps@, r as nat),
            decreases 8 - r,
        {
            if counts[r] > 0 {
                edges_by_kind.push((rank_kind(r as u8), counts[r]));
            }
            r = r + 1;
        }
        let mut package_edges: usize = 0;
        let mut p: usize = 0;
        while p < self.package_importers.len()
            invariant
                p <= self.package_importers.len(),
                sum_lens(self.package_importers@) <= usize::MAX,
                package_edges == sum_lens(self.package_importers@.take(p as int)),
            decreases self.package_importers.len() - p,
        {
            proof {
                lemma_sum_lens_take(self.package_importers@, p as int + 1);
                assert(self.package_importers@.take(p as int + 1).drop_last() =~= self.package_importers@.take(p as int));
            }
            package_edges = package_edges + self.package_importers[p].len();
            p = p + 1;
        }
        proof {
            assert(self.package_importers@.take(p as int) =~= self.package_importers@);
        }
        Stats {
            files: self.files.len(),
            edges,
            edges_by_kind,
            package_edges,
            packages: self.packages.len(),
            unresolved: self.unresolved.len(),
            unknown: self.unknown.len(),
            tsconfig_fallbacks: self.tsconfig_fallbacks.len(),
        }
    }
}

/// `path` runs from `from` to `to` through files of the graph, each one
/// depending on the next.
pub open spec fn is_path(g: &Graph, path: Seq<int>, from: int, to: int) -> bool {
    &&& path.len() >= 1
    &&& path[0] == from
    &&& path.last() == to
    &&& forall|i: int| 0 <= i < path.len() ==> 0 <= #[trigger] path[i] < g.files.len()
    &&& forall|i: int| 0 <= i < path.len() - 1 ==> g.imports(#[trigger] path[i], path[i + 1])
}

/// `from` depends on `to`, directly or through other files.
pub open spec fn depends(g: &Graph, from: int, to: int) -> bool {
    exists|path: Seq<int>| is_path(g, path, from, to)
}

/// The kind of the first edge in `list` to `to`.
pub open spec fn first_kind(list: Seq<(u32, EdgeKind)>, to: u32) -> Option<EdgeKind>
    decreases list.len(),
{
    if list.len() == 0 {
        None
    } else if list[0].0 == to {
        Some(list[0].1)
    } else {
        first_kind(list.drop_first(), to)
    }
}

/// `chain` names the files of `ids`, each step with the kind of its first
/// edge to the next, and the last with none.
pub open spec fn chain_matches(g: &Graph, chain: Seq<Step>, ids: Seq<int>) -> bool {
    &&& ids.len() == chain.len()
    &&& forall|i: int| 0 <= i < ids.len() ==> (#[trigger] chain[i]).0@ == g.files@[ids[i]]@
    &&& forall|i: int| 0 <= i < ids.len() - 1 ==> (#[trigger] chain[i]).1 == first_kind(g.deps@[ids[i]]@, ids[i + 1] as u32)
    &&& chain.last().1 is None
}

/// `chain` so far names the files of `ids`, which start at `from`, each
/// depending on the next and the last on `cur`, with the kinds of the
/// first edges between them.
pub open spec fn partial_chain(g: &Graph, chain: Seq<Step>, ids: Seq<int>, from: int, cur: int) -> bool {
    &&& ids.len() == chain.len()
    &&& 0 <= cur < g.files.len()
    &&& ids.len() == 0 ==> cur == from
    &&& ids.len() > 0 ==> ids[0] == from
    &&& forall|i: int| 0 <= i < ids.len() ==> 0 <= #[trigger] ids[i] < g.files.len()
    &&& forall|i: int| 0 <= i < ids.len() ==> (#[trigger] chain[i]).0@ == g.files@[ids[i]]@
    &&& forall|i: int| 0 <= i < ids.len() ==> {
        let next = if i + 1 < ids.len() { ids[i + 1] } else { cur };
        g.imports(#[trigger] ids[i], next) && chain[i].1 == first_kind(g.deps@[ids[i]]@, next as u32)
    }
}

#[verifier::spinoff_prover]
#[verifier::rlimit(30)]
proof fn lemma_chain_step(g: &Graph, chain: Seq<Step>, ids: Seq<int>, from: int, cur: int, next: int, step: Step)
    requires
        partial_chain(g, chain, ids, from, cur),
        0 <= next < g.files.len(),
        g.imports(cur, next),
        step.0@ == g.files@[cur]@,
        step.1 == first_kind(g.deps@[cur]@, next as u32),
    ensures
        partial_chain(g, chain.push(step), ids.push(cur), from, next),
{
    let c2 = chain.push(step);
    let i2 = ids.push(cur);
    assert forall|i: int| 0 <= i < i2.len() implies {
        let nx = if i + 1 < i2.len() { i2[i + 1] } else { next };
        g.imports(#[trigger] i2[i], nx) && c2[i].1 == first_kind(g.deps@[i2[i]]@, nx as u32)
    } by {
        if i < ids.len() {
            assert(i2[i] == ids[i] && c2[i] == chain[i]);
            if i + 1 < ids.len() {
                assert(i2[i + 1] == ids[i + 1]);
            }
        }
    }
    assert forall|i: int| 0 <= i < i2.len() implies (#[trigger] c2[i]).0@ == g.files@[i2[i]]@ by {
        if i < ids.len() {
            assert(i2[i] == ids[i] && c2[i] == chain[i]);
        }
    }
    assert forall|i: int| 0 <= i < i2.len() implies 0 <= #[trigger] i2[i] < g.files.len() by {
        if i < ids.len() {
            assert(i2[i] == ids[i]);
        }
    }
}

proof fn lemma_chain_end(g: &Graph, chain: Seq<Step>, ids: Seq<int>, from: int, to: int, step: Step)
    requires
        partial_chain(g, chain, ids, from, to),
        step.0@ == g.files@[to]@,
        step.1 is None,
    ensures
        is_chain(g, chain.push(step), from, to),
{
    let c2 = chain.push(step);
    let i2 = ids.push(to);
    assert forall|i: int| 0 <= i < i2.len() - 1 implies g.imports(#[trigger] i2[i], i2[i + 1]) by {
        assert(i2[i] == ids[i]);
        if i + 1 < ids.len() {
            assert(i2[i + 1] == ids[i + 1]);
        }
    }
    assert forall|i: int| 0 <= i < i2.len() - 1 implies (#[trigger] c2[i]).1 == first_kind(g.deps@[i2[i]]@, i2[i + 1] as u32) by {
        assert(i2[i] == ids[i] && c2[i] == chain[i]);
        if i + 1 < ids.len() {
            assert(i2[i + 1] == ids[i + 1]);
        }
    }
    assert forall|i: int| 0 <= i < i2.len() implies (#[trigger] c2[i]).0@ == g.files@[i2[i]]@ by {
        if i < ids.len() {
            assert(i2[i] == ids[i] && c2[i] == chain[i]);
        }
    }
    assert forall|i: int| 0 <= i < i2.len() implies 0 <= #[trigger] i2[i] < g.files.len() by {
        if i < ids.len() {
            assert(i2[i] == ids[i]);
        }
    }
    assert(is_path(g, i2, from, to));
    assert(chain_matches(g, c2, i2));
}

/// `chain` spells out a path from `from` to `to`.
pub open spec fn is_chain(g: &Graph, chain: Seq<Step>, from: int, to: int) -> bool {
    exists|ids: Seq<int>| is_path(g, ids, from, to) && chain_matches(g, chain, ids)
}

/// The sum of the lengths of `lists`.
pub open spec fn sum_lens<T>(lists: Seq<Vec<T>>) -> nat
    decreases lists.len(),
{
    if lists.len() == 0 {
        0
    } else {
        sum_lens(lists.drop_last()) + lists.last()@.len()
    }
}

/// How many edges of `list` have kind `k`.
pub open spec fn kind_count(list: Seq<(u32, EdgeKind)>, k: EdgeKind) -> nat
    decreases list.len(),
{
    if list.len() == 0 {
        0
    } else {
        kind_count(list.drop_last(), k) + if list.last().1 == k { 1nat } else { 0nat }
    }
}

/// How many edges of kind `k` all of `lists` hold.
pub open spec fn kind_total(lists: Seq<Vec<(u32, EdgeKind)>>, k: EdgeKind) -> nat
    decreases lists.len(),
{
    if lists.len() == 0 {
        0
    } else {
        kind_total(lists.drop_last(), k) + kind_count(lists.last()@, k)
    }
}

/// The kinds below rank `r` that occur, in rank order, with their counts.
pub open spec fn by_kind(lists: Seq<Vec<(u32, EdgeKind)>>, r: nat) -> Seq<(EdgeKind, usize)>
    decreases r,
{
    if r == 0 {
        Seq::empty()
    } else {
        let before = by_kind(lists, (r - 1) as nat);
        let c = kind_total(lists, kind_of((r - 1) as nat));
        if c > 0 {
            before.push((kind_of((r - 1) as nat), c as usize))
        } else {
            before
        }
    }
}

proof fn lemma_sum_lens_take<T>(lists: Seq<Vec<T>>, m: int)
    requires
        0 <= m <= lists.len(),
    ensures
        sum_lens(lists.take(m)) <= sum_lens(lists),
    decreases lists.len(),
{
    if m < lists.len() {
        assert(lists.drop_last().take(m) =~= lists.take(m));
        lemma_sum_lens_take(lists.drop_last(), m);
    } else {
        assert(lists.take(m) =~= lists);
    }
}

proof fn lemma_kind_count_bound(list: Seq<(u32, EdgeKind)>, k: EdgeKind)
    ensures
        kind_count(list, k) <= list.len(),
    decreases list.len(),
{
    if list.len() > 0 {
        lemma_kind_count_bound(list.drop_last(), k);
    }
}

proof fn lemma_kind_total_bound(lists: Seq<Vec<(u32, EdgeKind)>>, k: EdgeKind)
    ensures
        kind_total(lists, k) <= sum_lens(lists),
    decreases lists.len(),
{
    if lists.len() > 0 {
        lemma_kind_total_bound(lists.drop_last(), k);
        lemma_kind_count_bound(lists.last()@, k);
    }
}

/// Every file on a path to a reached file is reached, when the reached
/// files are closed under importing.
proof fn lemma_path_reached(g: &Graph, order: Seq<(u32, Option<u32>)>, path: Seq<int>, k: int)
    requires
        path.len() >= 1,
        0 <= k < path.len(),
        forall|i: int| 0 <= i < path.len() ==> 0 <= #[trigger] path[i] < g.files.len(),
        forall|i: int| 0 <= i < path.len() - 1 ==> g.imports(#[trigger] path[i], path[i + 1]),
        reached(order, path.last()),
        forall|j: int, f: int| 0 <= j < order.len() && 0 <= f < g.files.len() && #[trigger] g.imports(f, order[j].0 as int)
            ==> reached(order, f),
    ensures
        reached(order, path[k]),
    decreases path.len() - k,
{
    if k < path.len() - 1 {
        lemma_path_reached(g, order, path, k + 1);
        let j = choose|j: int| 0 <= j < order.len() && order[j].0 as int == path[k + 1];
        assert(g.imports(path[k], path[k + 1]));
        assert(g.imports(path[k], order[j].0 as int));
    }
}

/// The kind of the first edge in `list` to `to`.
fn first_kind_exec(list: &Vec<(u32, EdgeKind)>, to: u32) -> (r: Option<EdgeKind>)
    ensures
        r == first_kind(list@, to),
{
    let mut i: usize = 0;
    proof {
        assert(list@.skip(0) =~= list@);
    }
    while i < list.len()
        invariant
            i <= list.len(),
            first_kind(list@, to) == first_kind(list@.skip(i as int), to),
        decreases list.len() - i,
    {
        proof {
            assert(list@.skip(i as int).drop_first() =~= list@.skip(i as int + 1));
        }
        if list[i].0 == to {
            return Some(list[i].1);
        }
        i = i + 1;
    }
    None
}

/// `n` copies of `v`.
pub open spec fn filled<T>(n: nat, v: T) -> Seq<T> {
    Seq::new(n, |i: int| v)
}

/// Whether `x` is among the files reached.
/// The first position before `m` where `order` reaches `x`, or -1.
pub open spec fn index_of(order: Seq<(u32, Option<u32>)>, x: u32, m: int) -> int
    decreases m,
{
    if m <= 0 {
        -1
    } else if index_of(order, x, m - 1) >= 0 {
        index_of(order, x, m - 1)
    } else if order[m - 1].0 == x {
        m - 1
    } else {
        -1
    }
}

/// How many steps the entry at `j` of a walk is from where the walk
/// started: none for a changed file, one more than its parent otherwise.
#[verifier::opaque]
pub open spec fn level(order: Seq<(u32, Option<u32>)>, j: int) -> nat
    decreases j,
{
    if j < 0 || j >= order.len() {
        0
    } else {
        match order[j].1 {
            None => 0,
            Some(p) => {
                let i = index_of(order, p, j);
                if 0 <= i < j { 1 + level(order, i) } else { 0 }
            },
        }
    }
}

/// A changed file is no steps from the start; any other entry is one step
/// past its parent's first entry.
pub proof fn lemma_level_unfold(order: Seq<(u32, Option<u32>)>, j: int)
    requires
        0 <= j < order.len(),
    ensures
        order[j].1 is None ==> level(order, j) == 0,
        order[j].1 matches Some(p) ==> (0 <= index_of(order, p, j) < j ==> level(order, j) == 1 + level(order, index_of(order, p, j))),
{
    reveal(level);
}

proof fn lemma_index_of_push(order: Seq<(u32, Option<u32>)>, e: (u32, Option<u32>), x: u32, m: int)
    requires
        m <= order.len(),
    ensures
        index_of(order.push(e), x, m) == index_of(order, x, m),
    decreases m,
{
    if m > 0 {
        lemma_index_of_push(order, e, x, m - 1);
        assert(order.push(e)[m - 1] == order[m - 1]);
    }
}

proof fn lemma_level_push(order: Seq<(u32, Option<u32>)>, e: (u32, Option<u32>), j: int)
    requires
        0 <= j < order.len(),
    ensures
        level(order.push(e), j) == level(order, j),
    decreases j,
{
    reveal(level);
    assert(order.push(e)[j] == order[j]);
    if let Some(p) = order[j].1 {
        lemma_index_of_push(order, e, p, j);
        let i = index_of(order, p, j);
        if 0 <= i < j {
            lemma_level_push(order, e, i);
        }
    }
}

proof fn lemma_levels_push(order: Seq<(u32, Option<u32>)>, e: (u32, Option<u32>))
    ensures
        forall|j: int| 0 <= j < order.len() ==> #[trigger] level(order.push(e), j) == level(order, j),
{
    assert forall|j: int| 0 <= j < order.len() implies #[trigger] level(order.push(e), j) == level(order, j) by {
        lemma_level_push(order, e, j);
    }
}

/// The first position of `x` before `m` is `h` when `h` holds it and none
/// before does.
proof fn lemma_index_of_first(order: Seq<(u32, Option<u32>)>, x: u32, h: int, m: int)
    requires
        0 <= h < m <= order.len(),
        order[h].0 == x,
        forall|q: int| 0 <= q < h ==> (#[trigger] order[q]).0 != x,
    ensures
        index_of(order, x, m) == h,
    decreases m,
{
    if m - 1 > h {
        lemma_index_of_first(order, x, h, m - 1);
    } else {
        lemma_index_of_absent(order, x, h);
    }
}

proof fn lemma_index_of_absent(order: Seq<(u32, Option<u32>)>, x: u32, m: int)
    requires
        0 <= m <= order.len(),
        forall|q: int| 0 <= q < m ==> (#[trigger] order[q]).0 != x,
    ensures
        index_of(order, x, m) == -1,
    decreases m,
{
    if m > 0 {
        lemma_index_of_absent(order, x, m - 1);
    }
}

/// Where the ids of `order` are distinct, any position holding `x` is the
/// first.
proof fn lemma_index_of_unique(order: Seq<(u32, Option<u32>)>, x: u32, h: int, m: int)
    requires
        0 <= h < m <= order.len(),
        order[h].0 == x,
        forall|i: int, j: int| 0 <= i < j < order.len() ==> order[i].0 != order[j].0,
    ensures
        index_of(order, x, m) == h,
{
    assert forall|q: int| 0 <= q < h implies (#[trigger] order[q]).0 != x by {
        assert(order[q].0 != order[h].0);
    }
    lemma_index_of_first(order, x, h, m);
}

/// The steps from the walk's start to `x`, read at its first entry.
pub open spec fn step_of(order: Seq<(u32, Option<u32>)>, x: int) -> nat {
    level(order, index_of(order, x as u32, order.len() as int))
}

/// The first position of a value that occurs holds it.
proof fn lemma_index_of_found(order: Seq<(u32, Option<u32>)>, x: u32, w: int, m: int)
    requires
        0 <= w < m <= order.len(),
        order[w].0 == x,
    ensures
        0 <= index_of(order, x, m) <= w,
        order[index_of(order, x, m)].0 == x,
    decreases m,
{
    if m - 1 > w {
        lemma_index_of_found(order, x, w, m - 1);
    } else if index_of(order, x, m - 1) >= 0 {
        lemma_index_of_found_any(order, x, m - 1);
    }
}

proof fn lemma_index_of_found_any(order: Seq<(u32, Option<u32>)>, x: u32, m: int)
    requires
        0 <= m <= order.len(),
    ensures
        index_of(order, x, m) >= 0 ==> index_of(order, x, m) < m && order[index_of(order, x, m)].0 == x,
    decreases m,
{
    if m > 0 {
        lemma_index_of_found_any(order, x, m - 1);
    }
}

/// Pushing an entry keeps the steps of every value already reached, and
/// gives a value not reached before the new entry's steps.
proof fn lemma_step_push(order: Seq<(u32, Option<u32>)>, e: (u32, Option<u32>), x: int)
    requires
        0 <= x < u32::MAX,
    ensures
        reached(order, x) ==> step_of(order.push(e), x) == step_of(order, x),
        !reached(order, x) && e.0 as int == x ==> step_of(order.push(e), x) == level(order.push(e), order.len() as int),
{
    let o2 = order.push(e);
    let m = order.len() as int;
    lemma_index_of_push(order, e, x as u32, m);
    if reached(order, x) {
        let w = choose|w: int| 0 <= w < order.len() && order[w].0 as int == x;
        lemma_index_of_found(order, x as u32, w, m);
        lemma_level_push(order, e, index_of(order, x as u32, m));
    } else if e.0 as int == x {
        assert forall|q: int| 0 <= q < m implies (#[trigger] order[q]).0 != x as u32 by {
            if order[q].0 == x as u32 {
                assert(reached(order, x));
            }
        }
        lemma_index_of_absent(order, x as u32, m);
        assert(o2[m].0 == x as u32);
    }
}

/// One more file reached from the entry at `head`: it sits one step past
/// `head`, the earlier entries keep their steps, and the steps still never
/// fall along the walk nor pass `head`'s by more than one.
proof fn lemma_level_step(order: Seq<(u32, Option<u32>)>, head: int, imp: u32)
    requires
        0 <= head < order.len(),
        forall|i: int, j: int| 0 <= i < j < order.len() ==> order[i].0 != order[j].0,
        forall|i: int, j: int| 0 <= i <= j < order.len() ==> #[trigger] level(order, i) <= #[trigger] level(order, j),
        forall|j: int| 0 <= j < order.len() ==> #[trigger] level(order, j) <= level(order, head) + 1,
    ensures
        ({
            let o2 = order.push((imp, Some(order[head].0)));
            &&& level(o2, order.len() as int) == level(order, head) + 1
            &&& forall|j: int| 0 <= j < order.len() ==> #[trigger] level(o2, j) == level(order, j)
            &&& forall|i: int, j: int| 0 <= i <= j < o2.len() ==> #[trigger] level(o2, i) <= #[trigger] level(o2, j)
            &&& forall|j: int| 0 <= j < o2.len() ==> #[trigger] level(o2, j) <= level(o2, head) + 1
        }),
{
    reveal(level);
    let e = (imp, Some(order[head].0));
    let o2 = order.push(e);
    let last = order.len() as int;
    lemma_levels_push(order, e);
    lemma_index_of_push(order, e, order[head].0, last);
    lemma_index_of_unique(order, order[head].0, head, last);
    assert(o2[last] == e);
    assert(level(o2, head) == level(order, head));
    assert(level(o2, last) == 1 + level(o2, head));
    assert forall|i: int, j: int| 0 <= i <= j < o2.len() implies #[trigger] level(o2, i) <= #[trigger] level(o2, j) by {
        if j < last {
            assert(level(order, i) <= level(order, j));
        } else if i < last {
            assert(level(order, i) <= level(order, head) + 1);
        }
    }
    assert forall|j: int| 0 <= j < o2.len() implies #[trigger] level(o2, j) <= level(o2, head) + 1 by {
        if j < last {
            assert(level(order, j) <= level(order, head) + 1);
        }
    }
}

/// One more file reached by the walk keeps what the walk knows of steps:
/// no changed file gets a parent, steps never fall along the walk nor pass
/// `head`'s by more than one, and the importers seen so far stay within one
/// step of what imports them.
proof fn lemma_walk_push(
    g: &Graph,
    changed: Seq<u32>,
    old_order: Seq<(u32, Option<u32>)>,
    seen0: Seq<bool>,
    head: int,
    imp: u32,
    found: Seq<(u32, Option<EdgeKind>)>,
    k: int,
)
    requires
        g.files.len() < u32::MAX,
        seen0.len() == g.files.len(),
        0 <= head < old_order.len(),
        0 <= k < found.len(),
        found[k].0 == imp,
        (imp as int) < g.files.len(),
        !seen0[imp as int],
        forall|j: int| 0 <= j < old_order.len() ==> (#[trigger] old_order[j].0 as int) < g.files.len() && seen0[old_order[j].0 as int],
        forall|i: int| 0 <= i < changed.len() ==> reached(old_order, #[trigger] changed[i] as int),
        forall|x: int| 0 <= x < g.files.len() && #[trigger] seen0[x] ==> reached(old_order, x),
        forall|i: int| 0 <= i < found.len() ==> (#[trigger] found[i].0 as int) < g.files.len(),
        forall|i: int, j: int| 0 <= i < j < old_order.len() ==> old_order[i].0 != old_order[j].0,
        forall|j: int| 0 <= j < old_order.len() ==> (changed.contains(#[trigger] old_order[j].0) ==> old_order[j].1 is None),
        forall|i: int, j: int| 0 <= i <= j < old_order.len() ==> #[trigger] level(old_order, i) <= #[trigger] level(old_order, j),
        forall|j: int| 0 <= j < old_order.len() ==> #[trigger] level(old_order, j) <= level(old_order, head) + 1,
        forall|j: int, x: int| 0 <= j < head && 0 <= x < g.files.len() && #[trigger] g.imports(x, old_order[j].0 as int) ==>
            seen0[x] && step_of(old_order, x) <= level(old_order, j) + 1,
        forall|i: int| 0 <= i < k ==> seen0[(#[trigger] found[i]).0 as int]
            && step_of(old_order, found[i].0 as int) <= level(old_order, head) + 1,
    ensures
        ({
            let order = old_order.push((imp, Some(old_order[head].0)));
            &&& forall|j: int| 0 <= j < order.len() ==> (changed.contains(#[trigger] order[j].0) ==> order[j].1 is None)
            &&& forall|i: int, j: int| 0 <= i <= j < order.len() ==> #[trigger] level(order, i) <= #[trigger] level(order, j)
            &&& forall|j: int| 0 <= j < order.len() ==> #[trigger] level(order, j) <= level(order, head) + 1
            &&& forall|j: int, x: int| 0 <= j < head && 0 <= x < g.files.len() && #[trigger] g.imports(x, order[j].0 as int) ==>
                step_of(order, x) <= level(order, j) + 1
            &&& forall|i: int| 0 <= i < k + 1 ==> step_of(order, (#[trigger] found[i]).0 as int) <= level(order, head) + 1
        }),
{
    let file = old_order[head].0;
    let order = old_order.push((imp, Some(file)));
    let last = old_order.len() as int;
    let n = g.files.len() as int;
    let e = (imp, Some(file));
    lemma_level_step(old_order, head, imp);
    assert(order[last].0 == imp);
    assert(!changed.contains(imp)) by {
        if changed.contains(imp) {
            let i = choose|i: int| 0 <= i < changed.len() && changed[i] == imp;
            assert(reached(old_order, changed[i] as int));
            let j = choose|j: int| 0 <= j < old_order.len() && old_order[j].0 as int == changed[i] as int;
            assert(seen0[old_order[j].0 as int]);
        }
    }
    assert forall|j: int| 0 <= j < order.len() implies (changed.contains(#[trigger] order[j].0) ==> order[j].1 is None) by {
        if j < last {
            assert(order[j] == old_order[j]);
        }
    }
    assert forall|j: int, x: int| 0 <= j < head && 0 <= x < n && #[trigger] g.imports(x, order[j].0 as int) implies
        step_of(order, x) <= level(order, j) + 1 by {
        assert(order[j] == old_order[j]);
        assert(g.imports(x, old_order[j].0 as int));
        assert(seen0[x]);
        lemma_step_push(old_order, e, x);
    }
    assert forall|i: int| 0 <= i < k + 1 implies step_of(order, (#[trigger] found[i]).0 as int) <= level(order, head) + 1 by {
        let x = found[i].0 as int;
        lemma_step_push(old_order, e, x);
        if i < k {
            assert(seen0[x]);
        } else {
            assert(!reached(old_order, x)) by {
                if reached(old_order, x) {
                    let q = choose|q: int| 0 <= q < old_order.len() && old_order[q].0 as int == x;
                    assert(seen0[old_order[q].0 as int]);
                }
            }
        }
    }
}

/// Following a walk's parents from `x` back to a changed file: every file
/// whose path to `changed` has `len` files is reached at most `len - 1`
/// steps from it.
proof fn lemma_path_level(g: &Graph, order: Seq<(u32, Option<u32>)>, changed: Seq<u32>, path: Seq<int>, k: int)
    requires
        g.files.len() < u32::MAX,
        path.len() >= 1,
        0 <= k < path.len(),
        forall|i: int| 0 <= i < path.len() ==> 0 <= #[trigger] path[i] < g.files.len(),
        forall|i: int| 0 <= i < path.len() - 1 ==> g.imports(#[trigger] path[i], path[i + 1]),
        changed.contains(path.last() as u32),
        forall|i: int| 0 <= i < changed.len() ==> reached(order, #[trigger] changed[i] as int) && step_of(order, changed[i] as int) == 0,
        forall|j: int, f: int| 0 <= j < order.len() && 0 <= f < g.files.len() && #[trigger] g.imports(f, order[j].0 as int)
            ==> reached(order, f) && step_of(order, f) <= level(order, j) + 1,
    ensures
        reached(order, path[k]),
        step_of(order, path[k]) + k + 1 <= path.len(),
    decreases path.len() - k,
{
    if k == path.len() - 1 {
        let i = choose|i: int| 0 <= i < changed.len() && changed[i] == path.last() as u32;
        assert(changed[i] as int == path[k]);
    } else {
        lemma_path_level(g, order, changed, path, k + 1);
        let x = path[k + 1];
        let w = choose|w: int| 0 <= w < order.len() && order[w].0 as int == x;
        lemma_index_of_found(order, x as u32, w, order.len() as int);
        let j = index_of(order, x as u32, order.len() as int);
        assert(g.imports(path[k], path[k + 1]));
        assert(g.imports(path[k], order[j].0 as int));
    }
}

pub open spec fn reached(order: Seq<(u32, Option<u32>)>, x: int) -> bool {
    exists|j: int| 0 <= j < order.len() && order[j].0 as int == x
}

/// The importers of `id` among the first `m` files, by id.
pub open spec fn importers_upto(g: &Graph, id: int, m: int) -> Seq<(u32, Option<EdgeKind>)>
    decreases m,
{
    if m <= 0 {
        Seq::empty()
    } else {
        let before = importers_upto(g, id, m - 1);
        match direct_kind(g.deps@, m - 1, id) {
            Some(k) => before.push(((m - 1) as u32, Some(k))),
            None => if g.package_of@[id] matches Some(p) && g.package_importers@[p as int]@.contains((m - 1) as u32) {
                before.push(((m - 1) as u32, None))
            } else {
                before
            },
        }
    }
}

pub open spec fn count_true(s: Seq<bool>) -> nat
    decreases s.len(),
{
    if s.len() == 0 {
        0
    } else {
        count_true(s.drop_last()) + if s.last() { 1nat } else { 0nat }
    }
}

/// The first package named `name` among the first `m`, or `m`.
pub open spec fn first_named(packages: Seq<String>, name: Seq<char>, m: int) -> int
    decreases m,
{
    if m <= 0 {
        0
    } else if first_named(packages, name, m - 1) < m - 1 {
        first_named(packages, name, m - 1)
    } else if packages[m - 1]@ == name {
        m - 1
    } else {
        m
    }
}

proof fn lemma_first_named(packages: Seq<String>, name: Seq<char>, p: int)
    requires
        0 <= p <= packages.len(),
        forall|q: int| 0 <= q < p ==> (#[trigger] packages[q])@ != name,
        p == packages.len() || packages[p]@ == name,
    ensures
        first_named(packages, name, packages.len() as int) == p,
{
    lemma_first_named_upto(packages, name, p, packages.len() as int);
}

proof fn lemma_first_named_upto(packages: Seq<String>, name: Seq<char>, p: int, m: int)
    requires
        0 <= p <= packages.len(),
        0 <= m <= packages.len(),
        forall|q: int| 0 <= q < p ==> (#[trigger] packages[q])@ != name,
        p == packages.len() || packages[p]@ == name,
    ensures
        first_named(packages, name, m) == if m <= p { m } else { p },
    decreases m,
{
    if m > 0 {
        lemma_first_named_upto(packages, name, p, m - 1);
    }
}

proof fn lemma_count_true_none(s: Seq<bool>)
    requires
        forall|i: int| 0 <= i < s.len() ==> !s[i],
    ensures
        count_true(s) == 0,
    decreases s.len(),
{
    if s.len() > 0 {
        lemma_count_true_none(s.drop_last());
    }
}

proof fn lemma_count_true_bound(s: Seq<bool>)
    ensures
        count_true(s) <= s.len(),
    decreases s.len(),
{
    if s.len() > 0 {
        lemma_count_true_bound(s.drop_last());
    }
}

proof fn lemma_count_true_set(s: Seq<bool>, i: int)
    requires
        0 <= i < s.len(),
        !s[i],
    ensures
        count_true(s.update(i, true)) == count_true(s) + 1,
    decreases s.len(),
{
    let t = s.update(i, true);
    if i == s.len() - 1 {
        assert(t.drop_last() =~= s.drop_last());
    } else {
        assert(t.drop_last() =~= s.drop_last().update(i, true));
        lemma_count_true_set(s.drop_last(), i);
    }
}

pub proof fn lemma_last_at(files: Seq<String>, file: Seq<char>, m: int)
    requires
        0 <= m <= files.len(),
    ensures
        last_at(files, file, m) matches Some(i) ==> 0 <= i < m && files[i]@ == file,
    decreases m,
{
    if m > 0 {
        lemma_last_at(files, file, m - 1);
    }
}

proof fn lemma_last_at_bound(files: Seq<String>, file: Seq<char>, m: int)
    requires
        0 <= m <= files.len(),
    ensures
        last_at(files, file, m) matches Some(i) ==> 0 <= i < m,
    decreases m,
{
    if m > 0 {
        lemma_last_at_bound(files, file, m - 1);
    }
}

proof fn lemma_deepest(dirs: Seq<String>, file: Seq<char>, m: int)
    requires
        0 <= m <= dirs.len(),
    ensures
        deepest(dirs, file, m) matches Some(i) ==> 0 <= i < m,
    decreases m,
{
    if m > 0 {
        lemma_deepest(dirs, file, m - 1);
    }
}

proof fn lemma_has_edge_push(
    before: Seq<Vec<(u32, EdgeKind)>>,
    after: Seq<Vec<(u32, EdgeKind)>>,
    at: int,
    e: (u32, EdgeKind),
    f: int,
    t: int,
    k: EdgeKind,
)
    requires
        0 <= at < before.len(),
        after.len() == before.len(),
        0 <= f < before.len(),
        after[at]@ == before[at]@.push(e),
        forall|x: int| 0 <= x < before.len() && x != at ==> after[x] == before[x],
    ensures
        has_edge(after, f, t, k) <==> (has_edge(before, f, t, k) || (f == at && e == (t as u32, k))),
{
    if has_edge(after, f, t, k) {
        let j = choose|j: int| 0 <= j < after[f].len() && #[trigger] after[f]@[j] == (t as u32, k);
        if f != at || j < before[at]@.len() {
            assert(before[f]@[j] == (t as u32, k));
        }
    }
    if has_edge(before, f, t, k) {
        let j = choose|j: int| 0 <= j < before[f].len() && #[trigger] before[f]@[j] == (t as u32, k);
        assert(after[f]@[j] == (t as u32, k));
    }
    if f == at && e == (t as u32, k) {
        assert(after[f]@[before[at]@.len() as int] == (t as u32, k));
    }
}

/// What `importers` computes from its per-file summary is the spec's kind.
proof fn lemma_direct_kind(g: &Graph, f: int, id: int, b: nat)
    requires
        g.wf(),
        0 <= f < g.files.len(),
        0 <= id < g.files.len(),
        b <= 8,
        b < 8 ==> has_edge(g.rdeps@, id, f, kind_of(b)),
        forall|i: int| 0 <= i < g.rdeps@[id]@.len() && (#[trigger] g.rdeps@[id]@[i]).0 == f ==> b <= rank(g.rdeps@[id]@[i].1),
    ensures
        b < 8 ==> direct_kind(g.deps@, f, id) == Some(kind_of(b)),
        b == 8 ==> direct_kind(g.deps@, f, id) is None,
{
    assert forall|k: EdgeKind| has_edge(g.deps@, f, id, k) implies b <= rank(k) by {
        assert(has_edge(g.deps@, f, id, k) <==> has_edge(g.rdeps@, id, f, k));
        let i = choose|i: int| 0 <= i < g.rdeps@[id].len() && #[trigger] g.rdeps@[id]@[i] == (f as u32, k);
        assert(g.rdeps@[id]@[i].0 == f);
    }
    assert(has_edge(g.deps@, f, id, EdgeKind::Import) ==> b <= 0);
    assert(has_edge(g.deps@, f, id, EdgeKind::TypeImport) ==> b <= 1);
    assert(has_edge(g.deps@, f, id, EdgeKind::Dynamic) ==> b <= 2);
    assert(has_edge(g.deps@, f, id, EdgeKind::Require) ==> b <= 3);
    assert(has_edge(g.deps@, f, id, EdgeKind::Mock) ==> b <= 4);
    assert(has_edge(g.deps@, f, id, EdgeKind::PathLiteral) ==> b <= 5);
    assert(has_edge(g.deps@, f, id, EdgeKind::Snapshot) ==> b <= 6);
    assert(has_edge(g.deps@, f, id, EdgeKind::Rule) ==> b <= 7);
}

proof fn lemma_importers_upto(g: &Graph, id: int, m: int)
    requires
        g.wf(),
        0 <= id < g.files.len(),
        0 <= m <= g.files.len(),
    ensures
        forall|x: int| 0 <= x < m ==> (#[trigger] g.imports(x, id) <==> exists|i: int| 0 <= i < importers_upto(g, id, m).len() && importers_upto(g, id, m)[i].0 == x),
        forall|i: int| 0 <= i < importers_upto(g, id, m).len() ==> (#[trigger] importers_upto(g, id, m)[i].0 as int) < m,
    decreases m,
{
    if m > 0 {
        lemma_importers_upto(g, id, m - 1);
        let before = importers_upto(g, id, m - 1);
        let now = importers_upto(g, id, m);
        let x0 = m - 1;
        assert(g.imports(x0, id) <==> (direct_kind(g.deps@, x0, id) is Some
            || (g.package_of@[id] matches Some(p) && g.package_importers@[p as int]@.contains(x0 as u32)))) by {
            if exists|k: EdgeKind| #[trigger] has_edge(g.deps@, x0, id, k) {
                let k = choose|k: EdgeKind| #[trigger] has_edge(g.deps@, x0, id, k);
                match k {
                    EdgeKind::Import => {},
                    EdgeKind::TypeImport => {},
                    EdgeKind::Dynamic => {},
                    EdgeKind::Require => {},
                    EdgeKind::Mock => {},
                    EdgeKind::PathLiteral => {},
                    EdgeKind::Snapshot => {},
                    EdgeKind::Rule => {},
                }
            }
        }
        assert forall|x: int| 0 <= x < m implies (#[trigger] g.imports(x, id) <==> exists|i: int| 0 <= i < now.len() && now[i].0 == x) by {
            if x < m - 1 {
                if exists|i: int| 0 <= i < now.len() && now[i].0 == x {
                    let i = choose|i: int| 0 <= i < now.len() && now[i].0 == x;
                    if i >= before.len() {
                        assert(now[i].0 == x0);
                    } else {
                        assert(before[i] == now[i]);
                    }
                }
                if g.imports(x, id) {
                    let i = choose|i: int| 0 <= i < before.len() && before[i].0 == x;
                    assert(now[i] == before[i]);
                }
            } else {
                if exists|i: int| 0 <= i < now.len() && now[i].0 == x {
                    let i = choose|i: int| 0 <= i < now.len() && now[i].0 == x;
                    if i < before.len() {
                        assert(before[i] == now[i]);
                    }
                }
                if g.imports(x, id) {
                    assert(now[before.len() as int].0 == x);
                }
            }
        }
        assert forall|i: int| 0 <= i < now.len() implies (#[trigger] now[i].0 as int) < m by {
            if i < before.len() {
                assert(before[i] == now[i]);
            }
        }
    }
}

proof fn lemma_importers_exact(g: &Graph, id: int, n: int)
    requires
        g.wf(),
        0 <= id < g.files.len(),
        n == g.files.len(),
    ensures
        forall|x: int| 0 <= x < n ==> (#[trigger] g.imports(x, id) <==> exists|i: int| 0 <= i < importers_upto(g, id, n).len() && importers_upto(g, id, n)[i].0 == x),
        forall|i: int| 0 <= i < importers_upto(g, id, n).len() ==> (#[trigger] importers_upto(g, id, n)[i].0 as int) < n,
{
    lemma_importers_upto(g, id, n);
}

fn contains_id(list: &Vec<u32>, id: u32) -> (r: bool)
    ensures
        r == list@.contains(id),
{
    let mut i: usize = 0;
    while i < list.len()
        invariant
            i <= list.len(),
            forall|j: int| 0 <= j < i ==> list@[j] != id,
        decreases list.len() - i,
    {
        if list[i] == id {
            return true;
        }
        i = i + 1;
    }
    false
}

fn contains_edge(list: &Vec<(u32, EdgeKind)>, to: u32, kind: EdgeKind) -> (r: bool)
    ensures
        r == exists|j: int| 0 <= j < list@.len() && list@[j] == (to, kind),
{
    let mut i: usize = 0;
    while i < list.len()
        invariant
            i <= list.len(),
            forall|j: int| 0 <= j < i ==> list@[j] != (to, kind),
        decreases list.len() - i,
    {
        if list[i].0 == to && list[i].1 == kind {
            return true;
        }
        i = i + 1;
    }
    false
}

/// The package folder `file` sits deepest in: the longest one it starts
/// with, the later of two as long.
fn deepest_dir(dirs: &Vec<String>, file: &str) -> (r: Option<u32>)
    requires
        dirs.len() < u32::MAX,
    ensures
        r == as_opt_u32(deepest(dirs@, file@, dirs.len() as int)),
{
    let f = chars_of(file);
    let mut best: Option<usize> = None;
    let mut best_len: usize = 0;
    let mut i: usize = 0;
    while i < dirs.len()
        invariant
            i <= dirs.len() < u32::MAX,
            f@ == file@,
            match best {
                Some(b) => deepest(dirs@, file@, i as int) == Some(b as int) && best_len == dirs@[b as int]@.len() && b < i,
                None => deepest(dirs@, file@, i as int) is None,
            },
        decreases dirs.len() - i,
    {
        let d = chars_of(dirs[i].as_str());
        let is_prefix = starts_with_at(&f, 0, dirs[i].as_str());
        proof {
            if is_prefix {
                assert(f@.subrange(0, dirs@[i as int]@.len() as int) =~= dirs@[i as int]@);
            } else {
                if dirs@[i as int]@.is_prefix_of(file@) {
                    assert(f@.subrange(0, dirs@[i as int]@.len() as int) =~= dirs@[i as int]@);
                }
            }
        }
        if is_prefix {
            match best {
                Some(_) => {
                    if d.len() >= best_len {
                        best = Some(i);
                        best_len = d.len();
                    }
                },
                None => {
                    best = Some(i);
                    best_len = d.len();
                },
            }
        }
        i = i + 1;
    }
    match best {
        Some(b) => Some(b as u32),
        None => None,
    }
}


/// What `add_edge` does: a new edge between two files is recorded once at
/// each end; a loop or an edge already there changes nothing.
pub open spec fn edge_step(a: Graph, b: Graph, from: u32, to: u32, kind: EdgeKind) -> bool {
    &&& b.files == a.files
    &&& if from != to && !has_edge(a.deps@, from as int, to as int, kind) {
        &&& pushed_at(a.deps@, b.deps@, from as int, (to, kind))
        &&& pushed_at(a.rdeps@, b.rdeps@, to as int, (from, kind))
    } else {
        &&& b.deps == a.deps
        &&& b.rdeps == a.rdeps
    }
}

/// Law: adding an edge twice is adding it once.
pub proof fn lemma_add_edge_twice(a: Graph, b: Graph, c: Graph, from: u32, to: u32, kind: EdgeKind)
    requires
        (from as int) < a.deps.len(),
        edge_step(a, b, from, to, kind),
        edge_step(b, c, from, to, kind),
    ensures
        c.deps == b.deps,
        c.rdeps == b.rdeps,
{
    if from != to && !has_edge(a.deps@, from as int, to as int, kind) {
        let j = a.deps@[from as int]@.len() as int;
        assert(b.deps@[from as int]@[j] == (to, kind));
        assert(has_edge(b.deps@, from as int, to as int, kind));
    }
}

/// What `add_package_edge` does to the package edges: `from` joins the
/// importers of the package named `package`, unless it is there already.
pub open spec fn package_step(a: Graph, b: Graph, from: u32, package: Seq<char>) -> bool {
    &&& b.packages == a.packages
    &&& b.package_importers.len() == a.package_importers.len()
    &&& forall|p: int| 0 <= p < a.packages.len() ==> (#[trigger] b.package_importers@[p])@
        == if p == first_named(a.packages@, package, a.packages.len() as int)
            && !a.package_importers@[p]@.contains(from) {
            a.package_importers@[p]@.push(from)
        } else {
            a.package_importers@[p]@
        }
}

/// Law: adding a package edge twice is adding it once.
pub proof fn lemma_add_package_edge_twice(a: Graph, b: Graph, c: Graph, from: u32, package: Seq<char>)
    requires
        a.package_importers.len() == a.packages.len(),
        package_step(a, b, from, package),
        package_step(b, c, from, package),
    ensures
        forall|p: int| 0 <= p < c.packages.len() ==> (#[trigger] c.package_importers@[p])@ == b.package_importers@[p]@,
{
    assert forall|p: int| 0 <= p < c.packages.len() implies (#[trigger] c.package_importers@[p])@ == b.package_importers@[p]@ by {
        if p == first_named(a.packages@, package, a.packages.len() as int) && !a.package_importers@[p]@.contains(from) {
            let l = b.package_importers@[p]@;
            assert(l[l.len() - 1] == from);
            assert(l.contains(from));
        }
    }
}

/// What `add_phantom` does: a file already in the graph changes nothing;
/// a new one is added at the end.
pub open spec fn phantom_step(a: Graph, b: Graph, file: Seq<char>, id: u32) -> bool {
    match last_at(a.files@, file, a.files.len() as int) {
        Some(i) => id == i && b == a,
        None => {
            &&& id == a.files.len()
            &&& b.files@.len() == a.files.len() + 1
            &&& b.files@[id as int]@ == file
        },
    }
}

/// Law: adding the same phantom twice gives the same id and the second
/// call changes nothing.
pub proof fn lemma_add_phantom_twice(a: Graph, b: Graph, c: Graph, file: Seq<char>, id1: u32, id2: u32)
    requires
        phantom_step(a, b, file, id1),
        phantom_step(b, c, file, id2),
    ensures
        id2 == id1,
        c == b,
{
    match last_at(a.files@, file, a.files.len() as int) {
        Some(i) => {},
        None => {
            assert(last_at(b.files@, file, b.files.len() as int) == Some(id1 as int));
        },
    }
}

/// The importers listed up to `m` come in increasing order of file.
proof fn lemma_importers_sorted(g: &Graph, id: int, m: int)
    requires
        g.wf(),
        0 <= id < g.files.len(),
        0 <= m <= g.files.len(),
    ensures
        forall|i: int, j: int| 0 <= i < j < importers_upto(g, id, m).len()
            ==> importers_upto(g, id, m)[i].0 < importers_upto(g, id, m)[j].0,
    decreases m,
{
    if m > 0 {
        lemma_importers_sorted(g, id, m - 1);
        lemma_importers_upto(g, id, m - 1);
        let before = importers_upto(g, id, m - 1);
        let r = importers_upto(g, id, m);
        assert forall|i: int, j: int| 0 <= i < j < r.len() implies r[i].0 < r[j].0 by {
            if j < before.len() {
                assert(r[i] == before[i] && r[j] == before[j]);
            } else {
                assert(r[i] == before[i]);
                assert((before[i].0 as int) < m - 1);
                assert(r[j].0 == (m - 1) as u32);
            }
        }
    }
}

/// Law: the importers of a file are listed by increasing file, once each,
/// exactly the files that import it, a direct edge naming its first kind
/// and a package edge none.
pub proof fn lemma_importers_law(g: &Graph, id: int)
    requires
        g.wf(),
        0 <= id < g.files.len(),
    ensures
        ({
            let r = importers_upto(g, id, g.files.len() as int);
            &&& forall|i: int, j: int| 0 <= i < j < r.len() ==> r[i].0 < r[j].0
            &&& forall|x: int| 0 <= x < g.files.len() ==> (#[trigger] g.imports(x, id) <==> exists|i: int| 0 <= i < r.len() && r[i].0 == x)
            &&& forall|i: int| 0 <= i < r.len() ==> (#[trigger] r[i]).1 == direct_kind(g.deps@, r[i].0 as int, id)
        }),
{
    lemma_importers_sorted(g, id, g.files.len() as int);
    lemma_importers_exact(g, id, g.files.len() as int);
    lemma_importers_kinds(g, id, g.files.len() as int);
}

proof fn lemma_importers_kinds(g: &Graph, id: int, m: int)
    requires
        g.wf(),
        0 <= id < g.files.len(),
        0 <= m <= g.files.len(),
    ensures
        forall|i: int| 0 <= i < importers_upto(g, id, m).len() ==> (#[trigger] importers_upto(g, id, m)[i]).1
            == direct_kind(g.deps@, importers_upto(g, id, m)[i].0 as int, id),
    decreases m,
{
    if m > 0 {
        lemma_importers_kinds(g, id, m - 1);
        let before = importers_upto(g, id, m - 1);
        let r = importers_upto(g, id, m);
        assert forall|i: int| 0 <= i < r.len() implies (#[trigger] r[i]).1 == direct_kind(g.deps@, r[i].0 as int, id) by {
            if i < before.len() {
                assert(r[i] == before[i]);
            }
        }
    }
}

/// The edges and package edges of lists that are all empty are none.
proof fn lemma_sum_lens_empty<T>(lists: Seq<Vec<T>>)
    requires
        forall|i: int| 0 <= i < lists.len() ==> (#[trigger] lists[i])@.len() == 0,
    ensures
        sum_lens(lists) == 0,
    decreases lists.len(),
{
    if lists.len() > 0 {
        let d = lists.drop_last();
        assert forall|i: int| 0 <= i < d.len() implies (#[trigger] d[i])@.len() == 0 by {
            assert(d[i] == lists[i]);
        }
        lemma_sum_lens_empty(d);
    }
}

/// Law: a fresh graph has no edges and no package edges, no file imports
/// another, and each of distinct files has its own position as its id.
pub proof fn lemma_fresh_graph(g: &Graph)
    requires
        g.wf(),
        forall|f: int| 0 <= f < g.files.len() ==> (#[trigger] g.deps@[f])@.len() == 0,
        forall|p: int| 0 <= p < g.packages.len() ==> (#[trigger] g.package_importers@[p])@.len() == 0,
    ensures
        sum_lens(g.deps@) == 0,
        sum_lens(g.package_importers@) == 0,
        forall|x: int, f: int| 0 <= x < g.files.len() && 0 <= f < g.files.len() ==> !#[trigger] g.imports(x, f),
        (forall|i: int, j: int| 0 <= i < j < g.files.len() ==> g.files@[i]@ != g.files@[j]@) ==>
            forall|i: int| 0 <= i < g.files.len() ==> #[trigger] last_at(g.files@, g.files@[i]@, g.files.len() as int) == Some(i),
{
    lemma_sum_lens_empty(g.deps@);
    lemma_sum_lens_empty(g.package_importers@);
    assert forall|x: int, f: int| 0 <= x < g.files.len() && 0 <= f < g.files.len() implies !#[trigger] g.imports(x, f) by {
        if exists|k: EdgeKind| #[trigger] has_edge(g.deps@, x, f, k) {
            let k = choose|k: EdgeKind| #[trigger] has_edge(g.deps@, x, f, k);
            assert(g.deps@[x]@.len() == 0);
        }
        if let Some(p) = g.package_of[f] {
            assert(g.package_importers@[p as int]@.len() == 0);
        }
    }
    if forall|i: int, j: int| 0 <= i < j < g.files.len() ==> g.files@[i]@ != g.files@[j]@ {
        assert forall|i: int| 0 <= i < g.files.len() implies #[trigger] last_at(g.files@, g.files@[i]@, g.files.len() as int) == Some(i) by {
            lemma_last_at_distinct(g.files@, i, g.files.len() as int);
        }
    }
}

proof fn lemma_last_at_distinct(files: Seq<String>, i: int, m: int)
    requires
        0 <= i < m <= files.len(),
        forall|a: int, b: int| 0 <= a < b < files.len() ==> files[a]@ != files[b]@,
    ensures
        last_at(files, files[i]@, m) == Some(i),
    decreases m,
{
    if m - 1 > i {
        assert(files[i]@ != files[m - 1]@);
        lemma_last_at_distinct(files, i, m - 1);
    }
}

/// The rank order of the kinds in `by_kind`, their counts positive.
proof fn lemma_by_kind_shape(lists: Seq<Vec<(u32, EdgeKind)>>, r: nat)
    requires
        r <= 8,
        forall|k: EdgeKind| #[trigger] kind_total(lists, k) <= usize::MAX,
    ensures
        forall|i: int, j: int| 0 <= i < j < by_kind(lists, r).len() ==> rank(by_kind(lists, r)[i].0) < rank(by_kind(lists, r)[j].0),
        forall|i: int| 0 <= i < by_kind(lists, r).len() ==> (#[trigger] by_kind(lists, r)[i]).1 > 0 && rank(by_kind(lists, r)[i].0) < r,
    decreases r,
{
    if r > 0 {
        lemma_by_kind_shape(lists, (r - 1) as nat);
        assert(rank(kind_of((r - 1) as nat)) == r - 1);
        let before = by_kind(lists, (r - 1) as nat);
        let now = by_kind(lists, r);
        assert forall|i: int| 0 <= i < now.len() implies (#[trigger] now[i]).1 > 0 && rank(now[i].0) < r by {
            if i < before.len() {
                assert(now[i] == before[i]);
            } else {
                assert(kind_total(lists, kind_of((r - 1) as nat)) <= usize::MAX);
            }
        }
        assert forall|i: int, j: int| 0 <= i < j < now.len() implies rank(now[i].0) < rank(now[j].0) by {
            if j < before.len() {
                assert(now[i] == before[i] && now[j] == before[j]);
            } else {
                assert(now[i] == before[i]);
            }
        }
    }
}

/// Law: the kinds of `stats` come in their order, each with a positive
/// count.
pub proof fn lemma_stats_kinds(lists: Seq<Vec<(u32, EdgeKind)>>)
    requires
        forall|k: EdgeKind| #[trigger] kind_total(lists, k) <= usize::MAX,
    ensures
        forall|i: int, j: int| 0 <= i < j < by_kind(lists, 8).len() ==> rank(by_kind(lists, 8)[i].0) < rank(by_kind(lists, 8)[j].0),
        forall|i: int| 0 <= i < by_kind(lists, 8).len() ==> (#[trigger] by_kind(lists, 8)[i]).1 > 0,
{
    lemma_by_kind_shape(lists, 8);
}


/// The edges of `list` of the kinds below rank `r`.
pub open spec fn count_below(list: Seq<(u32, EdgeKind)>, r: nat) -> nat
    decreases r,
{
    if r == 0 { 0 } else { count_below(list, (r - 1) as nat) + kind_count(list, kind_of((r - 1) as nat)) }
}

/// The edges of all `lists` of the kinds below rank `r`.
pub open spec fn total_below(lists: Seq<Vec<(u32, EdgeKind)>>, r: nat) -> nat
    decreases r,
{
    if r == 0 { 0 } else { total_below(lists, (r - 1) as nat) + kind_total(lists, kind_of((r - 1) as nat)) }
}

/// The counts of a `by_kind` list, added up.
pub open spec fn counts_sum(s: Seq<(EdgeKind, usize)>) -> nat
    decreases s.len(),
{
    if s.len() == 0 { 0 } else { counts_sum(s.drop_last()) + s.last().1 as nat }
}

proof fn lemma_count_below_push(list: Seq<(u32, EdgeKind)>, e: (u32, EdgeKind), r: nat)
    requires
        r <= 8,
    ensures
        count_below(list.push(e), r) == count_below(list, r) + if rank(e.1) < r { 1nat } else { 0nat },
    decreases r,
{
    if r > 0 {
        lemma_count_below_push(list, e, (r - 1) as nat);
        assert(list.push(e).drop_last() =~= list);
        assert(kind_of(rank(e.1)) == e.1);
    }
}

proof fn lemma_count_below_len(list: Seq<(u32, EdgeKind)>)
    ensures
        count_below(list, 8) == list.len(),
    decreases list.len(),
{
    if list.len() == 0 {
        lemma_count_below_zero(list, 8);
    } else {
        lemma_count_below_len(list.drop_last());
        lemma_count_below_push(list.drop_last(), list.last(), 8);
        assert(list.drop_last().push(list.last()) =~= list);
    }
}

proof fn lemma_count_below_zero(list: Seq<(u32, EdgeKind)>, r: nat)
    requires
        list.len() == 0,
    ensures
        count_below(list, r) == 0,
    decreases r,
{
    if r > 0 {
        lemma_count_below_zero(list, (r - 1) as nat);
    }
}

proof fn lemma_total_below_split(lists: Seq<Vec<(u32, EdgeKind)>>, r: nat)
    requires
        lists.len() > 0,
    ensures
        total_below(lists, r) == total_below(lists.drop_last(), r) + count_below(lists.last()@, r),
    decreases r,
{
    if r > 0 {
        lemma_total_below_split(lists, (r - 1) as nat);
    }
}

proof fn lemma_total_below_empty(lists: Seq<Vec<(u32, EdgeKind)>>, r: nat)
    requires
        lists.len() == 0,
    ensures
        total_below(lists, r) == 0,
    decreases r,
{
    if r > 0 {
        lemma_total_below_empty(lists, (r - 1) as nat);
    }
}

/// Every edge has one kind: the kinds' totals add up to the edges.
proof fn lemma_total_below_all(lists: Seq<Vec<(u32, EdgeKind)>>)
    ensures
        total_below(lists, 8) == sum_lens(lists),
    decreases lists.len(),
{
    if lists.len() == 0 {
        lemma_total_below_empty(lists, 8);
    } else {
        lemma_total_below_all(lists.drop_last());
        lemma_total_below_split(lists, 8);
        lemma_count_below_len(lists.last()@);
    }
}

proof fn lemma_by_kind_sum(lists: Seq<Vec<(u32, EdgeKind)>>, r: nat)
    requires
        forall|k: EdgeKind| #[trigger] kind_total(lists, k) <= usize::MAX,
    ensures
        counts_sum(by_kind(lists, r)) == total_below(lists, r),
    decreases r,
{
    if r > 0 {
        lemma_by_kind_sum(lists, (r - 1) as nat);
        let before = by_kind(lists, (r - 1) as nat);
        let c = kind_total(lists, kind_of((r - 1) as nat));
        if c > 0 {
            assert(by_kind(lists, r).drop_last() =~= before);
        }
    }
}

/// Law: the counts by kind of `stats` add up to its edges.
pub proof fn lemma_stats_sum(lists: Seq<Vec<(u32, EdgeKind)>>)
    requires
        forall|k: EdgeKind| #[trigger] kind_total(lists, k) <= usize::MAX,
    ensures
        counts_sum(by_kind(lists, 8)) == sum_lens(lists),
{
    lemma_by_kind_sum(lists, 8);
    lemma_total_below_all(lists);
}


/// Each file of a walk from `changed` depends on one of them.
proof fn lemma_order_depends(g: &Graph, changed: Seq<u32>, order: Seq<(u32, Option<u32>)>, j: int)
    requires
        0 <= j < order.len(),
        forall|k: int| 0 <= k < order.len() ==> (#[trigger] order[k].0 as int) < g.files.len(),
        forall|k: int| 0 <= k < order.len() ==> (#[trigger] order[k].1 matches Some(p) ==>
            exists|i: int| 0 <= i < k && order[i].0 == p && g.imports(order[k].0 as int, p as int)),
        forall|k: int| 0 <= k < order.len() ==> (#[trigger] order[k].1 is None ==> changed.contains(order[k].0)),
    ensures
        exists|c: int| 0 <= c < g.files.len() && changed.contains(c as u32) && depends(g, order[j].0 as int, c),
    decreases j,
{
    let x = order[j].0 as int;
    assert((order[j].0 as int) < g.files.len());
    match order[j].1 {
        None => {
            assert(changed.contains(order[j].0));
            assert(is_path(g, seq![x], x, x));
            assert(depends(g, x, x));
            assert(x as u32 == order[j].0);
            assert(changed.contains(x as u32));
        },
        Some(p) => {
            let i = choose|i: int| 0 <= i < j && order[i].0 == p && g.imports(order[j].0 as int, p as int);
            lemma_order_depends(g, changed, order, i);
            let c = choose|c: int| 0 <= c < g.files.len() && changed.contains(c as u32) && depends(g, order[i].0 as int, c);
            let path = choose|path: Seq<int>| is_path(g, path, order[i].0 as int, c);
            let longer = seq![x] + path;
            assert(longer[0] == x);
            assert(longer.last() == path.last());
            assert forall|k: int| 0 <= k < longer.len() implies 0 <= #[trigger] longer[k] < g.files.len() by {
                if k > 0 {
                    assert(longer[k] == path[k - 1]);
                }
            }
            assert forall|k: int| 0 <= k < longer.len() - 1 implies g.imports(#[trigger] longer[k], longer[k + 1]) by {
                if k == 0 {
                    assert(longer[1] == path[0]);
                } else {
                    assert(longer[k] == path[k - 1] && longer[k + 1] == path[k]);
                }
            }
            assert(is_path(g, longer, x, c));
            assert(depends(g, x, c));
        },
    }
}

} // verus!
