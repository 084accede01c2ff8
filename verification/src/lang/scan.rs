//! What one source file contributes: the specifiers to resolve, what
//! their targets and path literals make of it (`FileResult`), and the test
//! a snapshot file belongs to. `lang::assemble` puts these into the graph;
//! the application lists the tree, reads the files and runs the resolver.
use vstd::prelude::*;

use crate::lang::extract::{Extracted, SpecKind};
use crate::lang::graph::EdgeKind;
use crate::lang::tree::{listed, normalize, normalized, parent, parent_of, Tree};
use crate::text::{chars_of, copy_str, ends_with_lit, last_index, rfind_char, same_str, string_range, strip_all};

verus! {

/// What a specifier resolved to.
#[derive(Debug, Clone, PartialEq, Eq)]
pub enum Target {
    /// A file in the repository, repo-relative.
    File(String),
    /// A workspace package whose target isn't on disk (build output, say):
    /// the edge goes to the whole package.
    Package(String),
    /// A package outside the repository, or a runtime builtin.
    External,
    /// A bare specifier that didn't resolve and names no workspace package.
    NotFound,
    /// Couldn't be resolved; the planner widens around it.
    Unresolved,
}

/// The edge a specifier of a kind makes.
pub open spec fn edge_of(k: SpecKind) -> EdgeKind {
    match k {
        SpecKind::Import => EdgeKind::Import,
        SpecKind::TypeImport => EdgeKind::TypeImport,
        SpecKind::Dynamic => EdgeKind::Dynamic,
        SpecKind::Require => EdgeKind::Require,
        SpecKind::Mock => EdgeKind::Mock,
    }
}

pub fn edge_kind(k: SpecKind) -> (r: EdgeKind)
    ensures
        r == edge_of(k),
{
    match k {
        SpecKind::Import => EdgeKind::Import,
        SpecKind::TypeImport => EdgeKind::TypeImport,
        SpecKind::Dynamic => EdgeKind::Dynamic,
        SpecKind::Require => EdgeKind::Require,
        SpecKind::Mock => EdgeKind::Mock,
    }
}

/// What one source file adds to the graph.
#[derive(Debug, Default)]
pub struct FileResult {
    pub edges: Vec<(String, EdgeKind)>,
    pub packages: Vec<String>,
    pub unresolved: Vec<String>,
    pub unknown: bool,
    pub fell_back: bool,
}

/// The specifiers a file's edges come from: every one, less type-only
/// imports when the config turns those off.
pub open spec fn followed(specs: Seq<(String, SpecKind)>, type_imports: bool) -> Seq<(String, SpecKind)> {
    specs.filter(|p: (String, SpecKind)| type_imports || p.1 != SpecKind::TypeImport)
}

/// The specifiers to resolve, in order.
pub fn to_resolve(ex: &Extracted, type_imports: bool) -> (r: Vec<(String, SpecKind)>)
    ensures
        r@.map_values(|p: (String, SpecKind)| (p.0@, p.1)) == followed(ex.specs@, type_imports).map_values(
            |p: (String, SpecKind)| (p.0@, p.1),
        ),
{
    let ghost keep = |p: (String, SpecKind)| type_imports || p.1 != SpecKind::TypeImport;
    let mut out: Vec<(String, SpecKind)> = Vec::new();
    let mut i: usize = 0;
    while i < ex.specs.len()
        invariant
            i <= ex.specs.len(),
            keep == (|p: (String, SpecKind)| type_imports || p.1 != SpecKind::TypeImport),
            out@.map_values(|p: (String, SpecKind)| (p.0@, p.1)) == ex.specs@.take(i as int).filter(keep).map_values(
                |p: (String, SpecKind)| (p.0@, p.1),
            ),
        decreases ex.specs.len() - i,
    {
        let ghost before = out@.map_values(|p: (String, SpecKind)| (p.0@, p.1));
        proof {
            reveal(Seq::filter);
            assert(ex.specs@.take(i as int + 1).drop_last() =~= ex.specs@.take(i as int));
        }
        let k = ex.specs[i].1;
        if type_imports || k != SpecKind::TypeImport {
            out.push((copy_str(ex.specs[i].0.as_str()), k));
            proof {
                assert(out@.map_values(|p: (String, SpecKind)| (p.0@, p.1)) =~= before.push((ex.specs@[i as int].0@, k)));
                assert(ex.specs@.take(i as int + 1).filter(keep) == ex.specs@.take(i as int).filter(keep).push(ex.specs@[i as int]));
            }
        } else {
            proof {
                assert(ex.specs@.take(i as int + 1).filter(keep) == ex.specs@.take(i as int).filter(keep));
            }
        }
        proof {
            assert(ex.specs@.take(i as int + 1).filter(keep).map_values(|p: (String, SpecKind)| (p.0@, p.1)) =~= out@.map_values(
                |p: (String, SpecKind)| (p.0@, p.1),
            ));
        }
        i = i + 1;
    }
    proof {
        assert(ex.specs@.take(i as int) =~= ex.specs@);
    }
    out
}

/// A target as text.
pub open spec fn target_view(t: Target) -> (int, Seq<char>) {
    match t {
        Target::File(f) => (0, f@),
        Target::Package(p) => (1, p@),
        Target::External => (2, Seq::empty()),
        Target::NotFound => (3, Seq::empty()),
        Target::Unresolved => (4, Seq::empty()),
    }
}

/// The edges the first `n` resolved specifiers make.
pub open spec fn spec_edges(specs: Seq<(String, SpecKind)>, targets: Seq<(Target, bool)>, n: int) -> Seq<(Seq<char>, EdgeKind)>
    decreases n,
{
    if n <= 0 {
        Seq::empty()
    } else {
        let rest = spec_edges(specs, targets, n - 1);
        match targets[n - 1].0 {
            Target::File(f) => rest.push((f@, edge_of(specs[n - 1].1))),
            _ => rest,
        }
    }
}

/// The packages the first `n` resolved specifiers reach as a whole.
pub open spec fn spec_packages(targets: Seq<(Target, bool)>, n: int) -> Seq<Seq<char>>
    decreases n,
{
    if n <= 0 {
        Seq::empty()
    } else {
        let rest = spec_packages(targets, n - 1);
        match targets[n - 1].0 {
            Target::Package(p) => rest.push(p@),
            _ => rest,
        }
    }
}

/// The first `n` specifiers that didn't resolve.
pub open spec fn spec_unresolved(specs: Seq<(String, SpecKind)>, targets: Seq<(Target, bool)>, n: int) -> Seq<Seq<char>>
    decreases n,
{
    if n <= 0 {
        Seq::empty()
    } else {
        let rest = spec_unresolved(specs, targets, n - 1);
        match targets[n - 1].0 {
            Target::Unresolved => rest.push(specs[n - 1].0@),
            _ => rest,
        }
    }
}

/// Where a path literal in `file` lands: beside the file, else from the
/// root without a leading `./`, whichever the tree holds first.
pub open spec fn literal_target(files: Seq<String>, file: Seq<char>, literal: Seq<char>) -> Option<Seq<char>> {
    match normalized(parent_of(file), literal) {
        Some(p) if listed(files, p) => Some(p),
        _ => match normalized(Seq::empty(), strip_all(literal, "./"@)) {
            Some(p) if listed(files, p) => Some(p),
            _ => None,
        },
    }
}

/// The path-literal edges of the first `n` literals.
pub open spec fn literal_edges(files: Seq<String>, file: Seq<char>, literals: Seq<String>, n: int) -> Seq<(Seq<char>, EdgeKind)>
    decreases n,
{
    if n <= 0 {
        Seq::empty()
    } else {
        let rest = literal_edges(files, file, literals, n - 1);
        match literal_target(files, file, literals[n - 1]@) {
            Some(p) => rest.push((p, EdgeKind::PathLiteral)),
            None => rest,
        }
    }
}

/// What a file adds: an edge to each file a followed specifier resolved
/// to, of the specifier's kind, then a path-literal edge for each literal
/// the tree holds; the packages reached as a whole; the specifiers that
/// didn't resolve; whether it imports something it can't name; whether
/// resolution fell back from its tsconfig.
pub open spec fn file_result_spec(
    r: FileResult,
    tree: Tree,
    file: Seq<char>,
    ex: Extracted,
    specs: Seq<(String, SpecKind)>,
    targets: Seq<(Target, bool)>,
) -> bool {
    &&& r.edges@.map_values(|e: (String, EdgeKind)| (e.0@, e.1)) == spec_edges(specs, targets, specs.len() as int)
        + literal_edges(tree.files@, file, ex.literals@, ex.literals.len() as int)
    &&& r.packages@.map_values(|p: String| p@) == spec_packages(targets, targets.len() as int)
    &&& r.unresolved@.map_values(|p: String| p@) == spec_unresolved(specs, targets, specs.len() as int)
    &&& r.unknown == ex.unknown_dynamic
    &&& r.fell_back == exists|k: int| 0 <= k < targets.len() && (#[trigger] targets[k]).1
}

fn strip_dot_slash(s: &str) -> (r: String)
    ensures
        r@ == strip_all(s@, "./"@),
{
    let v = chars_of(s);
    let mut i: usize = 0;
    proof {
        reveal_strlit("./");
        assert(v@.skip(0) =~= v@);
    }
    while i < v.len() && v.len() - i >= 2 && v[i] == '.' && v[i + 1] == '/'
        invariant
            i <= v.len(),
            v@ == s@,
            strip_all(s@, "./"@) == strip_all(v@.skip(i as int), "./"@),
        decreases v.len() - i,
    {
        proof {
            reveal_strlit("./");
            assert(v@.skip(i as int).take(2) =~= "./"@);
            assert(v@.skip(i as int).skip(2) =~= v@.skip(i as int + 2));
        }
        i = i + 2;
    }
    proof {
        reveal_strlit("./");
        if i + 2 <= v.len() {
            assert(v@.skip(i as int).take(2) != "./"@) by {
                assert(v@.skip(i as int).take(2)[0] == v@[i as int]);
                assert(v@.skip(i as int).take(2)[1] == v@[i as int + 1]);
            }
        }
    }
    string_range(&v, i, v.len())
}

/// Where a path literal in `file` lands, if the tree holds it.
pub fn literal_path(tree: &Tree, file: &str, literal: &str) -> (r: Option<String>)
    ensures
        match literal_target(tree.files@, file@, literal@) {
            Some(p) => r matches Some(s) && s@ == p,
            None => r is None,
        },
{
    match normalize(parent(file), literal) {
        Some(p) => {
            if tree.contains(p.as_str()) {
                return Some(p);
            }
        },
        None => {},
    }
    let stripped = strip_dot_slash(literal);
    match normalize("", stripped.as_str()) {
        Some(p) => {
            proof {
                reveal_strlit("");
            }
            if tree.contains(p.as_str()) {
                Some(p)
            } else {
                None
            }
        },
        None => {
            proof {
                reveal_strlit("");
            }
            None
        },
    }
}

/// What a file adds to the graph, given its specifiers to resolve
/// (`to_resolve`) and what each resolved to, with whether resolution fell
/// back from the tsconfig.
pub fn file_result(
    tree: &Tree,
    file: &str,
    ex: &Extracted,
    specs: &[(String, SpecKind)],
    targets: &[(Target, bool)],
) -> (r: FileResult)
    requires
        specs.len() == targets.len(),
    ensures
        file_result_spec(r, *tree, file@, *ex, specs@, targets@),
{
    let mut edges: Vec<(String, EdgeKind)> = Vec::new();
    let mut packages: Vec<String> = Vec::new();
    let mut unresolved: Vec<String> = Vec::new();
    let mut fell_back = false;
    let mut i: usize = 0;
    while i < targets.len()
        invariant
            i <= targets.len() == specs.len(),
            edges@.map_values(|e: (String, EdgeKind)| (e.0@, e.1)) == spec_edges(specs@, targets@, i as int),
            packages@.map_values(|p: String| p@) == spec_packages(targets@, i as int),
            unresolved@.map_values(|p: String| p@) == spec_unresolved(specs@, targets@, i as int),
            fell_back == exists|k: int| 0 <= k < i && (#[trigger] targets@[k]).1,
        decreases targets.len() - i,
    {
        let ghost e0 = edges@.map_values(|e: (String, EdgeKind)| (e.0@, e.1));
        let ghost p0 = packages@.map_values(|p: String| p@);
        let ghost u0 = unresolved@.map_values(|p: String| p@);
        if targets[i].1 {
            fell_back = true;
        }
        match &targets[i].0 {
            Target::File(to) => {
                edges.push((copy_str(to.as_str()), edge_kind(specs[i].1)));
                proof {
                    assert(edges@.map_values(|e: (String, EdgeKind)| (e.0@, e.1)) =~= e0.push((to@, edge_of(specs@[i as int].1))));
                }
            },
            Target::Package(name) => {
                packages.push(copy_str(name.as_str()));
                proof {
                    assert(packages@.map_values(|p: String| p@) =~= p0.push(name@));
                }
            },
            Target::Unresolved => {
                unresolved.push(copy_str(specs[i].0.as_str()));
                proof {
                    assert(unresolved@.map_values(|p: String| p@) =~= u0.push(specs@[i as int].0@));
                }
            },
            _ => {},
        }
        i = i + 1;
    }
    let ghost base = edges@.map_values(|e: (String, EdgeKind)| (e.0@, e.1));
    proof {
        assert(base + literal_edges(tree.files@, file@, ex.literals@, 0) =~= base);
    }
    let mut j: usize = 0;
    while j < ex.literals.len()
        invariant
            j <= ex.literals.len(),
            edges@.map_values(|e: (String, EdgeKind)| (e.0@, e.1)) == base + literal_edges(tree.files@, file@, ex.literals@, j as int),
        decreases ex.literals.len() - j,
    {
        let ghost e0 = edges@.map_values(|e: (String, EdgeKind)| (e.0@, e.1));
        match literal_path(tree, file, ex.literals[j].as_str()) {
            Some(p) => {
                edges.push((p, EdgeKind::PathLiteral));
                proof {
                    assert(edges@.map_values(|e: (String, EdgeKind)| (e.0@, e.1)) =~= e0.push((literal_target(tree.files@, file@, ex.literals@[j as int]@)->0, EdgeKind::PathLiteral)));
                }
            },
            None => {},
        }
        j = j + 1;
    }
    FileResult { edges, packages, unresolved, unknown: ex.unknown_dynamic, fell_back }
}

/// A snapshot file and the test it belongs to:
/// `dir/__snapshots__/x.test.ts.snap` belongs to `dir/x.test.ts`.
pub open spec fn snapshot_test(snap: Seq<char>) -> Option<Seq<char>> {
    let dir = parent_of(snap);
    if !(".snap"@.is_suffix_of(snap)) || !(dir == "__snapshots__"@ || "/__snapshots__"@.is_suffix_of(dir)) {
        None
    } else {
        let last = match last_index(snap, '/') {
            Some(i) => snap.skip(i + 1),
            None => snap,
        };
        normalized(parent_of(dir), strip_end(last, ".snap"@))
    }
}

/// `s` with every trailing `p` stripped, as `str::trim_end_matches` does.
pub open spec fn strip_end(s: Seq<char>, p: Seq<char>) -> Seq<char>
    decreases s.len(),
{
    if p.len() > 0 && p.len() <= s.len() && s.skip(s.len() - p.len()) == p {
        strip_end(s.take(s.len() - p.len()), p)
    } else {
        s
    }
}

fn strip_snap(v: &Vec<char>, from: usize) -> (r: String)
    requires
        from <= v.len(),
    ensures
        r@ == strip_end(v@.skip(from as int), ".snap"@),
{
    proof {
        reveal_strlit(".snap");
    }
    let mut end = v.len();
    proof {
        assert(v@.skip(from as int) =~= v@.subrange(from as int, end as int));
    }
    while end - from >= 5 && v[end - 5] == '.' && v[end - 4] == 's' && v[end - 3] == 'n' && v[end - 2] == 'a' && v[end - 1] == 'p'
        invariant
            from <= end <= v.len(),
            strip_end(v@.skip(from as int), ".snap"@) == strip_end(v@.subrange(from as int, end as int), ".snap"@),
        decreases end,
    {
        proof {
            let w = v@.subrange(from as int, end as int);
            reveal_strlit(".snap");
            assert(".snap"@ =~= seq!['.', 's', 'n', 'a', 'p']);
            assert(w.skip(w.len() - 5) =~= seq![v@[end - 5], v@[end - 4], v@[end - 3], v@[end - 2], v@[end - 1]]);
            assert(w.skip(w.len() - 5) =~= ".snap"@);
            assert(w.take(w.len() - 5) =~= v@.subrange(from as int, end - 5));
        }
        end = end - 5;
    }
    proof {
        let w = v@.subrange(from as int, end as int);
        reveal_strlit(".snap");
        assert(".snap"@ =~= seq!['.', 's', 'n', 'a', 'p']);
        if 5 <= w.len() {
            assert(w.skip(w.len() - 5) != ".snap"@) by {
                assert(w.skip(w.len() - 5)[0] == v@[end - 5]);
                assert(w.skip(w.len() - 5)[1] == v@[end - 4]);
                assert(w.skip(w.len() - 5)[2] == v@[end - 3]);
                assert(w.skip(w.len() - 5)[3] == v@[end - 2]);
                assert(w.skip(w.len() - 5)[4] == v@[end - 1]);
            }
        }
    }
    string_range(v, from, end)
}

/// The test a snapshot file belongs to, if it is one.
pub fn snapshot_of(snap: &str) -> (r: Option<String>)
    ensures
        match snapshot_test(snap@) {
            Some(t) => r matches Some(s) && s@ == t,
            None => r is None,
        },
{
    proof {
        reveal_strlit(".snap");
        reveal_strlit("__snapshots__");
        reveal_strlit("/__snapshots__");
    }
    let v = chars_of(snap);
    if !ends_with_lit(&v, ".snap") {
        return None;
    }
    let dir = parent(snap);
    let dv = chars_of(dir);
    if !(same_str(dir, "__snapshots__") || ends_with_lit(&dv, "/__snapshots__")) {
        return None;
    }
    proof {
        crate::text::lemma_last_index(v@, '/');
    }
    let from = match rfind_char(&v, '/') {
        Some(i) => i + 1,
        None => 0,
    };
    let name = strip_snap(&v, from);
    proof {
        assert(v@.skip(0) =~= v@);
    }
    normalize(parent(dir), name.as_str())
}

} // verus!
