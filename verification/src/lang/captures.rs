//! The specifiers and path-like literals of a parsed file, from the
//! captures of the extraction query: tree-sitter runs the query; which
//! capture becomes what, and the sorted lists, are decided here.
use tree_sitter::StreamingIterator;
use vstd::prelude::*;

use crate::lang::extract::{path_like, looks_like_path, Extracted, Grammar, SpecKind};
use crate::lang::syntax::language_of;
use crate::strset::{insert_str, str_set, str_sorted};
use crate::text::{
    chars_of, copy_str, lemma_seq_order_basics, lemma_seq_order_trans, compare_str, seq_order, skip_white,
    starts_with_at, strip_all, trim_start, lemma_lead_white,
};

verus! {

/// A captured node as plain values.
#[derive(Debug)]
pub struct Capture {
    /// The capture's name in the query.
    pub name: String,
    pub start: usize,
    pub end: usize,
    /// The node's text, when it is UTF-8.
    pub text: Option<String>,
    /// The text of the node's grandparent (the statement around a module
    /// string), when there is one and it is UTF-8.
    pub statement: Option<String>,
}

/// A capture as plain values: name, start and end byte, text, statement.
pub type CaptureView = (Seq<char>, usize, usize, Option<Seq<char>>, Option<Seq<char>>);

pub open spec fn opt_text(o: Option<String>) -> Option<Seq<char>> {
    match o {
        Some(s) => Some(s@),
        None => None,
    }
}

pub open spec fn capture_view(c: Capture) -> CaptureView {
    (c.name@, c.start, c.end, opt_text(c.text), opt_text(c.statement))
}

pub open spec fn capture_views(cs: Seq<Capture>) -> Seq<CaptureView> {
    cs.map_values(|c: Capture| capture_view(c))
}

/// The captures of every match of the query compiled from `query`, run
/// over the tree tree-sitter parses from `source` with the grammar, in the
/// order the cursor yields them; none when there is no tree or no query.
pub uninterp spec fn query_captures(g: Grammar, query: Seq<char>, source: Seq<u8>) -> Option<Seq<CaptureView>>;

/// `tree_sitter::Parser::parse` of `source` with the grammar's language,
/// `tree_sitter::Query::new` of `query`, and a `tree_sitter::QueryCursor`
/// over the tree: every capture of every match, in the cursor's order, as
/// plain values. The contract names the list and claims nothing else of
/// it.
#[verifier::external_body]
fn run_query(g: Grammar, query: &str, source: &[u8]) -> (r: Option<Vec<Capture>>)
    ensures
        match r {
            Some(cs) => query_captures(g, query@, source@) == Some(capture_views(cs@)),
            None => query_captures(g, query@, source@) is None,
        },
{
    let lang = language_of(g);
    let mut p = tree_sitter::Parser::new();
    p.set_language(&lang).ok()?;
    let tree = p.parse(source, None)?;
    let q = tree_sitter::Query::new(&lang, query).ok()?;
    let (mut cursor, mut out) = (tree_sitter::QueryCursor::new(), Vec::new());
    let mut ms = cursor.matches(&q, tree.root_node(), source);
    while let Some(m) = ms.next() {
        for c in m.captures {
            out.push(capture_of(q.capture_names()[c.index as usize], c.node, source));
        }
    }
    Some(out)
}

/// A captured `tree_sitter::Node` as plain values: its start and end
/// bytes, `utf8_text` of it and of its grandparent.
#[verifier::external_body]
fn capture_of(name: &str, n: tree_sitter::Node, source: &[u8]) -> Capture {
    let up = n.parent().and_then(|s| s.parent());
    Capture { name: name.into(), start: n.start_byte(), end: n.end_byte(), text: n.utf8_text(source).ok().map(Into::into),
        statement: up.and_then(|s| s.utf8_text(source).ok()).map(Into::into) }
}

/// The captures of the query over `source`, parsed with the grammar.
pub fn captures(g: Grammar, query: &str, source: &[u8]) -> (r: Option<Vec<Capture>>)
    ensures
        match r {
            Some(cs) => query_captures(g, query@, source@) == Some(capture_views(cs@)),
            None => query_captures(g, query@, source@) is None,
        },
{
    run_query(g, query, source)
}

/// `t` starts with `p`.
pub open spec fn starts(t: Seq<char>, p: Seq<char>) -> bool {
    p.len() <= t.len() && t.take(p.len() as int) == p
}

/// An `import type` or `export type` statement.
pub open spec fn type_only_text(t: Seq<char>) -> bool {
    let rest = trim_start(strip_all(strip_all(trim_start(t), "import"@), "export"@));
    starts(rest, "type "@) || starts(rest, "type{"@)
}

/// What a capture is a specifier of, if it is one: an import (a type-only
/// one in a type-only statement), a dynamic import, a `require` or a mock;
/// only a capture whose text could be read counts.
pub open spec fn module_kind(c: CaptureView) -> Option<SpecKind> {
    if c.3 is None {
        None
    } else if c.0 == "import"@ {
        Some(
            if c.4 matches Some(s) && type_only_text(s) {
                SpecKind::TypeImport
            } else {
                SpecKind::Import
            },
        )
    } else if c.0 == "dynamic"@ {
        Some(SpecKind::Dynamic)
    } else if c.0 == "require"@ {
        Some(SpecKind::Require)
    } else if c.0 == "mock"@ {
        Some(SpecKind::Mock)
    } else {
        None
    }
}

/// The specifiers the first `n` captures name, with their kinds.
pub open spec fn pairs_upto(cs: Seq<CaptureView>, n: int) -> Set<(Seq<char>, SpecKind)> {
    Set::new(|p: (Seq<char>, SpecKind)| exists|i: int| 0 <= i < n && module_kind(#[trigger] cs[i]) == Some(p.1) && cs[i].3 == Some(p.0))
}

/// The specifiers the captures name, with their kinds.
pub open spec fn spec_pairs(cs: Seq<CaptureView>) -> Set<(Seq<char>, SpecKind)> {
    pairs_upto(cs, cs.len() as int)
}

/// One of the first `n` captures is a specifier at the node from `start`
/// to `end`.
pub open spec fn node_upto(cs: Seq<CaptureView>, n: int, start: usize, end: usize) -> bool {
    exists|i: int| 0 <= i < n && module_kind(#[trigger] cs[i]) is Some && cs[i].1 == start && cs[i].2 == end
}

/// Some specifier capture is the node from `start` to `end`.
pub open spec fn module_node(cs: Seq<CaptureView>, start: usize, end: usize) -> bool {
    node_upto(cs, cs.len() as int, start, end)
}

/// Capture `i` is a literal that is no specifier and looks like a path.
pub open spec fn kept_literal(cs: Seq<CaptureView>, i: int) -> bool {
    cs[i].0 == "literal"@ && (cs[i].3 matches Some(t) && !module_node(cs, cs[i].1, cs[i].2) && path_like(t))
}

/// The texts of the kept literals among the first `n` captures.
pub open spec fn literals_upto(cs: Seq<CaptureView>, n: int) -> Set<Seq<char>> {
    Set::new(|t: Seq<char>| exists|i: int| 0 <= i < n && #[trigger] kept_literal(cs, i) && cs[i].3 == Some(t))
}

/// The literals the captures name that are no specifier and look like a
/// path.
pub open spec fn literal_set(cs: Seq<CaptureView>) -> Set<Seq<char>> {
    literals_upto(cs, cs.len() as int)
}

/// One of the first `n` captures is a dynamic import or `require` whose
/// argument isn't a plain string.
pub open spec fn unknown_upto(cs: Seq<CaptureView>, n: int) -> bool {
    exists|i: int| 0 <= i < n && (#[trigger] cs[i]).0 == "unknown"@ && cs[i].3 is Some
}

/// A dynamic import or `require` whose argument isn't a plain string.
pub open spec fn unknown_in(cs: Seq<CaptureView>) -> bool {
    unknown_upto(cs, cs.len() as int)
}

/// The order of `SpecKind`.
pub open spec fn rank(k: SpecKind) -> int {
    match k {
        SpecKind::Import => 0,
        SpecKind::TypeImport => 1,
        SpecKind::Dynamic => 2,
        SpecKind::Require => 3,
        SpecKind::Mock => 4,
    }
}

/// `(String, SpecKind)` order: by text, then by kind.
pub open spec fn pair_lt(a: (Seq<char>, SpecKind), b: (Seq<char>, SpecKind)) -> bool {
    seq_order(a.0, b.0) < 0 || (a.0 == b.0 && rank(a.1) < rank(b.1))
}

pub open spec fn pair_view(p: (String, SpecKind)) -> (Seq<char>, SpecKind) {
    (p.0@, p.1)
}

pub open spec fn pair_views(s: Seq<(String, SpecKind)>) -> Seq<(Seq<char>, SpecKind)> {
    s.map_values(|p: (String, SpecKind)| pair_view(p))
}

/// In order, none twice.
pub open spec fn pairs_sorted(s: Seq<(Seq<char>, SpecKind)>) -> bool {
    forall|i: int, j: int| 0 <= i < j < s.len() ==> pair_lt(#[trigger] s[i], #[trigger] s[j])
}

/// What the captures of a parsed file give: the specifiers, sorted by
/// text then kind, each once; the path-like literals that are no
/// specifier, sorted, each once; and whether a dynamic import or `require`
/// takes something other than a plain string.
pub open spec fn captured(r: Extracted, cs: Seq<CaptureView>) -> bool {
    &&& pairs_sorted(pair_views(r.specs@))
    &&& pair_views(r.specs@).to_set() == spec_pairs(cs)
    &&& str_sorted(r.literals@)
    &&& str_set(r.literals@) == literal_set(cs)
    &&& r.unknown_dynamic == unknown_in(cs)
}

proof fn lemma_pair_lt(a: (Seq<char>, SpecKind), b: (Seq<char>, SpecKind), c: (Seq<char>, SpecKind))
    ensures
        pair_lt(a, b) && pair_lt(b, c) ==> pair_lt(a, c),
        !pair_lt(a, a),
        a != b ==> (pair_lt(a, b) || pair_lt(b, a)),
        pair_lt(a, b) ==> !pair_lt(b, a),
{
    lemma_seq_order_basics(a.0, b.0);
    lemma_seq_order_basics(b.0, c.0);
    lemma_seq_order_basics(a.0, c.0);
    lemma_seq_order_basics(a.0, a.0);
    if seq_order(a.0, b.0) < 0 && seq_order(b.0, c.0) < 0 {
        lemma_seq_order_trans(a.0, b.0, c.0);
    }
    if a != b && a.0 == b.0 {
        assert(a.1 != b.1);
    }
}

fn kind_rank(k: SpecKind) -> (r: u8)
    ensures
        r as int == rank(k),
{
    match k {
        SpecKind::Import => 0,
        SpecKind::TypeImport => 1,
        SpecKind::Dynamic => 2,
        SpecKind::Require => 3,
        SpecKind::Mock => 4,
    }
}

/// `-1`, `0` or `1` as `a` comes before, is, or comes after `b`.
fn compare_pair(a: &(String, SpecKind), b: &(String, SpecKind)) -> (r: i8)
    ensures
        r < 0 <==> pair_lt(pair_view(*a), pair_view(*b)),
        r == 0 <==> pair_view(*a) == pair_view(*b),
        r > 0 <==> pair_lt(pair_view(*b), pair_view(*a)),
{
    let c = compare_str(a.0.as_str(), b.0.as_str());
    proof {
        lemma_seq_order_basics(a.0@, b.0@);
    }
    if c != 0 {
        return c;
    }
    let x = kind_rank(a.1);
    let y = kind_rank(b.1);
    if x < y {
        -1
    } else if x > y {
        1
    } else {
        proof {
            assert(a.1 == b.1);
        }
        0
    }
}

/// Adds `x` to the sorted pairs `v`.
fn insert_pair(v: &mut Vec<(String, SpecKind)>, x: (String, SpecKind))
    requires
        pairs_sorted(pair_views(old(v)@)),
    ensures
        pairs_sorted(pair_views(final(v)@)),
        pair_views(final(v)@).to_set() == pair_views(old(v)@).to_set().insert(pair_view(x)),
{
    let ghost before = pair_views(v@);
    let mut i: usize = 0;
    while i < v.len()
        invariant
            i <= v.len(),
            before == pair_views(v@),
            pairs_sorted(before),
            forall|j: int| 0 <= j < i ==> pair_lt(#[trigger] before[j], pair_view(x)),
        ensures
            i <= v.len(),
            before == pair_views(v@),
            forall|j: int| 0 <= j < i ==> pair_lt(#[trigger] before[j], pair_view(x)),
            i < v.len() ==> pair_lt(pair_view(x), before[i as int]),
        decreases v.len() - i,
    {
        let c = compare_pair(&v[i], &x);
        proof {
            assert(before[i as int] == pair_view(v@[i as int]));
        }
        if c == 0 {
            proof {
                assert(before.to_set() =~= before.to_set().insert(pair_view(x))) by {
                    assert(before.contains(pair_view(x)));
                }
            }
            return;
        }
        if c > 0 {
            break;
        }
        i = i + 1;
    }
    proof {
        if i < v.len() {
            assert(pair_lt(pair_view(x), before[i as int]));
        }
    }
    v.insert(i, x);
    proof {
        let after = pair_views(v@);
        assert(after =~= before.insert(i as int, pair_view(x)));
        assert forall|a: int, b: int| 0 <= a < b < after.len() implies pair_lt(#[trigger] after[a], #[trigger] after[b]) by {
            if b < i {
                assert(after[a] == before[a] && after[b] == before[b]);
            } else if b == i {
                assert(after[a] == before[a]);
            } else if a < i {
                assert(after[a] == before[a] && after[b] == before[b - 1]);
                lemma_pair_lt(before[a], pair_view(x), before[b - 1]);
                if b - 1 > i {
                    lemma_pair_lt(pair_view(x), before[i as int], before[b - 1]);
                }
            } else if a == i {
                assert(after[b] == before[b - 1]);
                if b - 1 > i {
                    lemma_pair_lt(pair_view(x), before[i as int], before[b - 1]);
                }
            } else {
                assert(after[a] == before[a - 1] && after[b] == before[b - 1]);
            }
        }
        assert forall|p: (Seq<char>, SpecKind)| after.to_set().contains(p) <==> before.to_set().insert(pair_view(x)).contains(p) by {
            if after.contains(p) {
                let k = choose|k: int| 0 <= k < after.len() && after[k] == p;
                if k < i {
                    assert(before[k] == p);
                } else if k > i {
                    assert(before[k - 1] == p);
                }
            }
            if before.contains(p) {
                let k = choose|k: int| 0 <= k < before.len() && before[k] == p;
                if k < i {
                    assert(after[k] == p);
                } else {
                    assert(after[k + 1] == p);
                }
            }
            if p == pair_view(x) {
                assert(after[i as int] == p);
            }
        }
        assert(after.to_set() =~= before.to_set().insert(pair_view(x)));
    }
}

/// How far from `from` every leading `p` of `v` goes.
fn strip_lit(v: &Vec<char>, from: usize, p: &str) -> (r: usize)
    requires
        from <= v.len(),
        p@.len() > 0,
    ensures
        from <= r <= v.len(),
        v@.skip(r as int) == strip_all(v@.skip(from as int), p@),
{
    let n = p.unicode_len();
    let mut i = from;
    while starts_with_at(v, i, p)
        invariant
            from <= i <= v.len(),
            n == p@.len(),
            n > 0,
            strip_all(v@.skip(from as int), p@) == strip_all(v@.skip(i as int), p@),
        decreases v.len() - i,
    {
        proof {
            assert(v@.skip(i as int).take(n as int) =~= v@.subrange(i as int, i + n));
            assert(v@.skip(i as int).skip(n as int) =~= v@.skip(i + n));
        }
        i = i + n;
    }
    proof {
        if n <= v@.skip(i as int).len() {
            assert(v@.skip(i as int).take(n as int) =~= v@.subrange(i as int, i + n));
        }
    }
    i
}

/// Whether a statement's text is an `import type` or `export type`.
pub fn type_only(statement: &str) -> (r: bool)
    ensures
        r == type_only_text(statement@),
{
    let v = chars_of(statement);
    proof {
        reveal_strlit("import");
        reveal_strlit("export");
        reveal_strlit("type ");
        reveal_strlit("type{");
        assert(v@.skip(0) =~= v@);
    }
    let i = skip_white(&v, 0);
    proof {
        assert(trim_start(v@) =~= v@.skip(i as int));
    }
    let j = strip_lit(&v, i, "import");
    let k = strip_lit(&v, j, "export");
    let m = skip_white(&v, k);
    let ghost rest = trim_start(strip_all(strip_all(trim_start(statement@), "import"@), "export"@));
    proof {
        assert(rest =~= v@.skip(m as int));
    }
    let a = starts_with_at(&v, m, "type ");
    let b = starts_with_at(&v, m, "type{");
    proof {
        if m + 5 <= v.len() {
            assert(v@.skip(m as int).take(5) =~= v@.subrange(m as int, m + 5));
        }
    }
    a || b
}

fn kind_of(c: &Capture) -> (r: Option<SpecKind>)
    ensures
        r == module_kind(capture_view(*c)),
{
    proof {
        reveal_strlit("import");
        reveal_strlit("dynamic");
        reveal_strlit("require");
        reveal_strlit("mock");
    }
    if c.text.is_none() {
        return None;
    }
    let name = c.name.as_str();
    if crate::text::same_str(name, "import") {
        let t = match &c.statement {
            Some(s) => type_only(s.as_str()),
            None => false,
        };
        Some(if t { SpecKind::TypeImport } else { SpecKind::Import })
    } else if crate::text::same_str(name, "dynamic") {
        Some(SpecKind::Dynamic)
    } else if crate::text::same_str(name, "require") {
        Some(SpecKind::Require)
    } else if crate::text::same_str(name, "mock") {
        Some(SpecKind::Mock)
    } else {
        None
    }
}

pub open spec fn in_nodes(nodes: Seq<(usize, usize)>, s: usize, e: usize) -> bool {
    exists|q: int| 0 <= q < nodes.len() && #[trigger] nodes[q] == (s, e)
}

fn is_node(nodes: &Vec<(usize, usize)>, start: usize, end: usize) -> (r: bool)
    ensures
        r == in_nodes(nodes@, start, end),
{
    let mut q: usize = 0;
    while q < nodes.len()
        invariant
            q <= nodes.len(),
            forall|k: int| 0 <= k < q ==> #[trigger] nodes@[k] != (start, end),
        decreases nodes.len() - q,
    {
        if nodes[q].0 == start && nodes[q].1 == end {
            return true;
        }
        q = q + 1;
    }
    false
}

/// What the captures of a parsed file give: its specifiers and their
/// kinds, its path-like literals, and whether it imports something it
/// can't name.
pub fn from_captures(cs: &[Capture]) -> (r: Extracted)
    ensures
        captured(r, capture_views(cs@)),
{
    let ghost cv = capture_views(cs@);
    let mut specs: Vec<(String, SpecKind)> = Vec::new();
    let mut nodes: Vec<(usize, usize)> = Vec::new();
    let mut unknown = false;
    proof {
        reveal_strlit("unknown");
        reveal_strlit("literal");
        assert(pair_views(specs@).to_set() =~= pairs_upto(cv, 0));
    }
    let mut i: usize = 0;
    while i < cs.len()
        invariant
            i <= cs.len(),
            cv == capture_views(cs@),
            pairs_sorted(pair_views(specs@)),
            pair_views(specs@).to_set() == pairs_upto(cv, i as int),
            forall|s: usize, e: usize| #[trigger] in_nodes(nodes@, s, e) <==> node_upto(cv, i as int, s, e),
            unknown == unknown_upto(cv, i as int),
        decreases cs.len() - i,
    {
        let c = &cs[i];
        proof {
            assert(cv[i as int] == capture_view(*c));
        }
        let ghost before = pair_views(specs@);
        let ghost nodes0 = nodes@;
        match kind_of(c) {
            Some(k) => {
                let text = match &c.text {
                    Some(t) => copy_str(t.as_str()),
                    None => String::new(),
                };
                insert_pair(&mut specs, (text, k));
                nodes.push((c.start, c.end));
                proof {
                    assert forall|p: (Seq<char>, SpecKind)| pairs_upto(cv, i as int + 1).contains(p) <==> before.to_set().insert((text@, k)).contains(p) by {
                        if pairs_upto(cv, i as int + 1).contains(p) {
                            let w = choose|w: int| 0 <= w < i + 1 && module_kind(#[trigger] cv[w]) == Some(p.1) && cv[w].3 == Some(p.0);
                            if w < i {
                                assert(pairs_upto(cv, i as int).contains(p));
                            }
                        }
                        if pairs_upto(cv, i as int).contains(p) {
                            let w = choose|w: int| 0 <= w < i && module_kind(#[trigger] cv[w]) == Some(p.1) && cv[w].3 == Some(p.0);
                            assert(0 <= w < i + 1);
                        }
                    }
                    assert(pairs_upto(cv, i as int + 1) =~= before.to_set().insert((text@, k)));
                    assert forall|s: usize, e: usize| #[trigger] in_nodes(nodes@, s, e) <==> node_upto(cv, i as int + 1, s, e) by {
                        if in_nodes(nodes@, s, e) {
                            let q = choose|q: int| 0 <= q < nodes.len() && #[trigger] nodes@[q] == (s, e);
                            if q < nodes0.len() {
                                assert(nodes0[q] == (s, e));
                                assert(in_nodes(nodes0, s, e));
                                assert(node_upto(cv, i as int, s, e));
                                let w = choose|w: int| 0 <= w < i && module_kind(#[trigger] cv[w]) is Some && cv[w].1 == s && cv[w].2 == e;
                                assert(0 <= w < i + 1);
                            }
                        }
                        if node_upto(cv, i as int + 1, s, e) {
                            let w = choose|w: int| 0 <= w < i + 1 && module_kind(#[trigger] cv[w]) is Some && cv[w].1 == s && cv[w].2 == e;
                            if w < i {
                                assert(node_upto(cv, i as int, s, e));
                                assert(in_nodes(nodes0, s, e));
                                let q = choose|q: int| 0 <= q < nodes0.len() && #[trigger] nodes0[q] == (s, e);
                                assert(nodes@[q] == (s, e));
                            } else {
                                assert(nodes@[nodes0.len() as int] == (s, e));
                            }
                        }
                    }
                    if unknown_upto(cv, i as int + 1) {
                        let w = choose|w: int| 0 <= w < i + 1 && (#[trigger] cv[w]).0 == "unknown"@ && cv[w].3 is Some;
                        if w == i {
                            assert("unknown"@ != "import"@ && "unknown"@ != "dynamic"@ && "unknown"@ != "require"@ && "unknown"@ != "mock"@) by {
                                reveal_strlit("import");
                                reveal_strlit("dynamic");
                                reveal_strlit("require");
                                reveal_strlit("mock");
                                reveal_strlit("unknown");
                                assert("unknown"@.len() == 7 && "import"@.len() == 6 && "mock"@.len() == 4);
                                assert("unknown"@[0] != "import"@[0]);
                                assert("unknown"@[0] != "dynamic"@[0]);
                                assert("unknown"@[0] != "require"@[0]);
                                assert("unknown"@[0] != "mock"@[0]);
                            }
                        }
                        assert(unknown_upto(cv, i as int));
                    }
                }
            },
            None => {
                if crate::text::same_str(c.name.as_str(), "unknown") && c.text.is_some() {
                    unknown = true;
                }
                proof {
                    assert forall|p: (Seq<char>, SpecKind)| pairs_upto(cv, i as int + 1).contains(p) <==> pairs_upto(cv, i as int).contains(p) by {
                        if pairs_upto(cv, i as int + 1).contains(p) {
                            let w = choose|w: int| 0 <= w < i + 1 && module_kind(#[trigger] cv[w]) == Some(p.1) && cv[w].3 == Some(p.0);
                            assert(w != i);
                        }
                        if pairs_upto(cv, i as int).contains(p) {
                            let w = choose|w: int| 0 <= w < i && module_kind(#[trigger] cv[w]) == Some(p.1) && cv[w].3 == Some(p.0);
                            assert(0 <= w < i + 1);
                        }
                    }
                    assert(pairs_upto(cv, i as int + 1) =~= pairs_upto(cv, i as int));
                    assert forall|s: usize, e: usize| node_upto(cv, i as int + 1, s, e) <==> node_upto(cv, i as int, s, e) by {
                        if node_upto(cv, i as int + 1, s, e) {
                            let w = choose|w: int| 0 <= w < i + 1 && module_kind(#[trigger] cv[w]) is Some && cv[w].1 == s && cv[w].2 == e;
                            assert(w != i);
                        }
                        if node_upto(cv, i as int, s, e) {
                            let w = choose|w: int| 0 <= w < i && module_kind(#[trigger] cv[w]) is Some && cv[w].1 == s && cv[w].2 == e;
                            assert(0 <= w < i + 1);
                        }
                    }
                    if unknown_upto(cv, i as int + 1) && !unknown_upto(cv, i as int) {
                        let w = choose|w: int| 0 <= w < i + 1 && (#[trigger] cv[w]).0 == "unknown"@ && cv[w].3 is Some;
                        assert(w == i);
                    }
                    if unknown_upto(cv, i as int) {
                        let w = choose|w: int| 0 <= w < i && (#[trigger] cv[w]).0 == "unknown"@ && cv[w].3 is Some;
                        assert(0 <= w < i + 1);
                    }
                    if unknown && !unknown_upto(cv, i as int) {
                        assert(cv[i as int].0 == "unknown"@);
                    }
                }
            },
        }
        i = i + 1;
    }
    let mut literals: Vec<String> = Vec::new();
    proof {
        assert(str_set(literals@) =~= literals_upto(cv, 0));
    }
    let mut j: usize = 0;
    while j < cs.len()
        invariant
            j <= cs.len(),
            cv == capture_views(cs@),
            forall|s: usize, e: usize| #[trigger] in_nodes(nodes@, s, e) <==> module_node(cv, s, e),
            str_sorted(literals@),
            str_set(literals@) == literals_upto(cv, j as int),
        decreases cs.len() - j,
    {
        let c = &cs[j];
        proof {
            assert(cv[j as int] == capture_view(*c));
        }
        let ghost before = str_set(literals@);
        let keep = match &c.text {
            Some(t) => crate::text::same_str(c.name.as_str(), "literal") && !is_node(&nodes, c.start, c.end)
                && looks_like_path(t.as_str()),
            None => false,
        };
        if keep {
            let t = match &c.text {
                Some(t) => copy_str(t.as_str()),
                None => String::new(),
            };
            insert_str(&mut literals, t);
            proof {
                assert(kept_literal(cv, j as int));
                assert forall|x: Seq<char>| literals_upto(cv, j as int + 1).contains(x) <==> before.insert(t@).contains(x) by {
                    if literals_upto(cv, j as int + 1).contains(x) {
                        let w = choose|w: int| 0 <= w < j + 1 && #[trigger] kept_literal(cv, w) && cv[w].3 == Some(x);
                        if w < j {
                            assert(literals_upto(cv, j as int).contains(x));
                        }
                    }
                    if literals_upto(cv, j as int).contains(x) {
                        let w = choose|w: int| 0 <= w < j && #[trigger] kept_literal(cv, w) && cv[w].3 == Some(x);
                        assert(0 <= w < j + 1);
                    }
                }
                assert(literals_upto(cv, j as int + 1) =~= before.insert(t@));
            }
        } else {
            proof {
                assert(!kept_literal(cv, j as int));
                assert forall|x: Seq<char>| literals_upto(cv, j as int + 1).contains(x) <==> before.contains(x) by {
                    if literals_upto(cv, j as int + 1).contains(x) {
                        let w = choose|w: int| 0 <= w < j + 1 && #[trigger] kept_literal(cv, w) && cv[w].3 == Some(x);
                        assert(w != j);
                        assert(literals_upto(cv, j as int).contains(x));
                    }
                    if literals_upto(cv, j as int).contains(x) {
                        let w = choose|w: int| 0 <= w < j && #[trigger] kept_literal(cv, w) && cv[w].3 == Some(x);
                        assert(0 <= w < j + 1);
                    }
                }
                assert(literals_upto(cv, j as int + 1) =~= before);
            }
        }
        j = j + 1;
    }
    Extracted { specs, literals, unknown_dynamic: unknown }
}

} // verus!
