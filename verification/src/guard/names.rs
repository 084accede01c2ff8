//! `[guard.test_names]`: a test file's name, and the titles of its tests.
use vstd::prelude::*;

use crate::config::TestNames;
use crate::guard::finding::Finding;
use crate::guard::functions::{
    above, callee, callee_exec, field_child, field_child_exec, is_above, node_text, node_text_exec,
};
use crate::guard::migrations::finding_views;
use crate::guard::rules::{Scope, Source};
use crate::guard::size::FindingView;
use crate::lang::syntax::{listed, parse, SyntaxNode};
use crate::matcher::{regex_find, regex_finds, regex_first, regex_problem, Matcher};
use crate::sorting::{lemma_insert_by_at, sort_by};
use crate::text::{chars_of, copy_str, find_sub, last_index, push_str, rfind_char, same_str, string_range, utf8_len};

verus! {

/// The test-name rules: the files they read, the pattern a file's name
/// matches, the pattern no title may carry, and the calls that take a
/// title.
pub struct Names {
    pub scope: Scope,
    pub file: Option<Matcher>,
    pub titles_without: Option<Matcher>,
    pub calls: Vec<String>,
}

/// A pattern, if any, compiles.
pub open spec fn pattern_ok(p: Option<String>) -> bool {
    p matches Some(x) ==> regex_problem(x@) is None
}

/// `m` is what `p` compiles to.
pub open spec fn compiled_as(m: Option<Matcher>, p: Option<String>) -> bool {
    match p {
        None => m is None,
        Some(x) => m matches Some(m) && m.source() == x@,
    }
}

/// What is wrong with a pattern, if there is one and it doesn't compile.
pub open spec fn opt_problem(p: Option<String>) -> Option<Seq<char>> {
    match p {
        Some(x) => regex_problem(x@),
        None => None,
    }
}

/// The first thing in the test-name rules that doesn't compile: a glob of
/// the files they read, then the file pattern, then the title pattern.
pub open spec fn names_problem(c: TestNames) -> Option<Seq<char>> {
    match crate::guard::rules::scope_problem(
        c.files.view_items().map_values(|g: String| g@),
        c.exclude.view_items().map_values(|g: String| g@),
    ) {
        Some(e) => Some(e),
        None => match opt_problem(c.file) {
            Some(e) => Some(e),
            None => opt_problem(c.titles_without),
        },
    }
}

fn compile_opt(p: &Option<String>) -> (r: Result<Option<Matcher>, String>)
    ensures
        r is Ok <==> pattern_ok(*p),
        r matches Err(e) ==> opt_problem(*p) == Some(e@),
        r is Ok ==> opt_problem(*p) is None,
        r matches Ok(m) ==> compiled_as(m, *p),
{
    match p {
        None => Ok(None),
        Some(x) => match Matcher::new(x.as_str()) {
            Ok(m) => Ok(Some(m)),
            Err(e) => Err(e),
        },
    }
}

impl Names {
    /// The rules as configured; an error for a glob or pattern that doesn't
    /// compile.
    pub fn new(c: &TestNames) -> (r: Result<Names, String>)
        ensures
            r matches Ok(n) ==> compiled_as(n.file, c.file) && compiled_as(n.titles_without, c.titles_without)
                && n.calls@.map_values(|s: String| s@) == c.title_calls.view_items().map_values(|s: String| s@),
            r is Ok ==> pattern_ok(c.file) && pattern_ok(c.titles_without),
            match names_problem(*c) {
                Some(e) => r matches Err(m) && m@ == e,
                None => r is Ok,
            },
    {
        let scope = match Scope::new(c.files.items(), c.exclude.items()) {
            Ok(s) => s,
            Err(e) => return Err(e),
        };
        let file = match compile_opt(&c.file) {
            Ok(m) => m,
            Err(e) => return Err(e),
        };
        let titles_without = match compile_opt(&c.titles_without) {
            Ok(m) => m,
            Err(e) => return Err(e),
        };
        let items = c.title_calls.items();
        let mut calls: Vec<String> = Vec::new();
        let mut i: usize = 0;
        while i < items.len()
            invariant
                i <= items.len(),
                calls@.map_values(|s: String| s@) == items@.take(i as int).map_values(|s: String| s@),
            decreases items.len() - i,
        {
            let ghost before = calls@.map_values(|s: String| s@);
            calls.push(copy_str(items[i].as_str()));
            proof {
                assert(calls@.map_values(|s: String| s@) =~= before.push(items@[i as int]@));
                assert(items@.take(i as int + 1) =~= items@.take(i as int).push(items@[i as int]));
                assert(calls@.map_values(|s: String| s@) =~= items@.take(i as int + 1).map_values(|s: String| s@));
            }
            i = i + 1;
        }
        proof {
            assert(items@.take(i as int) =~= items@);
        }
        Ok(Names { scope, file, titles_without, calls })
    }

    pub fn applies(&self, path: &str) -> (r: bool)
        ensures
            r == self.scope.reads(path@),
    {
        self.scope.contains(path)
    }

    pub fn ratcheted(&self) -> (r: Vec<&'static str>)
        ensures
            r.len() == 0,
    {
        Vec::new()
    }
}

/// A path's last segment.
pub open spec fn file_name(path: Seq<char>) -> Seq<char> {
    match last_index(path, '/') {
        Some(i) => path.skip(i + 1),
        None => path,
    }
}

/// The first named child of `a`, from `j` on.
pub open spec fn named_child_from(ns: Seq<SyntaxNode>, a: int, j: int) -> Option<int>
    decreases ns.len() - j,
{
    if j < 0 || j >= ns.len() {
        None
    } else if ns[j].parent == Some(a as usize) && ns[j].named {
        Some(j)
    } else {
        named_child_from(ns, a, j + 1)
    }
}

/// The text of a string, or of a template without substitutions, inside
/// its quotes.
pub open spec fn literal_of(ns: Seq<SyntaxNode>, bytes: Seq<u8>, j: int) -> Option<Seq<char>> {
    match node_text(ns, bytes, j) {
        None => None,
        Some(raw) => if (ns[j].kind@ == "string"@ || (ns[j].kind@ == "template_string"@ && find_sub(raw, "${"@) is None))
            && raw.len() >= 2 && utf8_len(raw[0]) == 1 && utf8_len(raw.last()) == 1 {
            Some(raw.subrange(1, raw.len() - 1))
        } else {
            None
        },
    }
}

/// Node `i` is a call of one of `calls` whose first argument is a literal:
/// the literal's line and text.
pub open spec fn title_at(ns: Seq<SyntaxNode>, bytes: Seq<u8>, calls: Seq<Seq<char>>, i: int) -> Option<(int, Seq<char>)> {
    if ns[i].kind@ != "call_expression"@ {
        None
    } else {
        let named = match field_child(ns, i, "function"@) {
            Some(f) => callee(ns, bytes, f) matches Some(c) && calls.contains(c),
            None => false,
        };
        match field_child(ns, i, "arguments"@) {
            None => None,
            Some(a) => match named_child_from(ns, a, a + 1) {
                None => None,
                Some(j) => if named {
                    match literal_of(ns, bytes, j) {
                        Some(t) => Some((ns[j].start_row + 1, t)),
                        None => None,
                    }
                } else {
                    None
                },
            },
        }
    }
}

/// The calls with a title among the first `n` nodes.
pub open spec fn titled(ns: Seq<SyntaxNode>, bytes: Seq<u8>, calls: Seq<Seq<char>>, n: int) -> Seq<int>
    decreases n,
{
    if n <= 0 {
        Seq::empty()
    } else if title_at(ns, bytes, calls, n - 1) is Some {
        titled(ns, bytes, calls, n - 1).push(n - 1)
    } else {
        titled(ns, bytes, calls, n - 1)
    }
}

/// The line of the title at `i`.
pub open spec fn title_line(ns: Seq<SyntaxNode>, bytes: Seq<u8>, calls: Seq<Seq<char>>, i: int) -> int {
    match title_at(ns, bytes, calls, i) {
        Some((l, _)) => l,
        None => 0,
    }
}

/// Titles are read by line, and on one line in the order a walk that
/// takes the last child first meets their calls.
pub open spec fn title_order(ns: Seq<SyntaxNode>, bytes: Seq<u8>, calls: Seq<Seq<char>>) -> spec_fn(int, int) -> bool {
    |a: int, b: int| {
        let la = title_line(ns, bytes, calls, a);
        let lb = title_line(ns, bytes, calls, b);
        la < lb || (la == lb && (above(ns, a, b) || (!above(ns, b, a) && a >= b)))
    }
}

/// Each title, in reading order.
pub open spec fn titles_spec(ns: Seq<SyntaxNode>, bytes: Seq<u8>, calls: Seq<Seq<char>>) -> Seq<(int, Seq<char>)> {
    sort_by(titled(ns, bytes, calls, ns.len() as int), title_order(ns, bytes, calls)).map_values(
        |i: int| title_at(ns, bytes, calls, i)->0,
    )
}

/// A title that carries what `without` matches, as a finding.
pub open spec fn title_findings(path: Seq<char>, without: Seq<char>, ts: Seq<(int, Seq<char>)>) -> Seq<FindingView>
    decreases ts.len(),
{
    if ts.len() == 0 {
        Seq::empty()
    } else {
        let rest = title_findings(path, without, ts.drop_last());
        let (line, title) = ts.last();
        match regex_first(without, title) {
            Some(m) => rest.push((path, line as u32, "test-title"@, "test title carries \""@ + m + "\""@, title, None)),
            None => rest,
        }
    }
}

/// What the rules find in a file: a name outside the file pattern, then,
/// when the file has a syntax tree and titles are checked, each title that
/// carries the pattern.
pub open spec fn names_views(n: Names, path: Seq<char>, bytes: Seq<u8>, ns: Option<Seq<SyntaxNode>>) -> Seq<FindingView> {
    let name = file_name(path);
    let head: Seq<FindingView> = match n.file {
        Some(m) => if !regex_finds(m.source(), name) {
            seq![(path, 1u32, "test-file-name"@, "file name `"@ + name + "` doesn't match the test file pattern"@, Seq::<char>::empty(), None)]
        } else {
            Seq::empty()
        },
        None => Seq::empty(),
    };
    match (n.titles_without, ns) {
        (Some(w), Some(ns)) => head + title_findings(path, w.source(), titles_spec(ns, bytes, n.calls@.map_values(|s: String| s@))),
        _ => head,
    }
}

fn name_of(path: &str) -> (r: String)
    ensures
        r@ == file_name(path@),
{
    let v = chars_of(path);
    proof {
        crate::text::lemma_last_index(v@, '/');
    }
    match rfind_char(&v, '/') {
        Some(i) => {
            let n = v.len();
            let s = string_range(&v, i + 1, n);
            proof {
                assert(s@ =~= path@.skip(i + 1));
            }
            s
        },
        None => copy_str(path),
    }
}

fn named_child(ns: &Vec<SyntaxNode>, a: usize) -> (r: Option<usize>)
    requires
        a < ns.len(),
    ensures
        match named_child_from(ns@, a as int, a + 1) {
            Some(j) => r == Some(j as usize) && a < j < ns.len(),
            None => r is None,
        },
{
    let mut j = a + 1;
    while j < ns.len()
        invariant
            a < j <= ns.len(),
            named_child_from(ns@, a as int, a + 1) == named_child_from(ns@, a as int, j as int),
        decreases ns.len() - j,
    {
        if ns[j].parent == Some(a) && ns[j].named {
            return Some(j);
        }
        j = j + 1;
    }
    None
}

fn literal(ns: &Vec<SyntaxNode>, bytes: &[u8], j: usize) -> (r: Option<String>)
    requires
        j < ns.len(),
    ensures
        match literal_of(ns@, bytes@, j as int) {
            Some(t) => r matches Some(s) && s@ == t,
            None => r is None,
        },
{
    proof {
        reveal_strlit("${");
    }
    let raw = match node_text_exec(ns, bytes, j) {
        Some(t) => t,
        None => return None,
    };
    let v = chars_of(raw.as_str());
    let k = ns[j].kind.as_str();
    let kind_ok = same_str(k, "string") || (same_str(k, "template_string") && {
        proof {
            assert(v@.skip(0) =~= v@);
        }
        crate::text::find_from(&v, &chars_of("${"), 0).is_none()
    });
    if !kind_ok || v.len() < 2 {
        return None;
    }
    let first = v[0] as u32;
    let last = v[v.len() - 1] as u32;
    if first >= 0x80 || last >= 0x80 {
        proof {
            assert(v@.last() == v@[v.len() - 1]);
            assert(utf8_len(v@[0]) != 1 || utf8_len(v@.last()) != 1);
        }
        return None;
    }
    proof {
        assert(v@.last() == v@[v.len() - 1]);
    }
    let n = v.len();
    let s = string_range(&v, 1, n - 1);
    Some(s)
}

fn contains_call(calls: &Vec<String>, c: &str) -> (r: bool)
    ensures
        r == calls@.map_values(|s: String| s@).contains(c@),
{
    let mut i: usize = 0;
    while i < calls.len()
        invariant
            i <= calls.len(),
            forall|k: int| 0 <= k < i ==> (#[trigger] calls@[k])@ != c@,
        decreases calls.len() - i,
    {
        if same_str(calls[i].as_str(), c) {
            proof {
                assert(calls@.map_values(|s: String| s@)[i as int] == c@);
            }
            return true;
        }
        i = i + 1;
    }
    false
}

fn title_of(ns: &Vec<SyntaxNode>, bytes: &[u8], calls: &Vec<String>, i: usize) -> (r: Option<(usize, String)>)
    requires
        i < ns.len(),
        forall|k: int| 0 <= k < ns.len() ==> (#[trigger] ns@[k]).start_row < usize::MAX,
    ensures
        match title_at(ns@, bytes@, calls@.map_values(|s: String| s@), i as int) {
            Some((l, t)) => r matches Some((m, s)) && m == l && s@ == t,
            None => r is None,
        },
{
    proof {
        reveal_strlit("call_expression");
        reveal_strlit("function");
        reveal_strlit("arguments");
    }
    if !same_str(ns[i].kind.as_str(), "call_expression") {
        return None;
    }
    let named = match field_child_exec(ns, i, "function") {
        Some(f) => match callee_exec(ns, bytes, f) {
            Some(c) => contains_call(calls, c.as_str()),
            None => false,
        },
        None => false,
    };
    let a = match field_child_exec(ns, i, "arguments") {
        Some(a) => a,
        None => return None,
    };
    let j = match named_child(ns, a) {
        Some(j) => j,
        None => return None,
    };
    if !named {
        return None;
    }
    match literal(ns, bytes, j) {
        Some(t) => Some((ns[j].start_row + 1, t)),
        None => None,
    }
}

/// Every row fits a line number.
pub open spec fn rows_fit(ns: Seq<SyntaxNode>) -> bool {
    forall|k: int| 0 <= k < ns.len() ==> (#[trigger] ns[k]).start_row < u32::MAX
}

fn rows_fit_exec(ns: &Vec<SyntaxNode>) -> (r: bool)
    ensures
        r == rows_fit(ns@),
{
    let mut k: usize = 0;
    while k < ns.len()
        invariant
            k <= ns.len(),
            forall|q: int| 0 <= q < k ==> (#[trigger] ns@[q]).start_row < u32::MAX,
        decreases ns.len() - k,
    {
        if ns[k].start_row >= u32::MAX as usize {
            return false;
        }
        k = k + 1;
    }
    true
}

/// Each title of a test file, in reading order, with its line.
pub fn titles(ns: &Vec<SyntaxNode>, bytes: &[u8], calls: &Vec<String>) -> (r: Vec<(usize, String)>)
    requires
        rows_fit(ns@),
    ensures
        r@.map_values(|t: (usize, String)| (t.0 as int, t.1@)) == titles_spec(ns@, bytes@, calls@.map_values(|s: String| s@)),
{
    let ghost cv = calls@.map_values(|s: String| s@);
    let ghost le = title_order(ns@, bytes@, cv);
    let n = ns.len();
    let mut found: Vec<Option<(usize, String)>> = Vec::new();
    let mut order: Vec<usize> = Vec::new();
    let mut i: usize = 0;
    while i < n
        invariant
            i <= n == ns.len(),
            rows_fit(ns@),
            cv == calls@.map_values(|s: String| s@),
            le == title_order(ns@, bytes@, cv),
            found.len() == i,
            forall|q: int| 0 <= q < i ==> match title_at(ns@, bytes@, cv, q) {
                Some((l, t)) => (#[trigger] found@[q]) matches Some((m, s)) && m == l && s@ == t,
                None => found@[q] is None,
            },
            order@.map_values(|x: usize| x as int) == sort_by(titled(ns@, bytes@, cv, i as int), le),
            forall|q: int| 0 <= q < order.len() ==> order@[q] < i,
            forall|q: int| 0 <= q < order.len() ==> title_at(ns@, bytes@, cv, #[trigger] order@[q] as int) is Some,
        decreases n - i,
    {
        proof {
            assert forall|k: int| 0 <= k < ns.len() implies (#[trigger] ns@[k]).start_row < usize::MAX by {
                assert(ns@[k].start_row < u32::MAX);
            }
        }
        let t = title_of(ns, bytes, calls, i);
        let line = match &t {
            Some((l, _)) => *l,
            None => 0,
        };
        let has = t.is_some();
        found.push(t);
        if has {
            let ghost s = order@.map_values(|x: usize| x as int);
            let mut j: usize = order.len();
            while j > 0 && !comes_before(ns, bytes, calls, &found, order[j - 1], i, line)
                invariant
                    j <= order.len(),
                    i < n == ns.len(),
                    found.len() == i + 1,
                    rows_fit(ns@),
                    cv == calls@.map_values(|s: String| s@),
                    title_at(ns@, bytes@, cv, i as int) matches Some((l, _)) && l == line,
                    forall|q: int| 0 <= q < i + 1 ==> match title_at(ns@, bytes@, cv, q) {
                        Some((l, t)) => (#[trigger] found@[q]) matches Some((m, s)) && m == l && s@ == t,
                        None => found@[q] is None,
                    },
                    s == order@.map_values(|x: usize| x as int),
                    le == title_order(ns@, bytes@, cv),
                    forall|q: int| 0 <= q < order.len() ==> order@[q] < i,
                    forall|q: int| 0 <= q < order.len() ==> title_at(ns@, bytes@, cv, #[trigger] order@[q] as int) is Some,
                    forall|q: int| j <= q < order.len() ==> !le(#[trigger] s[q], i as int),
                decreases j,
            {
                proof {
                    assert(s[j - 1] == order@[j - 1] as int);
                }
                j = j - 1;
            }
            proof {
                if j > 0 {
                    assert(s[j - 1] == order@[j - 1] as int);
                }
            }
            proof {
                lemma_insert_by_at(s, i as int, le, j as int);
                let m = titled(ns@, bytes@, cv, i as int);
                assert(titled(ns@, bytes@, cv, i as int + 1) == m.push(i as int));
                assert(m.push(i as int).drop_last() =~= m);
            }
            order.insert(j, i);
            proof {
                assert(order@.map_values(|x: usize| x as int) =~= s.insert(j as int, i as int));
            }
        }
        i = i + 1;
    }
    let ghost ord = order@.map_values(|x: usize| x as int);
    let mut out: Vec<(usize, String)> = Vec::new();
    let mut q: usize = 0;
    while q < order.len()
        invariant
            q <= order.len(),
            n == ns.len(),
            found.len() == n,
            cv == calls@.map_values(|s: String| s@),
            ord == order@.map_values(|x: usize| x as int),
            forall|k: int| 0 <= k < order.len() ==> order@[k] < n,
            forall|k: int| 0 <= k < n ==> match title_at(ns@, bytes@, cv, k) {
                Some((l, t)) => (#[trigger] found@[k]) matches Some((m, s)) && m == l && s@ == t,
                None => found@[k] is None,
            },
            forall|k: int| 0 <= k < order.len() ==> title_at(ns@, bytes@, cv, #[trigger] order@[k] as int) is Some,
            out@.map_values(|t: (usize, String)| (t.0 as int, t.1@)) == ord.take(q as int).map_values(
                |k: int| title_at(ns@, bytes@, cv, k)->0,
            ),
        decreases order.len() - q,
    {
        let k = order[q];
        let ghost before = out@.map_values(|t: (usize, String)| (t.0 as int, t.1@));
        proof {
            assert(title_at(ns@, bytes@, cv, k as int) is Some);
        }
        match &found[k] {
            Some((l, t)) => {
                out.push((*l, copy_str(t.as_str())));
                proof {
                    assert(ord.take(q as int + 1) =~= ord.take(q as int).push(k as int));
                    assert(out@.map_values(|t: (usize, String)| (t.0 as int, t.1@)) =~= before.push(title_at(ns@, bytes@, cv, k as int)->0));
                }
            },
            None => {},
        }
        q = q + 1;
    }
    proof {
        assert(ord.take(q as int) =~= ord);
    }
    out
}

fn comes_before(
    ns: &Vec<SyntaxNode>,
    bytes: &[u8],
    calls: &Vec<String>,
    found: &Vec<Option<(usize, String)>>,
    o: usize,
    i: usize,
    line: usize,
) -> (r: bool)
    requires
        o < i < ns.len(),
        found.len() == i + 1,
        title_at(ns@, bytes@, calls@.map_values(|s: String| s@), i as int) matches Some((l, _)) && l == line,
        title_at(ns@, bytes@, calls@.map_values(|s: String| s@), o as int) is Some,
        forall|q: int| 0 <= q < i + 1 ==> match title_at(ns@, bytes@, calls@.map_values(|s: String| s@), q) {
            Some((l, t)) => (#[trigger] found@[q]) matches Some((m, s)) && m == l && s@ == t,
            None => found@[q] is None,
        },
    ensures
        r == title_order(ns@, bytes@, calls@.map_values(|s: String| s@))(o as int, i as int),
{
    let lo = match &found[o] {
        Some((l, _)) => *l,
        None => 0,
    };
    lo < line || (lo == line && (is_above(ns, o, i) || (!is_above(ns, i, o) && o >= i)))
}

/// A tree the titles can be read from: one whose rows fit line numbers.
pub open spec fn usable(ns: Option<Seq<SyntaxNode>>) -> Option<Seq<SyntaxNode>> {
    match ns {
        Some(x) => if rows_fit(x) { Some(x) } else { None },
        None => None,
    }
}

impl Names {
    /// What the rules find in `source`: its name outside the file pattern,
    /// then each title, in reading order, that carries the title pattern.
    pub fn check(&self, source: &Source<'_>) -> (r: Vec<Finding>)
        ensures
            match self.titles_without {
                None => finding_views(r@) == names_views(*self, source.path@, crate::text::utf8_bytes(source.text@), None),
                Some(_) => exists|ns: Option<Seq<SyntaxNode>>| crate::guard::size::parsed_as(source.path@, crate::text::utf8_bytes(source.text@), ns)
                    && finding_views(r@) == names_views(*self, source.path@, crate::text::utf8_bytes(source.text@), usable(ns)),
            },
    {
        let mut out: Vec<Finding> = Vec::new();
        let name = name_of(source.path);
        proof {
            reveal_strlit("test-file-name");
            reveal_strlit("file name `");
            reveal_strlit("` doesn't match the test file pattern");
            reveal_strlit("");
        }
        match &self.file {
            Some(m) => {
                if !m.is_match(name.as_str()) {
                    let mut message = copy_str("file name `");
                    push_str(&mut message, name.as_str());
                    push_str(&mut message, "` doesn't match the test file pattern");
                    out.push(Finding {
                        file: copy_str(source.path),
                        line: 1,
                        rule: copy_str("test-file-name"),
                        message,
                        anchor: String::new(),
                        measure: None,
                    });
                }
            },
            None => {},
        }
        let ghost head = finding_views(out@);
        proof {
            let name_v = file_name(source.path@);
            assert(head =~= match self.file {
                Some(m) => if !regex_finds(m.source(), name_v) {
                    seq![(source.path@, 1u32, "test-file-name"@, "file name `"@ + name_v + "` doesn't match the test file pattern"@, Seq::<char>::empty(), None)]
                } else {
                    Seq::empty()
                },
                None => Seq::empty(),
            });
        }
        let without = match &self.titles_without {
            None => return out,
            Some(w) => w,
        };
        let bytes = source.text.as_bytes();
        let parsed = parse(source.path, bytes);
        let ghost ns: Option<Seq<SyntaxNode>> = match &parsed {
            Some(v) => Some(v@),
            None => None,
        };
        proof {
            assert(crate::guard::size::parsed_as(source.path@, crate::text::utf8_bytes(source.text@), ns));
        }
        let nodes = match parsed {
            None => {
                proof {
                    assert(head + Seq::<FindingView>::empty() =~= head);
                }
                return out;
            },
            Some(v) => v,
        };
        if !rows_fit_exec(&nodes) {
            return out;
        }
        let ts = titles(&nodes, bytes, &self.calls);
        let ghost tv = ts@.map_values(|t: (usize, String)| (t.0 as int, t.1@));
        let mut k: usize = 0;
        proof {
            assert(tv.take(0) =~= Seq::<(int, Seq<char>)>::empty());
            assert(head + title_findings(source.path@, without.source(), tv.take(0)) =~= head);
        }
        while k < ts.len()
            invariant
                k <= ts.len(),
                tv == ts@.map_values(|t: (usize, String)| (t.0 as int, t.1@)),
                finding_views(out@) == head + title_findings(source.path@, without.source(), tv.take(k as int)),
            decreases ts.len() - k,
        {
            let (line, title) = (ts[k].0, ts[k].1.as_str());
            proof {
                assert(tv.take(k as int + 1).drop_last() =~= tv.take(k as int));
                assert(tv.take(k as int + 1).last() == (line as int, title@));
            }
            let ghost before = finding_views(out@);
            match regex_find(without, title) {
                Some(m) => {
                    let mut message = copy_str("test title carries \"");
                    push_str(&mut message, m.as_str());
                    push_str(&mut message, "\"");
                    out.push(Finding {
                        file: copy_str(source.path),
                        line: line as u32,
                        rule: copy_str("test-title"),
                        message,
                        anchor: copy_str(title),
                        measure: None,
                    });
                    proof {
                        assert(finding_views(out@) =~= before.push((source.path@, line as u32, "test-title"@,
                            "test title carries \""@ + m@ + "\""@, title@, None)));
                    }
                },
                None => {},
            }
            k = k + 1;
        }
        proof {
            assert(tv.take(k as int) =~= tv);
        }
        out
    }
}

} // verus!
