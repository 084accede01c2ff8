//! A function's own lines: its first line to its last, minus the lines of the
//! functions directly nested in it, so a long callback is charged to itself
//! and not to every function around it.
use vstd::prelude::*;
use vstd::utf8::{decode_utf8, valid_utf8};
use crate::lang::syntax::{listed, SyntaxNode};
use crate::sorting::{lemma_insert_by_at, sort_by};
use crate::text::same_str;

verus! {

/// A function's lines.
#[derive(Debug, Clone, PartialEq, Eq)]
pub struct Length {
    /// 1-based, where the function's first modifier or decorator is.
    pub line: u32,
    pub own: u64,
    pub total: u64,
    pub name: String,
}

/// `std::str::from_utf8`: the text the bytes encode, when they are UTF-8.
#[verifier::external_body]
fn utf8_str(bytes: &[u8]) -> (r: Option<String>)
    ensures
        r is Some <==> valid_utf8(bytes@),
        r matches Some(s) ==> s@ == decode_utf8(bytes@),
{
    std::str::from_utf8(bytes).ok().map(|s| s.to_string())
}

/// Every node kind that is a function, with a body or an expression.
pub open spec fn function_kind(k: Seq<char>) -> bool {
    ||| k == "function_declaration"@
    ||| k == "generator_function_declaration"@
    ||| k == "function_expression"@
    ||| k == "function"@
    ||| k == "generator_function"@
    ||| k == "arrow_function"@
    ||| k == "method_definition"@
}

/// Named, since the `function` keyword is a token of the same kind name.
pub open spec fn is_fn(ns: Seq<SyntaxNode>, i: int) -> bool {
    ns[i].named && function_kind(ns[i].kind@)
}

fn is_function(ns: &Vec<SyntaxNode>, i: usize) -> (r: bool)
    requires
        i < ns.len(),
    ensures
        r == is_fn(ns@, i as int),
{
    let k = ns[i].kind.as_str();
    ns[i].named && (same_str(k, "function_declaration") || same_str(k, "generator_function_declaration")
        || same_str(k, "function_expression") || same_str(k, "function") || same_str(k, "generator_function")
        || same_str(k, "arrow_function") || same_str(k, "method_definition"))
}

/// Whether node `j` is a child of `i` filling the field `f`.
pub open spec fn fills(ns: Seq<SyntaxNode>, i: int, f: Seq<char>, j: int) -> bool {
    &&& ns[j].parent matches Some(p) && p == i
    &&& ns[j].field matches Some(x) && x@ == f
}

/// The first child of `i`, from `j` on, that fills the field `f`.
pub open spec fn field_from(ns: Seq<SyntaxNode>, i: int, f: Seq<char>, j: int) -> Option<int>
    decreases ns.len() - j,
{
    if j < 0 || j >= ns.len() {
        None
    } else if fills(ns, i, f, j) {
        Some(j)
    } else {
        field_from(ns, i, f, j + 1)
    }
}

/// The child of `i` that fills the field `f`: the first, as tree-sitter
/// gives it.
pub open spec fn field_child(ns: Seq<SyntaxNode>, i: int, f: Seq<char>) -> Option<int> {
    field_from(ns, i, f, i + 1)
}

pub proof fn lemma_field_from(ns: Seq<SyntaxNode>, i: int, f: Seq<char>, j: int)
    requires
        j >= 0,
    ensures
        field_from(ns, i, f, j) matches Some(k) ==> j <= k < ns.len(),
    decreases ns.len() - j,
{
    if j < ns.len() && !fills(ns, i, f, j) {
        lemma_field_from(ns, i, f, j + 1);
    }
}

pub(crate) fn field_child_exec(ns: &Vec<SyntaxNode>, i: usize, f: &str) -> (r: Option<usize>)
    requires
        i < ns.len(),
    ensures
        match field_child(ns@, i as int, f@) {
            Some(k) => r == Some(k as usize) && i < k < ns.len(),
            None => r is None,
        },
{
    let mut j = i + 1;
    proof {
        lemma_field_from(ns@, i as int, f@, j as int);
    }
    while j < ns.len()
        invariant
            i < j <= ns.len(),
            field_child(ns@, i as int, f@) == field_from(ns@, i as int, f@, j as int),
        decreases ns.len() - j,
    {
        let hit = match ns[j].parent {
            Some(p) => p == i && match &ns[j].field {
                Some(x) => same_str(x.as_str(), f),
                None => false,
            },
            None => false,
        };
        if hit {
            return Some(j);
        }
        j = j + 1;
    }
    None
}

/// The last named node before `j`, counting down, with the parent `parent`.
pub open spec fn prev_named_from(ns: Seq<SyntaxNode>, parent: Option<usize>, j: int) -> Option<int>
    decreases j + 1,
{
    if j < 0 || j >= ns.len() {
        None
    } else if ns[j].parent == parent && ns[j].named {
        Some(j)
    } else {
        prev_named_from(ns, parent, j - 1)
    }
}

/// The previous named sibling of `i`.
pub open spec fn prev_named(ns: Seq<SyntaxNode>, i: int) -> Option<int> {
    if ns[i].parent is None { None } else { prev_named_from(ns, ns[i].parent, i - 1) }
}

pub proof fn lemma_prev_named_from(ns: Seq<SyntaxNode>, parent: Option<usize>, j: int)
    ensures
        prev_named_from(ns, parent, j) matches Some(k) ==> 0 <= k <= j && k < ns.len(),
    decreases j + 1,
{
    if 0 <= j < ns.len() && !(ns[j].parent == parent && ns[j].named) {
        lemma_prev_named_from(ns, parent, j - 1);
    }
}

fn prev_named_exec(ns: &Vec<SyntaxNode>, i: usize) -> (r: Option<usize>)
    requires
        i < ns.len(),
    ensures
        match prev_named(ns@, i as int) {
            Some(k) => r == Some(k as usize) && 0 <= k < i,
            None => r is None,
        },
{
    if ns[i].parent.is_none() {
        return None;
    }
    let parent = ns[i].parent;
    let mut j = i;
    proof {
        lemma_prev_named_from(ns@, parent, i - 1);
    }
    while j > 0
        invariant
            j <= i < ns.len(),
            parent == ns@[i as int].parent,
            parent is Some,
            prev_named(ns@, i as int) == prev_named_from(ns@, parent, j - 1),
        decreases j,
    {
        if ns[j - 1].parent == parent && ns[j - 1].named {
            return Some(j - 1);
        }
        j = j - 1;
    }
    None
}

/// The row above a node's own that its decorators start it at: each
/// decorator before it moves the row up to its own, a comment between
/// them doesn't part them, and anything else stops the search.
pub open spec fn decorated_row(ns: Seq<SyntaxNode>, p: Option<int>, row: int) -> int
    decreases (match p {
        Some(x) => x + 1,
        None => 0,
    }),
{
    match p {
        None => row,
        Some(x) => if x < 0 || x >= ns.len() {
            row
        } else {
            proof {
                if ns[x].parent is Some {
                    lemma_prev_named_from(ns, ns[x].parent, x - 1);
                }
            }
            if ns[x].kind@ == "decorator"@ {
                decorated_row(ns, prev_named(ns, x), ns[x].start_row as int)
            } else if ns[x].kind@ == "comment"@ {
                decorated_row(ns, prev_named(ns, x), row)
            } else {
                row
            }
        },
    }
}

/// The first row of a function, counting an `export` in front of a
/// declaration and the decorators in front of a method, which belong to it.
pub open spec fn first_row(ns: Seq<SyntaxNode>, i: int) -> int {
    match ns[i].parent {
        Some(p) => if 0 <= p < ns.len() && ns[p as int].kind@ == "export_statement"@ {
            ns[p as int].start_row as int
        } else {
            decorated_row(ns, prev_named(ns, i), ns[i].start_row as int)
        },
        None => decorated_row(ns, prev_named(ns, i), ns[i].start_row as int),
    }
}

fn first_row_exec(ns: &Vec<SyntaxNode>, i: usize) -> (r: usize)
    requires
        i < ns.len(),
        listed(ns@),
    ensures
        r == first_row(ns@, i as int),
{
    let parent = ns[i].parent;
    if let Some(p) = parent {
        if p < ns.len() && same_str(ns[p].kind.as_str(), "export_statement") {
            return ns[p].start_row;
        }
    }
    let mut row = ns[i].start_row;
    let mut prev = prev_named_exec(ns, i);
    proof {
        assert(first_row(ns@, i as int) == decorated_row(ns@, prev_named(ns@, i as int), row as int));
    }
    while prev.is_some()
        invariant
            i < ns.len(),
            first_row(ns@, i as int) == decorated_row(ns@, match prev {
                Some(x) => Some(x as int),
                None => None,
            }, row as int),
            prev matches Some(x) ==> x < ns.len(),
        decreases (match prev {
            Some(x) => x + 1,
            None => 0,
        }),
    {
        let x = prev.unwrap();
        let k = ns[x].kind.as_str();
        if same_str(k, "decorator") {
            row = ns[x].start_row;
        } else if !same_str(k, "comment") {
            return row;
        }
        prev = prev_named_exec(ns, x);
    }
    row
}

/// The text of node `i`, when its bytes are UTF-8 within the source.
pub open spec fn node_text(ns: Seq<SyntaxNode>, bytes: Seq<u8>, i: int) -> Option<Seq<char>> {
    let a = ns[i].start_byte as int;
    let b = ns[i].end_byte as int;
    if a <= b <= bytes.len() && valid_utf8(bytes.subrange(a, b)) {
        Some(decode_utf8(bytes.subrange(a, b)))
    } else {
        None
    }
}

pub(crate) fn node_text_exec(ns: &Vec<SyntaxNode>, bytes: &[u8], i: usize) -> (r: Option<String>)
    requires
        i < ns.len(),
    ensures
        match node_text(ns@, bytes@, i as int) {
            Some(t) => r matches Some(s) && s@ == t,
            None => r is None,
        },
{
    let a = ns[i].start_byte;
    let b = ns[i].end_byte;
    if a > b || b > bytes.len() {
        return None;
    }
    let mut part: Vec<u8> = Vec::new();
    let mut k = a;
    while k < b
        invariant
            a <= k <= b <= bytes.len(),
            part@ == bytes@.subrange(a as int, k as int),
        decreases b - k,
    {
        part.push(bytes[k]);
        proof {
            assert(bytes@.subrange(a as int, k as int + 1) =~= bytes@.subrange(a as int, k as int).push(bytes@[k as int]));
        }
        k = k + 1;
    }
    utf8_str(part.as_slice())
}

/// The name of a callee's base identifier: `it` for `it(...)`,
/// `it.only(...)` and `it.each(...)(...)`.
pub open spec fn callee(ns: Seq<SyntaxNode>, bytes: Seq<u8>, i: int) -> Option<Seq<char>>
    decreases ns.len() - i,
{
    if i < 0 || i >= ns.len() {
        None
    } else if ns[i].kind@ == "identifier"@ {
        node_text(ns, bytes, i)
    } else if ns[i].kind@ == "member_expression"@ || ns[i].kind@ == "call_expression"@ {
        let f = if ns[i].kind@ == "member_expression"@ { "object"@ } else { "function"@ };
        match field_child(ns, i, f) {
            Some(j) => if i < j < ns.len() { callee(ns, bytes, j) } else { None },
            None => None,
        }
    } else {
        None
    }
}

pub(crate) fn callee_exec(ns: &Vec<SyntaxNode>, bytes: &[u8], i: usize) -> (r: Option<String>)
    requires
        i < ns.len(),
    ensures
        match callee(ns@, bytes@, i as int) {
            Some(t) => r matches Some(s) && s@ == t,
            None => r is None,
        },
    decreases ns.len() - i,
{
    let k = ns[i].kind.as_str();
    if same_str(k, "identifier") {
        node_text_exec(ns, bytes, i)
    } else if same_str(k, "member_expression") || same_str(k, "call_expression") {
        let f = if same_str(k, "member_expression") { "object" } else { "function" };
        proof {
            reveal_strlit("object");
            reveal_strlit("function");
        }
        match field_child_exec(ns, i, f) {
            Some(j) => callee_exec(ns, bytes, j),
            None => None,
        }
    } else {
        None
    }
}

/// Whether function `i` is a callback passed straight to a call of one of
/// the test hooks.
pub open spec fn hook_callback(ns: Seq<SyntaxNode>, bytes: Seq<u8>, hooks: Seq<Seq<char>>, i: int) -> bool {
    match ns[i].parent {
        Some(a) => 0 <= a < ns.len() && ns[a as int].kind@ == "arguments"@ && match ns[a as int].parent {
            Some(c) => 0 <= c < ns.len() && ns[c as int].kind@ == "call_expression"@ && match field_child(ns, c as int, "function"@) {
                Some(f) => match callee(ns, bytes, f) {
                    Some(n) => hooks.contains(n),
                    None => false,
                },
                None => false,
            },
            None => false,
        },
        None => false,
    }
}

fn hook_callback_exec(ns: &Vec<SyntaxNode>, bytes: &[u8], hooks: &[String], i: usize) -> (r: bool)
    requires
        i < ns.len(),
    ensures
        r == hook_callback(ns@, bytes@, hooks@.map_values(|h: String| h@), i as int),
{
    let a = match ns[i].parent {
        Some(a) => a,
        None => return false,
    };
    if a >= ns.len() || !same_str(ns[a].kind.as_str(), "arguments") {
        return false;
    }
    let c = match ns[a].parent {
        Some(c) => c,
        None => return false,
    };
    if c >= ns.len() || !same_str(ns[c].kind.as_str(), "call_expression") {
        return false;
    }
    proof {
        reveal_strlit("function");
    }
    let f = match field_child_exec(ns, c, "function") {
        Some(f) => f,
        None => return false,
    };
    let n = match callee_exec(ns, bytes, f) {
        Some(n) => n,
        None => return false,
    };
    let ghost hv = hooks@.map_values(|h: String| h@);
    proof {
        assert(hook_callback(ns@, bytes@, hv, i as int) == hv.contains(n@));
    }
    let mut k: usize = 0;
    while k < hooks.len()
        invariant
            k <= hooks.len(),
            hv == hooks@.map_values(|h: String| h@),
            hook_callback(ns@, bytes@, hv, i as int) == hv.contains(n@),
            forall|q: int| 0 <= q < k ==> hv[q] != n@,
        decreases hooks.len() - k,
    {
        if same_str(hooks[k].as_str(), n.as_str()) {
            proof {
                assert(hv[k as int] == n@);
            }
            return true;
        }
        k = k + 1;
    }
    false
}

/// The node that names function `i`: its own `name`, or the name of the
/// variable, key or field it is the value of.
pub open spec fn name_node(ns: Seq<SyntaxNode>, i: int) -> Option<int> {
    match field_child(ns, i, "name"@) {
        Some(j) => Some(j),
        None => match ns[i].parent {
            None => None,
            Some(p) => if p >= ns.len() {
                None
            } else {
                let k = ns[p as int].kind@;
                if k == "variable_declarator"@ {
                    field_child(ns, p as int, "name"@)
                } else if k == "pair"@ {
                    field_child(ns, p as int, "key"@)
                } else if k == "public_field_definition"@ || k == "field_definition"@ {
                    match field_child(ns, p as int, "name"@) {
                        Some(j) => Some(j),
                        None => field_child(ns, p as int, "property"@),
                    }
                } else {
                    None
                }
            },
        },
    }
}

/// Function `i`'s name, or nothing.
pub open spec fn fn_name(ns: Seq<SyntaxNode>, bytes: Seq<u8>, i: int) -> Seq<char> {
    match name_node(ns, i) {
        Some(j) => match node_text(ns, bytes, j) {
            Some(t) => t,
            None => Seq::empty(),
        },
        None => Seq::empty(),
    }
}

fn name_exec(ns: &Vec<SyntaxNode>, bytes: &[u8], i: usize) -> (r: String)
    requires
        i < ns.len(),
    ensures
        r@ == fn_name(ns@, bytes@, i as int),
{
    proof {
        reveal_strlit("name");
        reveal_strlit("key");
        reveal_strlit("property");
    }
    let named = match field_child_exec(ns, i, "name") {
        Some(j) => Some(j),
        None => match ns[i].parent {
            None => None,
            Some(p) => if p >= ns.len() {
                None
            } else {
                let k = ns[p].kind.as_str();
                if same_str(k, "variable_declarator") {
                    field_child_exec(ns, p, "name")
                } else if same_str(k, "pair") {
                    field_child_exec(ns, p, "key")
                } else if same_str(k, "public_field_definition") || same_str(k, "field_definition") {
                    match field_child_exec(ns, p, "name") {
                        Some(j) => Some(j),
                        None => field_child_exec(ns, p, "property"),
                    }
                } else {
                    None
                }
            },
        },
    };
    match named {
        Some(j) => match node_text_exec(ns, bytes, j) {
            Some(t) => t,
            None => String::new(),
        },
        None => String::new(),
    }
}

/// The nearest function that encloses node `j`.
pub open spec fn owner(ns: Seq<SyntaxNode>, j: int) -> Option<int>
    decreases j,
{
    if j < 0 || j >= ns.len() {
        None
    } else {
        match ns[j].parent {
            None => None,
            Some(p) => if p >= j {
                None
            } else if is_fn(ns, p as int) {
                Some(p as int)
            } else {
                owner(ns, p as int)
            },
        }
    }
}

/// Whether node `t` is a function directly nested in function `f`.
pub open spec fn nested_in(ns: Seq<SyntaxNode>, f: int, t: int) -> bool {
    owner(ns, t) == Some(f) && is_fn(ns, t)
}

/// Whether row `r` lies in a function directly nested in function `i`.
pub open spec fn nested_row(ns: Seq<SyntaxNode>, i: int, r: int) -> bool {
    exists|f: int| 0 <= f < ns.len() && #[trigger] nested_in(ns, i, f) && first_row(ns, f) <= r <= ns[f].end_row
}

/// How many of the rows `lo..hi` lie in functions directly nested in `i`.
pub open spec fn nested_count(ns: Seq<SyntaxNode>, i: int, lo: int, hi: int) -> int
    decreases hi - lo,
{
    if hi <= lo {
        0
    } else {
        nested_count(ns, i, lo, hi - 1) + if nested_row(ns, i, hi - 1) { 1int } else { 0int }
    }
}

proof fn lemma_nested_count(ns: Seq<SyntaxNode>, i: int, lo: int, hi: int)
    ensures
        0 <= nested_count(ns, i, lo, hi) <= if hi > lo { hi - lo } else { 0 },
    decreases hi - lo,
{
    if hi > lo {
        lemma_nested_count(ns, i, lo, hi - 1);
    }
}

/// Function `i`'s lines: its first row to its last, and its own, which
/// leave out the rows of the functions directly nested in it.
pub open spec fn length_of(ns: Seq<SyntaxNode>, bytes: Seq<u8>, i: int) -> (int, int, int, Seq<char>) {
    let start = first_row(ns, i);
    let end = ns[i].end_row as int;
    let total = end - start + 1;
    (start + 1, total - nested_count(ns, i, start, end + 1), total, fn_name(ns, bytes, i))
}

/// Whether node `a` is a proper ancestor of node `b`.
pub open spec fn above(ns: Seq<SyntaxNode>, a: int, b: int) -> bool
    decreases b,
{
    if b < 0 || b >= ns.len() {
        false
    } else {
        match ns[b].parent {
            None => false,
            Some(p) => if p >= b { false } else { p == a || above(ns, a, p as int) },
        }
    }
}

/// The order functions are reported in: by first line, and on one line in
/// the order a walk that takes the last child first meets them.
pub open spec fn report_order(ns: Seq<SyntaxNode>) -> spec_fn(int, int) -> bool {
    |a: int, b: int| {
        let la = first_row(ns, a);
        let lb = first_row(ns, b);
        la < lb || (la == lb && (above(ns, a, b) || (!above(ns, b, a) && a >= b)))
    }
}

/// The functions measured, in the order the nodes are listed: every
/// function except a callback passed straight to a test hook.
pub open spec fn measured(ns: Seq<SyntaxNode>, bytes: Seq<u8>, hooks: Seq<Seq<char>>, n: int) -> Seq<int>
    decreases n,
{
    if n <= 0 {
        Seq::empty()
    } else if is_fn(ns, n - 1) && !hook_callback(ns, bytes, hooks, n - 1) {
        measured(ns, bytes, hooks, n - 1).push(n - 1)
    } else {
        measured(ns, bytes, hooks, n - 1)
    }
}

pub open spec fn length_view(l: Length) -> (int, int, int, Seq<char>) {
    (l.line as int, l.own as int, l.total as int, l.name@)
}

pub(crate) fn is_above(ns: &Vec<SyntaxNode>, a: usize, b: usize) -> (r: bool)
    requires
        b < ns.len(),
    ensures
        r == above(ns@, a as int, b as int),
{
    let mut x = b;
    while x < ns.len()
        invariant
            x < ns.len() || x == usize::MAX,
            above(ns@, a as int, b as int) == above(ns@, a as int, x as int),
        decreases x,
    {
        match ns[x].parent {
            None => return false,
            Some(p) => {
                if p >= x {
                    return false;
                }
                if p == a {
                    return true;
                }
                x = p;
            },
        }
    }
    false
}

fn reported_before(ns: &Vec<SyntaxNode>, rows: &Vec<usize>, a: usize, b: usize) -> (r: bool)
    requires
        a < ns.len(),
        b < ns.len(),
        rows.len() == ns.len(),
        forall|k: int| 0 <= k < ns.len() ==> #[trigger] rows@[k] == first_row(ns@, k),
    ensures
        r == report_order(ns@)(a as int, b as int),
{
    let la = rows[a];
    let lb = rows[b];
    la < lb || (la == lb && (is_above(ns, a, b) || (!is_above(ns, b, a) && a >= b)))
}

/// Every function in the tree except a callback passed straight to a test
/// hook, with its first line, its own and total lines and its name,
/// ordered by first line.
pub fn lengths(ns: &Vec<SyntaxNode>, bytes: &[u8], hooks: &[String]) -> (r: Vec<Length>)
    requires
        measurable(ns@),
    ensures
        r@.map_values(|l: Length| length_view(l)) == measured_lengths(ns@, bytes@, hooks@.map_values(|h: String| h@)),
{
    let ghost hv = hooks@.map_values(|h: String| h@);
    let n = ns.len();
    let mut rows: Vec<usize> = Vec::new();
    let mut owners: Vec<Option<usize>> = Vec::new();
    let mut k: usize = 0;
    while k < n
        invariant
            k <= n == ns.len(),
            listed(ns@),
            rows.len() == k,
            owners.len() == k,
            forall|q: int| 0 <= q < k ==> #[trigger] rows@[q] == first_row(ns@, q),
            forall|q: int| 0 <= q < k ==> (#[trigger] owners@[q] matches Some(o) ==> owner(ns@, q) == Some(o as int))
                && (owners@[q] is None ==> owner(ns@, q) is None),
        decreases n - k,
    {
        rows.push(first_row_exec(ns, k));
        let o = match ns[k].parent {
            None => None,
            Some(p) => if p >= k {
                None
            } else if is_function(ns, p) {
                Some(p)
            } else {
                owners[p]
            },
        };
        owners.push(o);
        k = k + 1;
    }
    let mut order: Vec<usize> = Vec::new();
    let ghost le = report_order(ns@);
    let mut i: usize = 0;
    while i < n
        invariant
            i <= n == ns.len(),
            listed(ns@),
            rows.len() == n,
            forall|q: int| 0 <= q < n ==> #[trigger] rows@[q] == first_row(ns@, q),
            le == report_order(ns@),
            hv == hooks@.map_values(|h: String| h@),
            order@.map_values(|x: usize| x as int) == sort_by(measured(ns@, bytes@, hv, i as int), le),
            forall|q: int| 0 <= q < order.len() ==> order@[q] < i,
            forall|q: int| 0 <= q < order.len() ==> is_fn(ns@, #[trigger] order@[q] as int),
        decreases n - i,
    {
        if is_function(ns, i) && !hook_callback_exec(ns, bytes, hooks, i) {
            let ghost s = order@.map_values(|x: usize| x as int);
            let mut j: usize = order.len();
            while j > 0 && !reported_before(ns, &rows, order[j - 1], i)
                invariant
                    j <= order.len(),
                    i < n == ns.len(),
                    rows.len() == n,
                    forall|q: int| 0 <= q < n ==> #[trigger] rows@[q] == first_row(ns@, q),
                    s == order@.map_values(|x: usize| x as int),
                    le == report_order(ns@),
                    forall|q: int| 0 <= q < order.len() ==> order@[q] < i,
                    forall|q: int| 0 <= q < order.len() ==> is_fn(ns@, #[trigger] order@[q] as int),
                    forall|q: int| j <= q < order.len() ==> !le(#[trigger] s[q], i as int),
                decreases j,
            {
                proof {
                    assert(s[j - 1] == order@[j - 1] as int);
                }
                j = j - 1;
            }
            proof {
                if j > 0 {
                    assert(s[j - 1] == order@[j - 1] as int);
                }
                lemma_insert_by_at(s, i as int, le, j as int);
                let m = measured(ns@, bytes@, hv, i as int);
                assert(measured(ns@, bytes@, hv, i as int + 1) == m.push(i as int));
                assert(m.push(i as int).drop_last() =~= m);
            }
            order.insert(j, i);
            proof {
                assert(order@.map_values(|x: usize| x as int) =~= s.insert(j as int, i as int));
            }
        }
        i = i + 1;
    }
    let ghost ord = order@.map_values(|x: usize| x as int);
    let mut out: Vec<Length> = Vec::new();
    let mut q: usize = 0;
    while q < order.len()
        invariant
            q <= order.len(),
            n == ns.len(),
            listed(ns@),
            forall|k: int| 0 <= k < ns.len() ==> (#[trigger] ns@[k]).end_row < u32::MAX,
            rows.len() == n,
            owners.len() == n,
            forall|t: int| 0 <= t < n ==> #[trigger] rows@[t] == first_row(ns@, t),
            forall|t: int| 0 <= t < n ==> (#[trigger] owners@[t] matches Some(o) ==> owner(ns@, t) == Some(o as int))
                && (owners@[t] is None ==> owner(ns@, t) is None),
            ord == order@.map_values(|x: usize| x as int),
            forall|t: int| 0 <= t < order.len() ==> order@[t] < n,
            forall|t: int| 0 <= t < order.len() ==> is_fn(ns@, #[trigger] order@[t] as int),
            forall|k: int| 0 <= k < ns.len() && is_fn(ns@, k) ==> first_row(ns@, k) <= (#[trigger] ns@[k]).end_row,
            out@.map_values(|l: Length| length_view(l)) == ord.take(q as int).map_values(|f: int| length_of(ns@, bytes@, f)),
        decreases order.len() - q,
    {
        let f = order[q];
        let start = rows[f];
        let end = ns[f].end_row;
        let l = measure(ns, bytes, &rows, &owners, f, start, end);
        let ghost before = out@;
        out.push(l);
        proof {
            assert(ord.take(q as int + 1) =~= ord.take(q as int).push(f as int));
            assert(out@.map_values(|l: Length| length_view(l)) =~= before.map_values(|l: Length| length_view(l)).push(length_view(l)));
        }
        q = q + 1;
    }
    proof {
        assert(ord.take(q as int) =~= ord);
    }
    out
}

/// Whether a node before `m` directly nested in `f` covers row `r`.
pub open spec fn marked_by(ns: Seq<SyntaxNode>, f: int, m: int, r: int) -> bool {
    exists|t: int| 0 <= t < m && #[trigger] nested_in(ns, f, t) && first_row(ns, t) <= r <= ns[t].end_row
}

fn measure(
    ns: &Vec<SyntaxNode>,
    bytes: &[u8],
    rows: &Vec<usize>,
    owners: &Vec<Option<usize>>,
    f: usize,
    start: usize,
    end: usize,
) -> (l: Length)
    requires
        f < ns.len(),
        rows.len() == ns.len(),
        owners.len() == ns.len(),
        forall|t: int| 0 <= t < ns.len() ==> #[trigger] rows@[t] == first_row(ns@, t),
        forall|t: int| 0 <= t < ns.len() ==> (#[trigger] owners@[t] matches Some(o) ==> owner(ns@, t) == Some(o as int))
            && (owners@[t] is None ==> owner(ns@, t) is None),
        start == first_row(ns@, f as int),
        end == ns@[f as int].end_row,
        start <= end < u32::MAX,
    ensures
        length_view(l) == length_of(ns@, bytes@, f as int),
{
    let n = ns.len();
    let total = end - start + 1;
    let mut marks: Vec<bool> = Vec::new();
    let mut k: usize = 0;
    while k < total
        invariant
            k <= total,
            marks.len() == k,
            forall|r: int| 0 <= r < k ==> !marks@[r],
        decreases total - k,
    {
        marks.push(false);
        k = k + 1;
    }
    let mut t: usize = 0;
    while t < n
        invariant
            t <= n == ns.len(),
            rows.len() == n,
            owners.len() == n,
            forall|q: int| 0 <= q < n ==> #[trigger] rows@[q] == first_row(ns@, q),
            forall|q: int| 0 <= q < n ==> (#[trigger] owners@[q] matches Some(o) ==> owner(ns@, q) == Some(o as int))
                && (owners@[q] is None ==> owner(ns@, q) is None),
            start <= end < u32::MAX,
            total == end - start + 1,
            marks.len() == total,
            forall|r: int| 0 <= r < total ==> #[trigger] marks@[r] == marked_by(ns@, f as int, t as int, start + r),
        decreases n - t,
    {
        let ghost before = marks@;
        if owners[t] == Some(f) && is_function(ns, t) {
            let a = if rows[t] > start { rows[t] } else { start };
            let b = if ns[t].end_row < end { ns[t].end_row } else { end };
            let mut r = a;
            let stop = if a <= b { b + 1 } else { a };
            while r < stop
                invariant
                    start <= a,
                    b <= end < u32::MAX,
                    a <= r <= stop,
                    stop == (if a <= b { b + 1 } else { a as int }),
                    total == end - start + 1,
                    marks.len() == total,
                    forall|q: int| 0 <= q < total && !(a - start <= q < r - start) ==> #[trigger] marks@[q] == before[q],
                    forall|q: int| a - start <= q < r - start ==> #[trigger] marks@[q],
                decreases stop - r,
            {
                marks.set(r - start, true);
                r = r + 1;
            }
            proof {
                assert forall|q: int| 0 <= q < total implies #[trigger] marks@[q] == marked_by(ns@, f as int, t as int + 1, start + q) by {
                    if marked_by(ns@, f as int, t as int + 1, start + q) && !marked_by(ns@, f as int, t as int, start + q) {
                        let w = choose|w: int| 0 <= w < t + 1 && #[trigger] nested_in(ns@, f as int, w) && first_row(ns@, w) <= start + q <= ns@[w].end_row;
                        assert(w == t);
                    }
                    if marked_by(ns@, f as int, t as int, start + q) {
                        let w = choose|w: int| 0 <= w < t && #[trigger] nested_in(ns@, f as int, w) && first_row(ns@, w) <= start + q <= ns@[w].end_row;
                        assert(0 <= w < t + 1);
                    }
                    if a - start <= q <= b - start {
                        assert(nested_in(ns@, f as int, t as int));
                    }
                }
            }
        } else {
            proof {
                assert forall|q: int| 0 <= q < total implies #[trigger] marks@[q] == marked_by(ns@, f as int, t as int + 1, start + q) by {
                    if marked_by(ns@, f as int, t as int + 1, start + q) {
                        let w = choose|w: int| 0 <= w < t + 1 && #[trigger] nested_in(ns@, f as int, w) && first_row(ns@, w) <= start + q <= ns@[w].end_row;
                        assert(w != t);
                    }
                    if marked_by(ns@, f as int, t as int, start + q) {
                        let w = choose|w: int| 0 <= w < t && #[trigger] nested_in(ns@, f as int, w) && first_row(ns@, w) <= start + q <= ns@[w].end_row;
                        assert(0 <= w < t + 1);
                    }
                }
            }
        }
        t = t + 1;
    }
    let mut nested: usize = 0;
    let mut r: usize = 0;
    while r < total
        invariant
            r <= total,
            total == end - start + 1,
            marks.len() == total,
            forall|q: int| 0 <= q < total ==> #[trigger] marks@[q] == marked_by(ns@, f as int, n as int, start + q),
            n == ns.len(),
            nested == nested_count(ns@, f as int, start as int, start + r),
            nested <= r,
        decreases total - r,
    {
        proof {
            assert(marked_by(ns@, f as int, n as int, start + r) == nested_row(ns@, f as int, start + r)) by {
                if nested_row(ns@, f as int, start + r) {
                    let w = choose|w: int| 0 <= w < ns@.len() && #[trigger] nested_in(ns@, f as int, w) && first_row(ns@, w) <= start + r <= ns@[w].end_row;
                    assert(marked_by(ns@, f as int, n as int, start + r));
                }
            }
        }
        if marks[r] {
            nested = nested + 1;
        }
        r = r + 1;
    }
    let name = name_exec(ns, bytes, f);
    Length { line: (start + 1) as u32, own: (total - nested) as u64, total: total as u64, name }
}

/// What the function rule measures in a file whose nodes are `ns`.
pub open spec fn measured_lengths(ns: Seq<SyntaxNode>, bytes: Seq<u8>, hooks: Seq<Seq<char>>) -> Seq<(int, int, int, Seq<char>)> {
    sort_by(measured(ns, bytes, hooks, ns.len() as int), report_order(ns)).map_values(|i: int| length_of(ns, bytes, i))
}

/// A node list the rule can measure: as a walk gives it, its rows within
/// `u32`, and no function starting after it ends.
pub open spec fn measurable(ns: Seq<SyntaxNode>) -> bool {
    &&& listed(ns)
    &&& forall|k: int| 0 <= k < ns.len() ==> (#[trigger] ns[k]).end_row < u32::MAX
    &&& forall|k: int| 0 <= k < ns.len() && is_fn(ns, k) ==> first_row(ns, k) <= (#[trigger] ns[k]).end_row
}

/// Whether the rule can measure the nodes.
pub fn is_measurable(ns: &Vec<SyntaxNode>) -> (r: bool)
    requires
        listed(ns@),
    ensures
        r == measurable(ns@),
{
    let mut k: usize = 0;
    while k < ns.len()
        invariant
            k <= ns.len(),
            listed(ns@),
            forall|q: int| 0 <= q < k ==> (#[trigger] ns@[q]).end_row < u32::MAX,
            forall|q: int| 0 <= q < k && is_fn(ns@, q) ==> first_row(ns@, q) <= (#[trigger] ns@[q]).end_row,
        decreases ns.len() - k,
    {
        if ns[k].end_row >= u32::MAX as usize {
            return false;
        }
        if is_function(ns, k) && first_row_exec(ns, k) > ns[k].end_row {
            return false;
        }
        k = k + 1;
    }
    true
}

} // verus!
