//! Which findings an edit adds. An edit is judged by what it changes, so a
//! finding already in the file doesn't block an unrelated fix; the check
//! stage still reports it against the baseline.
use vstd::prelude::*;

use crate::guard::finding::{reading_order, sort, Finding};
use crate::sorting::{lemma_insert_by_at, sort_by};

verus! {

/// What two findings must share to pair.
#[derive(Debug, Clone, Copy, PartialEq, Eq)]
pub enum Key {
    /// Rule, message and anchor.
    Exact,
    /// Rule and message.
    Loose,
    /// Rule and anchor.
    Anchor,
    /// Rule alone.
    Rule,
}

pub open spec fn same_key(k: Key, a: Finding, b: Finding) -> bool {
    match k {
        Key::Exact => a.rule@ == b.rule@ && a.message@ == b.message@ && a.anchor@ == b.anchor@,
        Key::Loose => a.rule@ == b.rule@ && a.message@ == b.message@,
        Key::Anchor => a.rule@ == b.rule@ && a.anchor@ == b.anchor@,
        Key::Rule => a.rule@ == b.rule@,
    }
}

/// The first index at or after `i` that is still open and shares `f`'s key.
pub open spec fn first_open(was: Seq<Finding>, used: Seq<bool>, f: Finding, k: Key, i: int) -> Option<int>
    decreases was.len() - i,
{
    if i < 0 || i >= was.len() {
        None
    } else if !used[i] && same_key(k, was[i], f) {
        Some(i)
    } else {
        first_open(was, used, f, k, i + 1)
    }
}

/// After the first `n` findings of `now`: which of `was` are paired, the
/// pairs, and the findings of `now` left alone.
pub open spec fn matched_upto(was: Seq<Finding>, now: Seq<Finding>, k: Key, n: int) -> (Seq<bool>, Seq<(Finding, Finding)>, Seq<Finding>)
    decreases n,
{
    if n <= 0 {
        (Seq::new(was.len(), |i: int| false), Seq::empty(), Seq::empty())
    } else {
        let (used, pairs, left) = matched_upto(was, now, k, n - 1);
        match first_open(was, used, now[n - 1], k, 0) {
            Some(i) => (used.update(i, true), pairs.push((was[i], now[n - 1])), left),
            None => (used, pairs, left.push(now[n - 1])),
        }
    }
}

/// The findings among the first `m` of `was` that nothing paired, in order.
pub open spec fn unused(was: Seq<Finding>, used: Seq<bool>, m: int) -> Seq<Finding>
    decreases m,
{
    if m <= 0 {
        Seq::empty()
    } else if used[m - 1] {
        unused(was, used, m - 1)
    } else {
        unused(was, used, m - 1).push(was[m - 1])
    }
}

/// Each finding of `now` paired with the first unpaired one of `was` with
/// the same key: the pairs, then what's left of `was`, then of `now`.
pub open spec fn matched(was: Seq<Finding>, now: Seq<Finding>, k: Key) -> (Seq<(Finding, Finding)>, Seq<Finding>, Seq<Finding>) {
    let (used, pairs, left) = matched_upto(was, now, k, now.len() as int);
    (pairs, unused(was, used, was.len() as int), left)
}

/// The measured (`sized`) or unmeasured findings, in their order.
pub open spec fn of_kind(fs: Seq<Finding>, sized: bool) -> Seq<Finding>
    decreases fs.len(),
{
    if fs.len() == 0 {
        Seq::empty()
    } else if (fs.last().measure is Some) == sized {
        of_kind(fs.drop_last(), sized).push(fs.last())
    } else {
        of_kind(fs.drop_last(), sized)
    }
}

/// Order by line.
pub open spec fn line_order() -> spec_fn(Finding, Finding) -> bool {
    |a: Finding, b: Finding| a.line <= b.line
}

/// The measured or unmeasured findings, by line; ties keep their order.
pub open spec fn by_line_spec(fs: Seq<Finding>, sized: bool) -> Seq<Finding> {
    sort_by(of_kind(fs, sized), line_order())
}

pub open spec fn size_of(f: Finding) -> u64 {
    match f.measure {
        Some(m) => m.size,
        None => 0,
    }
}

/// The later finding of each pair that measures more than the earlier.
pub open spec fn grown(pairs: Seq<(Finding, Finding)>) -> Seq<Finding>
    decreases pairs.len(),
{
    if pairs.len() == 0 {
        Seq::empty()
    } else if size_of(pairs.last().1) > size_of(pairs.last().0) {
        grown(pairs.drop_last()).push(pairs.last().1)
    } else {
        grown(pairs.drop_last())
    }
}

/// The findings in `after` that `before` doesn't account for, in reading
/// order. Unmeasured findings pair first by rule, message and anchor, then
/// what is left by rule and message; measured ones pair by rule and anchor,
/// then by rule, and a pair counts when the later one grew.
pub open spec fn added_spec(before: Seq<Finding>, after: Seq<Finding>) -> Seq<Finding> {
    let (_p, was, now) = matched(by_line_spec(before, false), by_line_spec(after, false), Key::Exact);
    let (_q, _w, new) = matched(was, now, Key::Loose);
    let (pairs, was2, now2) = matched(by_line_spec(before, true), by_line_spec(after, true), Key::Anchor);
    let (more, _v, unpaired) = matched(was2, now2, Key::Rule);
    sort_by(new + unpaired + grown(pairs + more), reading_order())
}

fn same_key_exec(k: Key, a: &Finding, b: &Finding) -> (r: bool)
    ensures
        r == same_key(k, *a, *b),
{
    match k {
        Key::Exact => a.rule == b.rule && a.message == b.message && a.anchor == b.anchor,
        Key::Loose => a.rule == b.rule && a.message == b.message,
        Key::Anchor => a.rule == b.rule && a.anchor == b.anchor,
        Key::Rule => a.rule == b.rule,
    }
}

proof fn lemma_first_open_skip(was: Seq<Finding>, used: Seq<bool>, f: Finding, k: Key, i: int)
    requires
        0 <= i <= was.len(),
        forall|j: int| 0 <= j < i ==> !(!used[j] && same_key(k, #[trigger] was[j], f)),
    ensures
        first_open(was, used, f, k, 0) == first_open(was, used, f, k, i),
    decreases i,
{
    if i > 0 {
        lemma_first_open_skip(was, used, f, k, i - 1);
    }
}

proof fn lemma_first_open_found(was: Seq<Finding>, used: Seq<bool>, f: Finding, k: Key, i: int)
    ensures
        first_open(was, used, f, k, i) matches Some(j) ==> i <= j < was.len() && !used[j]
            && same_key(k, was[j], f),
    decreases was.len() - i,
{
    if 0 <= i < was.len() && !(!used[i] && same_key(k, was[i], f)) {
        lemma_first_open_found(was, used, f, k, i + 1);
    }
}

proof fn lemma_matched_upto_used(was: Seq<Finding>, now: Seq<Finding>, k: Key, n: int)
    ensures
        matched_upto(was, now, k, n).0.len() == was.len(),
    decreases n,
{
    if n > 0 {
        lemma_matched_upto_used(was, now, k, n - 1);
        let used = matched_upto(was, now, k, n - 1).0;
        lemma_first_open_found(was, used, now[n - 1], k, 0);
    }
}

fn first_open_exec(was: &Vec<Finding>, used: &Vec<bool>, f: &Finding, k: Key) -> (r: Option<usize>)
    requires
        used.len() == was.len(),
    ensures
        match r {
            Some(i) => first_open(was@, used@, *f, k, 0) == Some(i as int),
            None => first_open(was@, used@, *f, k, 0) is None,
        },
{
    let mut i: usize = 0;
    while i < was.len()
        invariant
            i <= was.len(),
            used.len() == was.len(),
            forall|j: int| 0 <= j < i ==> !(!used@[j] && same_key(k, #[trigger] was@[j], *f)),
        decreases was.len() - i,
    {
        if !used[i] && same_key_exec(k, &was[i], f) {
            proof {
                lemma_first_open_skip(was@, used@, *f, k, i as int);
            }
            return Some(i);
        }
        i = i + 1;
    }
    proof {
        lemma_first_open_skip(was@, used@, *f, k, i as int);
    }
    None
}

/// Pairs each finding in `now` with the first unpaired one in `was` of the
/// same key, and returns the pairs and what's left on each side, in order.
fn matched_exec(was: &Vec<Finding>, now: &Vec<Finding>, k: Key) -> (r: (Vec<(Finding, Finding)>, Vec<Finding>, Vec<Finding>))
    ensures
        (r.0@, r.1@, r.2@) == matched(was@, now@, k),
{
    let mut used: Vec<bool> = Vec::new();
    let mut i: usize = 0;
    while i < was.len()
        invariant
            i <= was.len(),
            used@ == Seq::new(i as nat, |x: int| false),
        decreases was.len() - i,
    {
        used.push(false);
        proof {
            assert(used@ =~= Seq::new(i as nat + 1, |x: int| false));
        }
        i = i + 1;
    }
    let mut pairs: Vec<(Finding, Finding)> = Vec::new();
    let mut left: Vec<Finding> = Vec::new();
    let mut j: usize = 0;
    proof {
        assert(used@ =~= Seq::new(was@.len(), |x: int| false));
    }
    while j < now.len()
        invariant
            j <= now.len(),
            used.len() == was.len(),
            (used@, pairs@, left@) == matched_upto(was@, now@, k, j as int),
        decreases now.len() - j,
    {
        let found = first_open_exec(was, &used, &now[j], k);
        proof {
            lemma_first_open_found(was@, used@, now@[j as int], k, 0);
        }
        match found {
            Some(i) => {
                used.set(i, true);
                pairs.push((was[i].duplicate(), now[j].duplicate()));
            },
            None => {
                left.push(now[j].duplicate());
            },
        }
        j = j + 1;
    }
    let mut rest: Vec<Finding> = Vec::new();
    let mut m: usize = 0;
    while m < was.len()
        invariant
            m <= was.len(),
            used.len() == was.len(),
            rest@ == unused(was@, used@, m as int),
        decreases was.len() - m,
    {
        if !used[m] {
            rest.push(was[m].duplicate());
        }
        m = m + 1;
    }
    (pairs, rest, left)
}

/// The measured or unmeasured findings, in the order they appear.
pub fn by_line(findings: &[Finding], sized: bool) -> (r: Vec<Finding>)
    ensures
        r@ == by_line_spec(findings@, sized),
{
    let mut kept: Vec<Finding> = Vec::new();
    let mut i: usize = 0;
    while i < findings.len()
        invariant
            i <= findings.len(),
            kept@ == of_kind(findings@.take(i as int), sized),
        decreases findings.len() - i,
    {
        proof {
            assert(findings@.take(i as int + 1).drop_last() =~= findings@.take(i as int));
        }
        if findings[i].measure.is_some() == sized {
            kept.push(findings[i].duplicate());
        }
        i = i + 1;
    }
    proof {
        assert(findings@.take(i as int) =~= findings@);
    }
    let ghost le = line_order();
    let mut out: Vec<Finding> = Vec::new();
    let mut i: usize = 0;
    while i < kept.len()
        invariant
            i <= kept.len(),
            le == line_order(),
            out@ == sort_by(kept@.take(i as int), le),
        decreases kept.len() - i,
    {
        let x = kept[i].duplicate();
        let mut j: usize = out.len();
        while j > 0 && out[j - 1].line > x.line
            invariant
                j <= out.len(),
                forall|k: int| j <= k < out.len() ==> (#[trigger] out@[k]).line > x.line,
            decreases j,
        {
            j = j - 1;
        }
        proof {
            lemma_insert_by_at(out@, x, le, j as int);
            assert(kept@.take(i as int + 1).drop_last() =~= kept@.take(i as int));
        }
        out.insert(j, x);
        i = i + 1;
    }
    proof {
        assert(kept@.take(i as int) =~= kept@);
    }
    out
}

fn grown_exec(pairs: &Vec<(Finding, Finding)>, out: &mut Vec<Finding>)
    ensures
        final(out)@ == old(out)@ + grown(pairs@),
{
    let ghost start = out@;
    let mut i: usize = 0;
    while i < pairs.len()
        invariant
            i <= pairs.len(),
            start == old(out)@,
            out@ == start + grown(pairs@.take(i as int)),
        decreases pairs.len() - i,
    {
        proof {
            assert(pairs@.take(i as int + 1).drop_last() =~= pairs@.take(i as int));
        }
        let w = match pairs[i].0.measure {
            Some(m) => m.size,
            None => 0,
        };
        let n = match pairs[i].1.measure {
            Some(m) => m.size,
            None => 0,
        };
        if n > w {
            out.push(pairs[i].1.duplicate());
            proof {
                assert(start + grown(pairs@.take(i as int)).push(pairs@[i as int].1)
                    =~= (start + grown(pairs@.take(i as int))).push(pairs@[i as int].1));
            }
        }
        i = i + 1;
    }
    proof {
        assert(pairs@.take(i as int) =~= pairs@);
    }
}

/// The findings in `after` that `before` doesn't account for. Findings
/// compare as multisets of (rule, message, anchor), so one that only moved
/// lines isn't new and two identical ones count twice; what's left then
/// compares without the anchor, so rewording a comment that keeps its
/// finding doesn't add one. A measured finding pairs the same way, in the
/// order they appear, and is new when it has no partner or grew.
pub fn added(before: &[Finding], after: &[Finding]) -> (r: Vec<Finding>)
    ensures
        r@ == added_spec(before@, after@),
{
    let (_p, was, now) = matched_exec(&by_line(before, false), &by_line(after, false), Key::Exact);
    let (_q, _w, mut new) = matched_exec(&was, &now, Key::Loose);
    let (mut pairs, was2, now2) = matched_exec(&by_line(before, true), &by_line(after, true), Key::Anchor);
    let (mut more, _v, mut unpaired) = matched_exec(&was2, &now2, Key::Rule);
    let ghost new0 = new@;
    let ghost unpaired0 = unpaired@;
    let ghost joined = pairs@ + more@;
    new.append(&mut unpaired);
    pairs.append(&mut more);
    proof {
        assert(pairs@ == joined);
    }
    grown_exec(&pairs, &mut new);
    proof {
        assert(new@ == new0 + unpaired0 + grown(joined));
    }
    sort(&mut new);
    new
}

proof fn lemma_matched_self_upto(x: Seq<Finding>, k: Key, n: int)
    requires
        0 <= n <= x.len(),
    ensures
        matched_upto(x, x, k, n).0 == Seq::new(x.len(), |i: int| i < n),
        matched_upto(x, x, k, n).1.len() == n,
        forall|j: int| 0 <= j < n ==> #[trigger] matched_upto(x, x, k, n).1[j] == (x[j], x[j]),
        matched_upto(x, x, k, n).2.len() == 0,
    decreases n,
{
    if n == 0 {
        assert(matched_upto(x, x, k, n).0 =~= Seq::new(x.len(), |i: int| i < n));
    } else {
        lemma_matched_self_upto(x, k, n - 1);
        let used = matched_upto(x, x, k, n - 1).0;
        assert forall|j: int| 0 <= j < n - 1 implies !(!used[j] && same_key(k, #[trigger] x[j], x[n - 1])) by {
            assert(used[j]);
        }
        lemma_first_open_skip(x, used, x[n - 1], k, n - 1);
        assert(first_open(x, used, x[n - 1], k, 0) == Some(n - 1));
        assert(matched_upto(x, x, k, n).0 =~= Seq::new(x.len(), |i: int| i < n));
        let pairs = matched_upto(x, x, k, n - 1).1;
        assert forall|j: int| 0 <= j < n implies #[trigger] matched_upto(x, x, k, n).1[j] == (x[j], x[j]) by {
            if j < n - 1 {
                assert(matched_upto(x, x, k, n).1[j] == pairs[j]);
            }
        }
    }
}

proof fn lemma_unused_all(x: Seq<Finding>, used: Seq<bool>, m: int)
    requires
        m <= used.len(),
        forall|i: int| 0 <= i < m ==> #[trigger] used[i],
    ensures
        unused(x, used, m).len() == 0,
    decreases m,
{
    if m > 0 {
        lemma_unused_all(x, used, m - 1);
    }
}

proof fn lemma_grown_self(p: Seq<(Finding, Finding)>)
    requires
        forall|j: int| 0 <= j < p.len() ==> (#[trigger] p[j]).0 == p[j].1,
    ensures
        grown(p).len() == 0,
    decreases p.len(),
{
    if p.len() > 0 {
        assert(p.last().0 == p.last().1);
        lemma_grown_self(p.drop_last());
    }
}

/// Law: a file whose findings are unchanged gets no new finding; each
/// finding pairs with itself.
pub proof fn lemma_added_nothing_when_unchanged(fs: Seq<Finding>)
    ensures
        added_spec(fs, fs).len() == 0,
{
    let plain = by_line_spec(fs, false);
    lemma_matched_self_upto(plain, Key::Exact, plain.len() as int);
    lemma_unused_all(plain, matched_upto(plain, plain, Key::Exact, plain.len() as int).0, plain.len() as int);
    let (_p, was, now) = matched(plain, plain, Key::Exact);
    assert(was.len() == 0 && now.len() == 0);
    assert(matched_upto(was, now, Key::Loose, 0).2.len() == 0);
    let sized = by_line_spec(fs, true);
    lemma_matched_self_upto(sized, Key::Anchor, sized.len() as int);
    lemma_unused_all(sized, matched_upto(sized, sized, Key::Anchor, sized.len() as int).0, sized.len() as int);
    let (pairs, was2, now2) = matched(sized, sized, Key::Anchor);
    assert(was2.len() == 0 && now2.len() == 0);
    let (more, _v, unpaired) = matched(was2, now2, Key::Rule);
    assert(more.len() == 0 && unpaired.len() == 0);
    assert(pairs + more =~= pairs);
    lemma_grown_self(pairs);
    let (_q, _w, new) = matched(was, now, Key::Loose);
    assert(new + unpaired + grown(pairs + more) =~= Seq::<Finding>::empty());
}


/// Law: the new findings come in reading order (file, then line, then
/// rule).
pub proof fn lemma_added_in_reading_order(before: Seq<Finding>, after: Seq<Finding>)
    ensures
        crate::sorting::sorted_by(added_spec(before, after), reading_order()),
{
    crate::guard::finding::lemma_reading_order_total();
    let (_p, was, now) = matched(by_line_spec(before, false), by_line_spec(after, false), Key::Exact);
    let (_q, _w, new) = matched(was, now, Key::Loose);
    let (pairs, was2, now2) = matched(by_line_spec(before, true), by_line_spec(after, true), Key::Anchor);
    let (more, _v, unpaired) = matched(was2, now2, Key::Rule);
    crate::sorting::lemma_sort_by_sorted(new + unpaired + grown(pairs + more), reading_order());
}


/// The later finding of each pair.
pub open spec fn seconds(p: Seq<(Finding, Finding)>) -> Seq<Finding> {
    p.map_values(|q: (Finding, Finding)| q.1)
}

/// Pairing splits the first `n` findings of `now` between the pairs and
/// what is left.
proof fn lemma_matched_upto_split(was: Seq<Finding>, now: Seq<Finding>, k: Key, n: int)
    requires
        0 <= n <= now.len(),
    ensures
        seconds(matched_upto(was, now, k, n).1).to_multiset().add(matched_upto(was, now, k, n).2.to_multiset())
            == now.take(n).to_multiset(),
    decreases n,
{
    broadcast use vstd::seq_lib::group_to_multiset_ensures;
    broadcast use vstd::multiset::group_multiset_axioms;

    if n == 0 {
        assert(seconds(matched_upto(was, now, k, n).1) =~= Seq::<Finding>::empty());
        assert(now.take(0) =~= Seq::<Finding>::empty());
        assert(seconds(matched_upto(was, now, k, n).1).to_multiset().add(matched_upto(was, now, k, n).2.to_multiset())
            =~= now.take(n).to_multiset());
    } else {
        lemma_matched_upto_split(was, now, k, n - 1);
        let (used, pairs, left) = matched_upto(was, now, k, n - 1);
        assert(now.take(n) =~= now.take(n - 1).push(now[n - 1]));
        match first_open(was, used, now[n - 1], k, 0) {
            Some(i) => {
                assert(seconds(pairs.push((was[i], now[n - 1]))) =~= seconds(pairs).push(now[n - 1]));
            },
            None => {},
        }
        assert(seconds(matched_upto(was, now, k, n).1).to_multiset().add(matched_upto(was, now, k, n).2.to_multiset())
            =~= now.take(n).to_multiset());
    }
}

/// With nothing to pair against, every finding is left.
proof fn lemma_matched_upto_none(was: Seq<Finding>, now: Seq<Finding>, k: Key, n: int)
    requires
        was.len() == 0,
        0 <= n <= now.len(),
    ensures
        matched_upto(was, now, k, n).1.len() == 0,
        matched_upto(was, now, k, n).2 == now.take(n),
    decreases n,
{
    if n == 0 {
        assert(now.take(0) =~= Seq::<Finding>::empty());
    } else {
        lemma_matched_upto_none(was, now, k, n - 1);
        assert(now.take(n) =~= now.take(n - 1).push(now[n - 1]));
    }
}

proof fn lemma_grown_within(p: Seq<(Finding, Finding)>)
    ensures
        grown(p).to_multiset().subset_of(seconds(p).to_multiset()),
    decreases p.len(),
{
    broadcast use vstd::seq_lib::group_to_multiset_ensures;
    broadcast use vstd::multiset::group_multiset_axioms;

    if p.len() == 0 {
        assert(grown(p) =~= Seq::<Finding>::empty());
    } else {
        lemma_grown_within(p.drop_last());
        assert(seconds(p) =~= seconds(p.drop_last()).push(p.last().1));
    }
}

proof fn lemma_of_kind_split(fs: Seq<Finding>)
    ensures
        of_kind(fs, false).to_multiset().add(of_kind(fs, true).to_multiset()) == fs.to_multiset(),
    decreases fs.len(),
{
    broadcast use vstd::seq_lib::group_to_multiset_ensures;
    broadcast use vstd::multiset::group_multiset_axioms;

    if fs.len() == 0 {
        assert(of_kind(fs, false).to_multiset().add(of_kind(fs, true).to_multiset()) =~= fs.to_multiset());
    } else {
        lemma_of_kind_split(fs.drop_last());
        assert(fs =~= fs.drop_last().push(fs.last()));
        assert(of_kind(fs, false).to_multiset().add(of_kind(fs, true).to_multiset()) =~= fs.to_multiset());
    }
}

/// Law: every new finding is one of `after`'s, counted no more often
/// than `after` holds it.
pub proof fn lemma_added_from_after(before: Seq<Finding>, after: Seq<Finding>)
    ensures
        added_spec(before, after).to_multiset().subset_of(after.to_multiset()),
{
    broadcast use vstd::multiset::group_multiset_axioms;
    broadcast use vstd::seq_lib::lemma_multiset_commutative;

    let a0 = by_line_spec(after, false);
    let a1 = by_line_spec(after, true);
    let (p, was, now) = matched(by_line_spec(before, false), a0, Key::Exact);
    let (q, w, new) = matched(was, now, Key::Loose);
    let (pairs, was2, now2) = matched(by_line_spec(before, true), a1, Key::Anchor);
    let (more, v, unpaired) = matched(was2, now2, Key::Rule);
    lemma_matched_upto_split(by_line_spec(before, false), a0, Key::Exact, a0.len() as int);
    lemma_matched_upto_split(was, now, Key::Loose, now.len() as int);
    lemma_matched_upto_split(by_line_spec(before, true), a1, Key::Anchor, a1.len() as int);
    lemma_matched_upto_split(was2, now2, Key::Rule, now2.len() as int);
    assert(a0.take(a0.len() as int) =~= a0);
    assert(now.take(now.len() as int) =~= now);
    assert(a1.take(a1.len() as int) =~= a1);
    assert(now2.take(now2.len() as int) =~= now2);
    lemma_grown_within(pairs + more);
    assert(seconds(pairs + more) =~= seconds(pairs) + seconds(more));
    crate::sorting::lemma_sort_by_permutes(of_kind(after, false), line_order());
    crate::sorting::lemma_sort_by_permutes(of_kind(after, true), line_order());
    lemma_of_kind_split(after);
    let all = new + unpaired + grown(pairs + more);
    crate::sorting::lemma_sort_by_permutes(all, reading_order());
    assert forall|f: Finding| #[trigger] all.to_multiset().count(f) <= after.to_multiset().count(f) by {
        assert(all.to_multiset().count(f) == new.to_multiset().count(f) + unpaired.to_multiset().count(f)
            + grown(pairs + more).to_multiset().count(f));
    }
}

/// Law: against no earlier findings every finding is new: the result holds
/// exactly the findings of `after`.
pub proof fn lemma_added_all_when_new(after: Seq<Finding>)
    ensures
        added_spec(Seq::empty(), after).to_multiset() == after.to_multiset(),
{
    broadcast use vstd::multiset::group_multiset_axioms;
    broadcast use vstd::seq_lib::lemma_multiset_commutative;

    let none = Seq::<Finding>::empty();
    let a0 = by_line_spec(after, false);
    let a1 = by_line_spec(after, true);
    assert(of_kind(none, false) =~= none && of_kind(none, true) =~= none);
    let b0 = by_line_spec(none, false);
    let b1 = by_line_spec(none, true);
    assert(b0.len() == 0 && b1.len() == 0);
    lemma_matched_upto_none(b0, a0, Key::Exact, a0.len() as int);
    assert(a0.take(a0.len() as int) =~= a0);
    let (p, was, now) = matched(b0, a0, Key::Exact);
    assert(was =~= none);
    lemma_matched_upto_none(was, now, Key::Loose, now.len() as int);
    assert(now.take(now.len() as int) =~= now);
    let (q, w, new) = matched(was, now, Key::Loose);
    lemma_matched_upto_none(b1, a1, Key::Anchor, a1.len() as int);
    assert(a1.take(a1.len() as int) =~= a1);
    let (pairs, was2, now2) = matched(b1, a1, Key::Anchor);
    assert(was2 =~= none);
    lemma_matched_upto_none(was2, now2, Key::Rule, now2.len() as int);
    assert(now2.take(now2.len() as int) =~= now2);
    let (more, v, unpaired) = matched(was2, now2, Key::Rule);
    assert(pairs + more =~= Seq::<(Finding, Finding)>::empty());
    assert(grown(pairs + more) =~= none);
    assert(new + unpaired + grown(pairs + more) =~= a0 + a1);
    crate::sorting::lemma_sort_by_permutes(of_kind(after, false), line_order());
    crate::sorting::lemma_sort_by_permutes(of_kind(after, true), line_order());
    lemma_of_kind_split(after);
    crate::sorting::lemma_sort_by_permutes(a0 + a1, reading_order());
}


/// How many of `s` share `f`'s rule and message.
pub open spec fn loose_count(s: Seq<Finding>, f: Finding) -> nat
    decreases s.len(),
{
    if s.len() == 0 {
        0
    } else {
        loose_count(s.drop_last(), f) + if same_key(Key::Loose, s.last(), f) { 1nat } else { 0nat }
    }
}

/// How many of the first `m` of `was` are paired and share `f`'s rule and
/// message.
pub open spec fn used_count(was: Seq<Finding>, used: Seq<bool>, m: int, f: Finding) -> nat
    decreases m,
{
    if m <= 0 {
        0
    } else {
        used_count(was, used, m - 1, f) + if used[m - 1] && same_key(Key::Loose, was[m - 1], f) { 1nat } else { 0nat }
    }
}

/// The earlier finding of each pair.
pub open spec fn firsts(p: Seq<(Finding, Finding)>) -> Seq<Finding> {
    p.map_values(|q: (Finding, Finding)| q.0)
}

proof fn lemma_loose_push(s: Seq<Finding>, x: Finding, f: Finding)
    ensures
        loose_count(s.push(x), f) == loose_count(s, f) + if same_key(Key::Loose, x, f) { 1nat } else { 0nat },
{
    assert(s.push(x).drop_last() =~= s);
}

proof fn lemma_loose_insert_by(s: Seq<Finding>, x: Finding, le: spec_fn(Finding, Finding) -> bool, f: Finding)
    ensures
        loose_count(crate::sorting::insert_by(s, x, le), f) == loose_count(s, f) + if same_key(Key::Loose, x, f) { 1nat } else { 0nat },
    decreases s.len(),
{
    if s.len() == 0 || le(s.last(), x) {
        lemma_loose_push(s, x, f);
    } else {
        lemma_loose_insert_by(s.drop_last(), x, le, f);
        lemma_loose_push(crate::sorting::insert_by(s.drop_last(), x, le), s.last(), f);
    }
}

proof fn lemma_loose_sort(s: Seq<Finding>, le: spec_fn(Finding, Finding) -> bool, f: Finding)
    ensures
        loose_count(sort_by(s, le), f) == loose_count(s, f),
    decreases s.len(),
{
    if s.len() > 0 {
        lemma_loose_sort(s.drop_last(), le, f);
        lemma_loose_insert_by(sort_by(s.drop_last(), le), s.last(), le, f);
    }
}

proof fn lemma_used_update(was: Seq<Finding>, used: Seq<bool>, i: int, m: int, f: Finding)
    requires
        0 <= i < used.len(),
        !used[i],
        0 <= m <= used.len(),
    ensures
        used_count(was, used.update(i, true), m, f) == used_count(was, used, m, f)
            + if i < m && same_key(Key::Loose, was[i], f) { 1nat } else { 0nat },
    decreases m,
{
    if m > 0 {
        lemma_used_update(was, used, i, m - 1, f);
    }
}

/// Pairing by a key that implies rule and message pairs findings that
/// count alike, and marks as used as many as it pairs.
proof fn lemma_matched_counts(was: Seq<Finding>, now: Seq<Finding>, k: Key, n: int, f: Finding)
    requires
        k == Key::Exact || k == Key::Loose,
        0 <= n <= now.len(),
    ensures
        used_count(was, matched_upto(was, now, k, n).0, was.len() as int, f) == loose_count(firsts(matched_upto(was, now, k, n).1), f),
        loose_count(firsts(matched_upto(was, now, k, n).1), f) == loose_count(seconds(matched_upto(was, now, k, n).1), f),
    decreases n,
{
    if n == 0 {
        assert(used_count(was, Seq::new(was.len(), |i: int| false), was.len() as int, f) == 0) by {
            lemma_used_none(was, Seq::new(was.len(), |i: int| false), was.len() as int, f);
        }
        assert(firsts(matched_upto(was, now, k, n).1) =~= Seq::<Finding>::empty());
        assert(seconds(matched_upto(was, now, k, n).1) =~= Seq::<Finding>::empty());
    } else {
        lemma_matched_counts(was, now, k, n - 1, f);
        lemma_matched_upto_used(was, now, k, n - 1);
        let (used, pairs, left) = matched_upto(was, now, k, n - 1);
        lemma_first_open_found(was, used, now[n - 1], k, 0);
        match first_open(was, used, now[n - 1], k, 0) {
            Some(i) => {
                lemma_used_update(was, used, i, was.len() as int, f);
                assert(firsts(pairs.push((was[i], now[n - 1]))) =~= firsts(pairs).push(was[i]));
                assert(seconds(pairs.push((was[i], now[n - 1]))) =~= seconds(pairs).push(now[n - 1]));
                lemma_loose_push(firsts(pairs), was[i], f);
                lemma_loose_push(seconds(pairs), now[n - 1], f);
            },
            None => {},
        }
    }
}

proof fn lemma_used_none(was: Seq<Finding>, used: Seq<bool>, m: int, f: Finding)
    requires
        m <= used.len(),
        forall|i: int| 0 <= i < used.len() ==> !#[trigger] used[i],
    ensures
        used_count(was, used, m, f) == 0,
    decreases m,
{
    if m > 0 {
        lemma_used_none(was, used, m - 1, f);
    }
}

/// Where every finding sharing `f`'s rule and message is used, the used
/// ones count all of them.
proof fn lemma_used_all(was: Seq<Finding>, used: Seq<bool>, m: int, f: Finding)
    requires
        0 <= m <= was.len(),
        used.len() == was.len(),
        forall|i: int| 0 <= i < m && same_key(Key::Loose, #[trigger] was[i], f) ==> used[i],
    ensures
        used_count(was, used, m, f) == loose_count(was.take(m), f),
    decreases m,
{
    if m > 0 {
        lemma_used_all(was, used, m - 1, f);
        assert(was.take(m).drop_last() =~= was.take(m - 1));
    }
}

/// The unused findings and the used ones count all of `was`.
proof fn lemma_unused_count(was: Seq<Finding>, used: Seq<bool>, m: int, f: Finding)
    requires
        0 <= m <= was.len(),
        used.len() == was.len(),
    ensures
        loose_count(unused(was, used, m), f) + used_count(was, used, m, f) == loose_count(was.take(m), f),
    decreases m,
{
    if m > 0 {
        lemma_unused_count(was, used, m - 1, f);
        assert(was.take(m).drop_last() =~= was.take(m - 1));
        if !used[m - 1] {
            lemma_loose_push(unused(was, used, m - 1), was[m - 1], f);
        }
    }
}

/// Pairing splits the first `n` of `now`, counted, between the pairs and
/// what is left.
proof fn lemma_split_count(was: Seq<Finding>, now: Seq<Finding>, k: Key, n: int, f: Finding)
    requires
        0 <= n <= now.len(),
    ensures
        loose_count(now.take(n), f) == loose_count(seconds(matched_upto(was, now, k, n).1), f)
            + loose_count(matched_upto(was, now, k, n).2, f),
    decreases n,
{
    if n == 0 {
        assert(now.take(0) =~= Seq::<Finding>::empty());
        assert(seconds(matched_upto(was, now, k, n).1) =~= Seq::<Finding>::empty());
    } else {
        lemma_split_count(was, now, k, n - 1, f);
        let (used, pairs, left) = matched_upto(was, now, k, n - 1);
        assert(now.take(n).drop_last() =~= now.take(n - 1));
        match first_open(was, used, now[n - 1], k, 0) {
            Some(i) => {
                assert(seconds(pairs.push((was[i], now[n - 1]))) =~= seconds(pairs).push(now[n - 1]));
                lemma_loose_push(seconds(pairs), now[n - 1], f);
            },
            None => {
                lemma_loose_push(left, now[n - 1], f);
            },
        }
    }
}

proof fn lemma_pairs_grow(was: Seq<Finding>, now: Seq<Finding>, k: Key, m: int, n: int, f: Finding)
    requires
        0 <= m <= n <= now.len(),
    ensures
        loose_count(firsts(matched_upto(was, now, k, m).1), f) <= loose_count(firsts(matched_upto(was, now, k, n).1), f),
    decreases n - m,
{
    if m < n {
        lemma_pairs_grow(was, now, k, m, n - 1, f);
        let (used, pairs, left) = matched_upto(was, now, k, n - 1);
        match first_open(was, used, now[n - 1], k, 0) {
            Some(i) => {
                assert(firsts(pairs.push((was[i], now[n - 1]))) =~= firsts(pairs).push(was[i]));
                lemma_loose_push(firsts(pairs), was[i], f);
            },
            None => {},
        }
    }
}

proof fn lemma_first_open_none(was: Seq<Finding>, used: Seq<bool>, y: Finding, k: Key, i: int, j: int)
    requires
        first_open(was, used, y, k, i) is None,
        0 <= i <= j < was.len(),
    ensures
        used[j] || !same_key(k, was[j], y),
    decreases j - i,
{
    if i < j {
        lemma_first_open_none(was, used, y, k, i + 1, j);
    }
}

/// A finding left unpaired by rule and message means every one of `was`
/// with its rule and message is paired.
proof fn lemma_left_means_all_paired(was: Seq<Finding>, now: Seq<Finding>, n: int, f: Finding)
    requires
        0 <= n <= now.len(),
        matched_upto(was, now, Key::Loose, n).2.contains(f),
    ensures
        loose_count(was, f) <= loose_count(firsts(matched_upto(was, now, Key::Loose, n).1), f),
    decreases n,
{
    let (used, pairs, left) = matched_upto(was, now, Key::Loose, n - 1);
    lemma_matched_upto_used(was, now, Key::Loose, n - 1);
    let y = now[n - 1];
    if left.contains(f) {
        lemma_left_means_all_paired(was, now, n - 1, f);
        lemma_pairs_grow(was, now, Key::Loose, n - 1, n, f);
    } else {
        match first_open(was, used, y, Key::Loose, 0) {
            Some(i) => {
                assert(false);
            },
            None => {
                let j = choose|j: int| 0 <= j < left.push(y).len() && left.push(y)[j] == f;
                assert(j == left.len());
                assert(y == f);
                assert forall|i: int| 0 <= i < was.len() && same_key(Key::Loose, #[trigger] was[i], f) implies used[i] by {
                    lemma_first_open_none(was, used, y, Key::Loose, 0, i);
                }
                lemma_used_all(was, used, was.len() as int, f);
                assert(was.take(was.len() as int) =~= was);
                lemma_matched_counts(was, now, Key::Loose, n - 1, f);
            },
        }
    }
}

proof fn lemma_of_kind_measured(fs: Seq<Finding>, x: Finding)
    requires
        of_kind(fs, true).contains(x),
    ensures
        x.measure is Some,
    decreases fs.len(),
{
    if fs.len() > 0 {
        if (fs.last().measure is Some) == true {
            if x != fs.last() {
                let j = choose|j: int| 0 <= j < of_kind(fs, true).len() && of_kind(fs, true)[j] == x;
                assert(of_kind(fs.drop_last(), true)[j] == x);
                lemma_of_kind_measured(fs.drop_last(), x);
            }
        } else {
            lemma_of_kind_measured(fs.drop_last(), x);
        }
    }
}

/// Law: an unmeasured new finding is one whose rule and message `after`
/// has more often than `before`, among the unmeasured findings: a finding
/// that only moved, or whose comment was reworded, is not new.
pub proof fn lemma_added_unmeasured_grew(before: Seq<Finding>, after: Seq<Finding>, f: Finding)
    requires
        added_spec(before, after).contains(f),
        f.measure is None,
    ensures
        loose_count(of_kind(after, false), f) > loose_count(of_kind(before, false), f),
{
    broadcast use vstd::seq_lib::group_to_multiset_ensures;
    broadcast use vstd::multiset::group_multiset_axioms;
    broadcast use vstd::seq_lib::lemma_multiset_commutative;

    let a0 = by_line_spec(after, false);
    let b0 = by_line_spec(before, false);
    let a1 = by_line_spec(after, true);
    let (p, was, now) = matched(b0, a0, Key::Exact);
    let (q, w, new) = matched(was, now, Key::Loose);
    let (pairs, was2, now2) = matched(by_line_spec(before, true), a1, Key::Anchor);
    let (more, v, unpaired) = matched(was2, now2, Key::Rule);
    let all = new + unpaired + grown(pairs + more);
    crate::sorting::lemma_sort_by_permutes(all, reading_order());
    assert(all.to_multiset().count(f) > 0);
    // The measured part holds only measured findings.
    lemma_matched_upto_split(by_line_spec(before, true), a1, Key::Anchor, a1.len() as int);
    lemma_matched_upto_split(was2, now2, Key::Rule, now2.len() as int);
    assert(a1.take(a1.len() as int) =~= a1);
    assert(now2.take(now2.len() as int) =~= now2);
    lemma_grown_within(pairs + more);
    assert(seconds(pairs + more) =~= seconds(pairs) + seconds(more));
    crate::sorting::lemma_sort_by_permutes(of_kind(after, true), line_order());
    if !new.contains(f) {
        assert(new.to_multiset().count(f) == 0);
        assert(unpaired.to_multiset().count(f) + grown(pairs + more).to_multiset().count(f) > 0);
        assert(a1.to_multiset().count(f) > 0);
        assert(of_kind(after, true).to_multiset().count(f) > 0);
        lemma_of_kind_measured(after, f);
        assert(false);
    }
    // Rule and message: more after the rewording stage than before it.
    lemma_left_means_all_paired(was, now, now.len() as int, f);
    lemma_matched_counts(was, now, Key::Loose, now.len() as int, f);
    lemma_split_count(was, now, Key::Loose, now.len() as int, f);
    assert(now.take(now.len() as int) =~= now);
    assert(new.contains(f));
    let j = choose|j: int| 0 <= j < new.len() && new[j] == f;
    assert(loose_count(new, f) > 0) by {
        lemma_loose_positive(new, j, f);
    }
    // And so more in the findings by line, which the exact stage split.
    lemma_split_count(b0, a0, Key::Exact, a0.len() as int, f);
    assert(a0.take(a0.len() as int) =~= a0);
    lemma_matched_counts(b0, a0, Key::Exact, a0.len() as int, f);
    lemma_matched_upto_used(b0, a0, Key::Exact, a0.len() as int);
    lemma_unused_count(b0, matched_upto(b0, a0, Key::Exact, a0.len() as int).0, b0.len() as int, f);
    assert(b0.take(b0.len() as int) =~= b0);
    lemma_loose_sort(of_kind(after, false), line_order(), f);
    lemma_loose_sort(of_kind(before, false), line_order(), f);
}

proof fn lemma_loose_positive(s: Seq<Finding>, j: int, f: Finding)
    requires
        0 <= j < s.len(),
        s[j] == f,
    ensures
        loose_count(s, f) > 0,
    decreases s.len(),
{
    if j < s.len() - 1 {
        lemma_loose_positive(s.drop_last(), j, f);
    }
}

} // verus!
