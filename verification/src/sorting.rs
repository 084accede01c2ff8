//! A stable sort, stated as insertion: each element goes after the last one
//! already placed that orders before or with it, so equal keys keep the
//! order they came in.
use vstd::prelude::*;

verus! {

/// `x` placed into `s` after the last element `le` puts at or before it.
pub open spec fn insert_by<T>(s: Seq<T>, x: T, le: spec_fn(T, T) -> bool) -> Seq<T>
    decreases s.len(),
{
    if s.len() == 0 || le(s.last(), x) {
        s.push(x)
    } else {
        insert_by(s.drop_last(), x, le).push(s.last())
    }
}

/// `s` sorted by `le`, stably.
pub open spec fn sort_by<T>(s: Seq<T>, le: spec_fn(T, T) -> bool) -> Seq<T>
    decreases s.len(),
{
    if s.len() == 0 {
        s
    } else {
        insert_by(sort_by(s.drop_last(), le), s.last(), le)
    }
}

/// Where a scan from the end stops is where `insert_by` places `x`.
pub proof fn lemma_insert_by_at<T>(s: Seq<T>, x: T, le: spec_fn(T, T) -> bool, j: int)
    requires
        0 <= j <= s.len(),
        forall|k: int| j <= k < s.len() ==> !le(#[trigger] s[k], x),
        j == 0 || le(s[j - 1], x),
    ensures
        insert_by(s, x, le) == s.insert(j, x),
    decreases s.len(),
{
    if s.len() == 0 {
        assert(s.insert(j, x) =~= s.push(x));
    } else if le(s.last(), x) {
        assert(j == s.len());
        assert(s.insert(j, x) =~= s.push(x));
    } else {
        assert(j < s.len());
        let d = s.drop_last();
        assert forall|k: int| j <= k < d.len() implies !le(#[trigger] d[k], x) by {
            assert(d[k] == s[k]);
        }
        if j > 0 {
            assert(d[j - 1] == s[j - 1]);
        }
        lemma_insert_by_at(d, x, le, j);
        assert(d.insert(j, x).push(s.last()) =~= s.insert(j, x));
    }
}

/// Sorting keeps every element, as many times as it came.
pub proof fn lemma_insert_by_len<T>(s: Seq<T>, x: T, le: spec_fn(T, T) -> bool)
    ensures
        insert_by(s, x, le).len() == s.len() + 1,
        insert_by(s, x, le).to_multiset() == s.to_multiset().insert(x),
    decreases s.len(),
{
    broadcast use vstd::seq_lib::group_to_multiset_ensures;

    if s.len() == 0 || le(s.last(), x) {
    } else {
        lemma_insert_by_len(s.drop_last(), x, le);
        assert(s =~= s.drop_last().push(s.last()));
    }
}

/// Sorting gives back the same elements, each as often.
pub proof fn lemma_sort_by_permutes<T>(s: Seq<T>, le: spec_fn(T, T) -> bool)
    ensures
        sort_by(s, le).len() == s.len(),
        sort_by(s, le).to_multiset() == s.to_multiset(),
    decreases s.len(),
{
    broadcast use vstd::seq_lib::group_to_multiset_ensures;

    if s.len() > 0 {
        lemma_sort_by_permutes(s.drop_last(), le);
        lemma_insert_by_len(sort_by(s.drop_last(), le), s.last(), le);
        assert(s =~= s.drop_last().push(s.last()));
    }
}


/// Every element `insert_by` places is `x` or one of `s`.
proof fn lemma_insert_by_from<T>(s: Seq<T>, x: T, le: spec_fn(T, T) -> bool)
    ensures
        forall|k: int| 0 <= k < insert_by(s, x, le).len() ==> #[trigger] insert_by(s, x, le)[k] == x || s.contains(insert_by(s, x, le)[k]),
    decreases s.len(),
{
    lemma_insert_by_len(s, x, le);
    if s.len() > 0 && !le(s.last(), x) {
        let d = s.drop_last();
        lemma_insert_by_from(d, x, le);
        lemma_insert_by_len(d, x, le);
        let r = insert_by(s, x, le);
        assert forall|k: int| 0 <= k < r.len() implies #[trigger] r[k] == x || s.contains(r[k]) by {
            if k < r.len() - 1 {
                let y = insert_by(d, x, le)[k];
                assert(r[k] == y);
                if d.contains(y) {
                    let w = choose|w: int| 0 <= w < d.len() && d[w] == y;
                    assert(s[w] == y);
                }
            } else {
                assert(r[k] == s.last());
                assert(s[s.len() - 1] == s.last());
            }
        }
    }
}

/// `le` orders any two elements, one way or the other, and chains.
pub open spec fn total_order<T>(le: spec_fn(T, T) -> bool) -> bool {
    &&& forall|a: T, b: T| #[trigger] le(a, b) || le(b, a)
    &&& forall|a: T, b: T, c: T| #[trigger] le(a, b) && #[trigger] le(b, c) ==> le(a, c)
}

pub open spec fn sorted_by<T>(s: Seq<T>, le: spec_fn(T, T) -> bool) -> bool {
    forall|i: int, j: int| 0 <= i < j < s.len() ==> le(#[trigger] s[i], #[trigger] s[j])
}

proof fn lemma_insert_by_sorted<T>(s: Seq<T>, x: T, le: spec_fn(T, T) -> bool)
    requires
        total_order(le),
        sorted_by(s, le),
    ensures
        sorted_by(insert_by(s, x, le), le),
    decreases s.len(),
{
    lemma_insert_by_len(s, x, le);
    if s.len() == 0 {
    } else if le(s.last(), x) {
        let r = s.push(x);
        assert forall|i: int, j: int| 0 <= i < j < r.len() implies le(#[trigger] r[i], #[trigger] r[j]) by {
            if j == r.len() - 1 && i < s.len() - 1 {
                assert(le(s[i], s[s.len() - 1]));
            }
        }
    } else {
        let d = s.drop_last();
        assert(sorted_by(d, le)) by {
            assert forall|i: int, j: int| 0 <= i < j < d.len() implies le(#[trigger] d[i], #[trigger] d[j]) by {
                assert(d[i] == s[i] && d[j] == s[j]);
            }
        }
        lemma_insert_by_sorted(d, x, le);
        lemma_insert_by_from(d, x, le);
        lemma_insert_by_len(d, x, le);
        let inner = insert_by(d, x, le);
        let r = inner.push(s.last());
        assert(le(x, s.last()));
        assert forall|i: int, j: int| 0 <= i < j < r.len() implies le(#[trigger] r[i], #[trigger] r[j]) by {
            if j == r.len() - 1 {
                let y = inner[i];
                assert(r[i] == y);
                if y != x {
                    assert(d.contains(y));
                    let w = choose|w: int| 0 <= w < d.len() && d[w] == y;
                    assert(le(s[w], s[s.len() - 1]));
                }
            } else {
                assert(r[i] == inner[i] && r[j] == inner[j]);
            }
        }
    }
}

/// Law: sorting by a total order gives a sorted sequence.
pub proof fn lemma_sort_by_sorted<T>(s: Seq<T>, le: spec_fn(T, T) -> bool)
    requires
        total_order(le),
    ensures
        sorted_by(sort_by(s, le), le),
    decreases s.len(),
{
    if s.len() > 0 {
        lemma_sort_by_sorted(s.drop_last(), le);
        lemma_insert_by_sorted(sort_by(s.drop_last(), le), s.last(), le);
    }
}


/// The elements of `s` that `le` ties with `y` (each orders with the
/// other), in their order.
pub open spec fn ties<T>(s: Seq<T>, le: spec_fn(T, T) -> bool, y: T) -> Seq<T>
    decreases s.len(),
{
    if s.len() == 0 {
        s
    } else if le(s.last(), y) && le(y, s.last()) {
        ties(s.drop_last(), le, y).push(s.last())
    } else {
        ties(s.drop_last(), le, y)
    }
}

proof fn lemma_insert_by_ties<T>(s: Seq<T>, x: T, le: spec_fn(T, T) -> bool, y: T)
    requires
        total_order(le),
    ensures
        ties(insert_by(s, x, le), le, y) == ties(s.push(x), le, y),
    decreases s.len(),
{
    if s.len() == 0 || le(s.last(), x) {
    } else {
        let d = s.drop_last();
        let a = s.last();
        lemma_insert_by_ties(d, x, le, y);
        let i = insert_by(d, x, le);
        assert(insert_by(s, x, le) == i.push(a));
        assert(i.push(a).drop_last() =~= i);
        assert(s.push(x).drop_last() =~= s);
        assert(d.push(x).drop_last() =~= d);
        let tx = le(x, y) && le(y, x);
        let ta = le(a, y) && le(y, a);
        let td = ties(d, le, y);
        assert(ties(d.push(x), le, y) == if tx { td.push(x) } else { td });
        assert(ties(s, le, y) == if ta { td.push(a) } else { td });
        assert(ties(s.push(x), le, y) == if tx { ties(s, le, y).push(x) } else { ties(s, le, y) });
        assert(ties(i.push(a), le, y) == if ta { ties(i, le, y).push(a) } else { ties(i, le, y) });
        if tx && ta {
            assert(le(a, x));
        }
    }
}

/// Law: sorting is stable: the elements that tie with any `y` come out in
/// the order they went in.
pub proof fn lemma_sort_by_stable<T>(s: Seq<T>, le: spec_fn(T, T) -> bool, y: T)
    requires
        total_order(le),
    ensures
        ties(sort_by(s, le), le, y) == ties(s, le, y),
    decreases s.len(),
{
    if s.len() > 0 {
        lemma_sort_by_stable(s.drop_last(), le, y);
        lemma_insert_by_ties(sort_by(s.drop_last(), le), s.last(), le, y);
        assert(sort_by(s.drop_last(), le).push(s.last()).drop_last() =~= sort_by(s.drop_last(), le));
        assert(s.drop_last().push(s.last()) =~= s);
    }
}

} // verus!
