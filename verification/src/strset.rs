//! Sets of strings kept as vectors in `str` order with no string twice,
//! which is how a `BTreeSet<String>` lists them.
use vstd::prelude::*;

use crate::text::{compare_str, lemma_seq_order_basics, lemma_seq_order_trans, seq_order};

verus! {

/// In `str` order, no string twice.
pub open spec fn str_sorted(s: Seq<String>) -> bool {
    forall|i: int, j: int| 0 <= i < j < s.len() ==> seq_order((#[trigger] s[i])@, (#[trigger] s[j])@) < 0
}

/// The texts of `s`.
pub open spec fn str_set(s: Seq<String>) -> Set<Seq<char>> {
    s.map_values(|x: String| x@).to_set()
}

/// Two sorted lists of the same strings are the same list.
pub proof fn lemma_sorted_unique(a: Seq<String>, b: Seq<String>)
    requires
        str_sorted(a),
        str_sorted(b),
        str_set(a) == str_set(b),
    ensures
        a.map_values(|x: String| x@) == b.map_values(|x: String| x@),
    decreases a.len() + b.len(),
{
    let va = a.map_values(|x: String| x@);
    let vb = b.map_values(|x: String| x@);
    if a.len() == 0 {
        if b.len() > 0 {
            assert(vb[0] == b[0]@);
            assert(vb.contains(b[0]@));
            assert(str_set(b).contains(b[0]@));
            assert(!str_set(a).contains(b[0]@));
        }
        assert(va =~= vb);
    } else if b.len() == 0 {
        assert(va[0] == a[0]@);
        assert(va.contains(a[0]@));
        assert(str_set(a).contains(a[0]@));
        assert(!str_set(b).contains(a[0]@));
    } else {
        // the smallest of each is the smallest of the set
        assert(va.contains(a[0]@)) by { assert(va[0] == a[0]@); }
        assert(vb.contains(b[0]@)) by { assert(vb[0] == b[0]@); }
        assert(str_set(b).contains(a[0]@));
        assert(str_set(a).contains(b[0]@));
        let i = choose|i: int| 0 <= i < vb.len() && vb[i] == a[0]@;
        let j = choose|j: int| 0 <= j < va.len() && va[j] == b[0]@;
        lemma_seq_order_basics(a[0]@, b[0]@);
        if i > 0 {
            assert(seq_order(b[0]@, b[i]@) < 0);
            if j > 0 {
                assert(seq_order(a[0]@, a[j]@) < 0);
                lemma_seq_order_trans(a[0]@, b[0]@, a[0]@);
                lemma_seq_order_basics(a[0]@, a[0]@);
            }
        }
        assert(a[0]@ == b[0]@) by {
            if i > 0 && j == 0 {
                assert(va[0] == b[0]@);
            }
        }
        let a1 = a.drop_first();
        let b1 = b.drop_first();
        assert forall|x: Seq<char>| str_set(a1).contains(x) <==> str_set(b1).contains(x) by {
            let va1 = a1.map_values(|y: String| y@);
            let vb1 = b1.map_values(|y: String| y@);
            if str_set(a1).contains(x) {
                let k = choose|k: int| 0 <= k < va1.len() && va1[k] == x;
                assert(va[k + 1] == x);
                assert(str_set(b).contains(x));
                let m = choose|m: int| 0 <= m < vb.len() && vb[m] == x;
                assert(seq_order(a[0]@, a[k + 1]@) < 0);
                if m == 0 {
                    lemma_seq_order_basics(a[0]@, x);
                }
                assert(vb1[m - 1] == x);
            }
            if str_set(b1).contains(x) {
                let k = choose|k: int| 0 <= k < vb1.len() && vb1[k] == x;
                assert(vb[k + 1] == x);
                assert(str_set(a).contains(x));
                let m = choose|m: int| 0 <= m < va.len() && va[m] == x;
                assert(seq_order(b[0]@, b[k + 1]@) < 0);
                if m == 0 {
                    lemma_seq_order_basics(b[0]@, x);
                }
                assert(va1[m - 1] == x);
            }
        }
        assert(str_set(a1) =~= str_set(b1));
        lemma_sorted_unique(a1, b1);
        assert(va =~= seq![a[0]@] + a1.map_values(|x: String| x@));
        assert(vb =~= seq![b[0]@] + b1.map_values(|x: String| x@));
    }
}

/// Texts in `str` order, none twice.
pub open spec fn texts_sorted(d: Seq<Seq<char>>) -> bool {
    forall|i: int, j: int| 0 <= i < j < d.len() ==> seq_order(#[trigger] d[i], #[trigger] d[j]) < 0
}

/// The texts of `s`, in `str` order.
pub open spec fn sorted_texts(s: Set<Seq<char>>) -> Seq<Seq<char>> {
    choose|d: Seq<Seq<char>>| texts_sorted(d) && d.to_set() == s
}

/// The views of some strings.
pub open spec fn views_of(v: Seq<String>) -> Seq<Seq<char>> {
    v.map_values(|x: String| x@)
}

/// A sorted list of strings lists its set in order.
pub proof fn lemma_sorted_texts(v: Seq<String>)
    requires
        str_sorted(v),
    ensures
        views_of(v) == sorted_texts(str_set(v)),
{
    let w = views_of(v);
    assert(texts_sorted(w)) by {
        assert forall|i: int, j: int| 0 <= i < j < w.len() implies seq_order(#[trigger] w[i], #[trigger] w[j]) < 0 by {
            assert(w[i] == v[i]@ && w[j] == v[j]@);
        }
    }
    assert(w.to_set() == str_set(v));
    let d = sorted_texts(str_set(v));
    lemma_texts_unique(d, w);
}

proof fn lemma_texts_unique(a: Seq<Seq<char>>, b: Seq<Seq<char>>)
    requires
        texts_sorted(a),
        texts_sorted(b),
        a.to_set() == b.to_set(),
    ensures
        a == b,
    decreases a.len() + b.len(),
{
    if a.len() == 0 {
        if b.len() > 0 {
            assert(b.contains(b[0]));
            assert(b.to_set().contains(b[0]));
            assert(!a.to_set().contains(b[0]));
        }
        assert(a =~= b);
    } else if b.len() == 0 {
        assert(a.contains(a[0]));
        assert(a.to_set().contains(a[0]));
        assert(!b.to_set().contains(a[0]));
    } else {
        assert(a.contains(a[0]));
        assert(b.contains(b[0]));
        assert(b.to_set().contains(a[0]));
        assert(a.to_set().contains(b[0]));
        let i = choose|i: int| 0 <= i < b.len() && b[i] == a[0];
        let j = choose|j: int| 0 <= j < a.len() && a[j] == b[0];
        lemma_seq_order_basics(a[0], b[0]);
        if i > 0 && j > 0 {
            assert(seq_order(b[0], b[i]) < 0);
            assert(seq_order(a[0], a[j]) < 0);
            lemma_seq_order_trans(a[0], b[0], a[0]);
            lemma_seq_order_basics(a[0], a[0]);
        }
        assert(a[0] == b[0]) by {
            if i > 0 && j == 0 {
                assert(a[0] == b[0]);
            }
        }
        let a1 = a.drop_first();
        let b1 = b.drop_first();
        assert forall|x: Seq<char>| a1.to_set().contains(x) <==> b1.to_set().contains(x) by {
            if a1.contains(x) {
                let k = choose|k: int| 0 <= k < a1.len() && a1[k] == x;
                assert(a[k + 1] == x);
                assert(a.contains(x));
                assert(b.to_set().contains(x));
                let m = choose|m: int| 0 <= m < b.len() && b[m] == x;
                assert(seq_order(a[0], a[k + 1]) < 0);
                if m == 0 {
                    lemma_seq_order_basics(a[0], x);
                }
                assert(b1[m - 1] == x);
            }
            if b1.contains(x) {
                let k = choose|k: int| 0 <= k < b1.len() && b1[k] == x;
                assert(b[k + 1] == x);
                assert(b.contains(x));
                assert(a.to_set().contains(x));
                let m = choose|m: int| 0 <= m < a.len() && a[m] == x;
                assert(seq_order(b[0], b[k + 1]) < 0);
                if m == 0 {
                    lemma_seq_order_basics(b[0], x);
                }
                assert(a1[m - 1] == x);
            }
        }
        assert(a1.to_set() =~= b1.to_set());
        lemma_texts_unique(a1, b1);
        assert(a =~= seq![a[0]] + a1);
        assert(b =~= seq![b[0]] + b1);
    }
}

/// Where `x` is in `v`, or would go.
pub fn locate_str(v: &Vec<String>, x: &str) -> (r: (usize, bool))
    requires
        str_sorted(v@),
    ensures
        r.0 <= v.len(),
        forall|j: int| 0 <= j < r.0 ==> seq_order((#[trigger] v@[j])@, x@) < 0,
        r.1 ==> r.0 < v.len() && v@[r.0 as int]@ == x@,
        !r.1 ==> forall|j: int| r.0 <= j < v.len() ==> seq_order(x@, (#[trigger] v@[j])@) < 0,
{
    let mut i: usize = 0;
    while i < v.len()
        invariant
            str_sorted(v@),
            i <= v.len(),
            forall|j: int| 0 <= j < i ==> seq_order((#[trigger] v@[j])@, x@) < 0,
        decreases v.len() - i,
    {
        let c = compare_str(v[i].as_str(), x);
        proof {
            lemma_seq_order_basics(v@[i as int]@, x@);
        }
        if c == 0 {
            return (i, true);
        }
        if c > 0 {
            proof {
                assert forall|j: int| i <= j < v.len() implies seq_order(x@, (#[trigger] v@[j])@) < 0 by {
                    if j > i {
                        lemma_seq_order_trans(x@, v@[i as int]@, v@[j]@);
                    }
                }
            }
            return (i, false);
        }
        i = i + 1;
    }
    (i, false)
}

/// Whether `v` holds `x`.
pub fn contains_str(v: &Vec<String>, x: &str) -> (r: bool)
    requires
        str_sorted(v@),
    ensures
        r == str_set(v@).contains(x@),
{
    let (p, found) = locate_str(v, x);
    proof {
        let vs = v@.map_values(|y: String| y@);
        if !found {
            if str_set(v@).contains(x@) {
                let k = choose|k: int| 0 <= k < vs.len() && vs[k] == x@;
                lemma_seq_order_basics(v@[k]@, x@);
            }
        } else {
            assert(vs[p as int] == x@);
        }
    }
    found
}

/// Adds `x` to `v`.
pub fn insert_str(v: &mut Vec<String>, x: String)
    requires
        str_sorted(old(v)@),
    ensures
        str_sorted(final(v)@),
        str_set(final(v)@) == str_set(old(v)@).insert(x@),
{
    let (p, found) = locate_str(v, x.as_str());
    if found {
        proof {
            let vs = v@.map_values(|y: String| y@);
            assert(vs[p as int] == x@);
            assert(str_set(v@) =~= str_set(v@).insert(x@));
        }
        return;
    }
    let ghost before = v@;
    v.insert(p, x);
    proof {
        assert forall|i: int, j: int| 0 <= i < j < v@.len() implies seq_order((#[trigger] v@[i])@, (#[trigger] v@[j])@) < 0 by {
            if j < p {
                assert(v@[i] == before[i] && v@[j] == before[j]);
            } else if j == p {
                assert(v@[i] == before[i]);
            } else if i < p {
                assert(v@[i] == before[i] && v@[j] == before[j - 1]);
                lemma_seq_order_trans(before[i]@, x@, before[j - 1]@);
            } else if i == p {
                assert(v@[j] == before[j - 1]);
            } else {
                assert(v@[i] == before[i - 1] && v@[j] == before[j - 1]);
            }
        }
        let vs = v@.map_values(|y: String| y@);
        let bs = before.map_values(|y: String| y@);
        assert(vs =~= bs.insert(p as int, x@));
        assert forall|s: Seq<char>| str_set(v@).contains(s) <==> str_set(before).insert(x@).contains(s) by {
            if str_set(v@).contains(s) {
                let k = choose|k: int| 0 <= k < vs.len() && vs[k] == s;
                if k < p {
                    assert(bs[k] == s);
                } else if k > p {
                    assert(bs[k - 1] == s);
                }
            }
            if str_set(before).contains(s) {
                let k = choose|k: int| 0 <= k < bs.len() && bs[k] == s;
                if k < p {
                    assert(vs[k] == s);
                } else {
                    assert(vs[k + 1] == s);
                }
            }
            if s == x@ {
                assert(vs[p as int] == s);
            }
        }
        assert(str_set(v@) =~= str_set(before).insert(x@));
    }
}

} // verus!
