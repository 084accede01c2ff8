//! The ratchet: how many findings of each ratcheted rule each file may keep.
//! A count can fall freely and never rise; `--write-baseline` lowers it.
use vstd::prelude::*;

use crate::guard::finding::Finding;
use crate::text::{compare_str, lemma_seq_order_basics, lemma_seq_order_trans, seq_order};

verus! {

/// A file and a rule, as text.
pub open spec fn key_of(e: (String, String, u64)) -> (Seq<char>, Seq<char>) {
    (e.0@, e.1@)
}

/// File first, then rule, each in `str` order.
pub open spec fn key_lt(a: (Seq<char>, Seq<char>), b: (Seq<char>, Seq<char>)) -> bool {
    ||| seq_order(a.0, b.0) < 0
    ||| seq_order(a.0, b.0) == 0 && seq_order(a.1, b.1) < 0
}

/// Entries in key order, no key twice.
pub open spec fn strictly_sorted(s: Seq<(String, String, u64)>) -> bool {
    forall|i: int, j: int| 0 <= i < j < s.len() ==> key_lt(key_of(#[trigger] s[i]), key_of(#[trigger] s[j]))
}

/// The count recorded for `k`, or 0.
pub open spec fn count_in(s: Seq<(String, String, u64)>, k: (Seq<char>, Seq<char>)) -> nat {
    if exists|i: int| 0 <= i < s.len() && key_of(s[i]) == k {
        s[choose|i: int| 0 <= i < s.len() && key_of(s[i]) == k].2 as nat
    } else {
        0
    }
}

/// How many of `fs` are of file and rule `k`.
pub open spec fn tally_count(fs: Seq<Finding>, k: (Seq<char>, Seq<char>)) -> nat
    decreases fs.len(),
{
    if fs.len() == 0 {
        0
    } else {
        tally_count(fs.drop_last(), k) + if (fs.last().file@, fs.last().rule@) == k { 1nat } else { 0nat }
    }
}

/// File, then rule, then count: how many findings of each rule each file
/// holds.
#[derive(Debug, Clone, PartialEq, Eq)]
pub struct Counts {
    entries: Vec<(String, String, u64)>,
}

#[derive(Debug, Clone, PartialEq, Eq)]
pub struct Change {
    pub file: String,
    pub rule: String,
    pub was: u64,
    pub now: u64,
}

proof fn lemma_key_lt_irreflexive(a: (Seq<char>, Seq<char>))
    ensures
        !key_lt(a, a),
{
    lemma_seq_order_basics(a.0, a.0);
    lemma_seq_order_basics(a.1, a.1);
}

proof fn lemma_key_lt_trans(a: (Seq<char>, Seq<char>), b: (Seq<char>, Seq<char>), c: (Seq<char>, Seq<char>))
    requires
        key_lt(a, b),
        key_lt(b, c),
    ensures
        key_lt(a, c),
{
    lemma_seq_order_basics(a.0, b.0);
    lemma_seq_order_basics(b.0, c.0);
    lemma_seq_order_basics(a.0, c.0);
    if seq_order(a.0, b.0) < 0 && seq_order(b.0, c.0) < 0 {
        lemma_seq_order_trans(a.0, b.0, c.0);
    } else if seq_order(a.0, b.0) < 0 {
        assert(b.0 == c.0);
    } else if seq_order(b.0, c.0) < 0 {
        assert(a.0 == b.0);
    } else {
        assert(a.0 == b.0 && b.0 == c.0);
        lemma_seq_order_trans(a.1, b.1, c.1);
    }
}

/// Exactly one of `a < b`, `a == b`, `b < a`.
proof fn lemma_key_total(a: (Seq<char>, Seq<char>), b: (Seq<char>, Seq<char>))
    ensures
        key_lt(a, b) || a == b || key_lt(b, a),
        !(key_lt(a, b) && key_lt(b, a)),
        key_lt(a, b) ==> a != b,
{
    lemma_seq_order_basics(a.0, b.0);
    lemma_seq_order_basics(a.1, b.1);
}

proof fn lemma_count_at(s: Seq<(String, String, u64)>, i: int)
    requires
        strictly_sorted(s),
        0 <= i < s.len(),
    ensures
        count_in(s, key_of(s[i])) == s[i].2,
{
    let k = key_of(s[i]);
    let j = choose|j: int| 0 <= j < s.len() && key_of(s[j]) == k;
    if j != i {
        lemma_key_lt_irreflexive(k);
        if j < i {
            assert(key_lt(key_of(s[j]), key_of(s[i])));
        } else {
            assert(key_lt(key_of(s[i]), key_of(s[j])));
        }
    }
}

/// Where `k` is or would go: every entry before is smaller, and the one at
/// the position, if any, is `k` or larger.
fn locate(s: &Vec<(String, String, u64)>, file: &str, rule: &str) -> (r: (usize, bool))
    requires
        strictly_sorted(s@),
    ensures
        r.0 <= s.len(),
        forall|j: int| 0 <= j < r.0 ==> key_lt(key_of(#[trigger] s@[j]), (file@, rule@)),
        r.1 ==> r.0 < s.len() && key_of(s@[r.0 as int]) == (file@, rule@),
        !r.1 ==> forall|j: int| r.0 <= j < s.len() ==> key_lt((file@, rule@), key_of(#[trigger] s@[j])),
{
    let mut i: usize = 0;
    while i < s.len()
        invariant
            strictly_sorted(s@),
            i <= s.len(),
            forall|j: int| 0 <= j < i ==> key_lt(key_of(#[trigger] s@[j]), (file@, rule@)),
        decreases s.len() - i,
    {
        let by_file = compare_str(s[i].0.as_str(), file);
        let by_rule = compare_str(s[i].1.as_str(), rule);
        proof {
            lemma_seq_order_basics(s@[i as int].0@, file@);
            lemma_seq_order_basics(s@[i as int].1@, rule@);
        }
        if by_file == 0 && by_rule == 0 {
            return (i, true);
        }
        if by_file > 0 || (by_file == 0 && by_rule > 0) {
            proof {
                let k = (file@, rule@);
                assert(key_lt(k, key_of(s@[i as int])));
                assert forall|j: int| i <= j < s.len() implies key_lt(k, key_of(#[trigger] s@[j])) by {
                    if j > i {
                        lemma_key_lt_trans(k, key_of(s@[i as int]), key_of(s@[j]));
                    }
                }
            }
            return (i, false);
        }
        i = i + 1;
    }
    (i, false)
}

impl Counts {
    /// The entries are in key order with no key twice.
    pub closed spec fn wf(&self) -> bool {
        strictly_sorted(self.entries@)
    }

    /// The count of `rule` in `file`, 0 where none is recorded.
    pub closed spec fn count(&self, file: Seq<char>, rule: Seq<char>) -> nat {
        count_in(self.entries@, (file, rule))
    }

    pub closed spec fn entries_view(&self) -> Seq<(String, String, u64)> {
        self.entries@
    }

    pub fn new() -> (r: Counts)
        ensures
            r.wf(),
            r.entries_view().len() == 0,
            forall|f: Seq<char>, u: Seq<char>| r.count(f, u) == 0,
    {
        Counts { entries: Vec::new() }
    }

    /// The entries, in key order.
    pub fn entries(&self) -> (r: &Vec<(String, String, u64)>)
        requires
            self.wf(),
        ensures
            r@ == self.entries_view(),
            forall|i: int| 0 <= i < r@.len() ==> self.count((#[trigger] r@[i]).0@, r@[i].1@) == r@[i].2,
            forall|i: int, j: int| 0 <= i < j < r@.len() ==> key_lt(key_of(#[trigger] r@[i]), key_of(#[trigger] r@[j])),
    {
        proof {
            assert forall|i: int| 0 <= i < self.entries@.len() implies self.count((#[trigger] self.entries@[i]).0@, self.entries@[i].1@) == self.entries@[i].2 by {
                lemma_count_at(self.entries@, i);
            }
        }
        &self.entries
    }

    pub fn is_empty(&self) -> (r: bool)
        ensures
            r == (self.entries_view().len() == 0),
    {
        self.entries.len() == 0
    }

    /// The recorded count of `rule` in `file`, or 0.
    pub fn get(&self, file: &str, rule: &str) -> (r: u64)
        requires
            self.wf(),
        ensures
            r as nat == self.count(file@, rule@),
    {
        let (p, found) = locate(&self.entries, file, rule);
        if found {
            proof {
                lemma_count_at(self.entries@, p as int);
            }
            self.entries[p].2
        } else {
            proof {
                assert forall|j: int| 0 <= j < self.entries@.len() implies key_of(#[trigger] self.entries@[j]) != (file@, rule@) by {
                    lemma_key_total(key_of(self.entries@[j]), (file@, rule@));
                }
            }
            0
        }
    }

    /// Records `count` for `rule` in `file`, in place of what was there.
    pub fn set(&mut self, file: &str, rule: &str, count: u64)
        requires
            old(self).wf(),
        ensures
            final(self).wf(),
            final(self).count(file@, rule@) == count,
            forall|f: Seq<char>, u: Seq<char>| (f, u) != (file@, rule@) ==> #[trigger] final(self).count(f, u) == old(self).count(f, u),
            forall|i: int| 0 <= i < old(self).entries_view().len() && key_of(old(self).entries_view()[i]) != (file@, rule@)
                ==> final(self).entries_view().contains(#[trigger] old(self).entries_view()[i]),
            forall|i: int| 0 <= i < final(self).entries_view().len() ==> (#[trigger] final(self).entries_view()[i]).2 == count
                || old(self).entries_view().contains(final(self).entries_view()[i]),
    {
        let (p, found) = locate(&self.entries, file, rule);
        let ghost before = self.entries@;
        let ghost k = (file@, rule@);
        let e = (file.to_owned(), rule.to_owned(), count);
        if found {
            self.entries.set(p, e);
            proof {
                lemma_update_keeps(before, p as int, e);
            }
        } else {
            self.entries.insert(p, e);
            proof {
                lemma_insert_keeps(before, p as int, e);
            }
        }
    }
}

/// Replacing an entry by one of the same key keeps the order, and every
/// other key's count.
proof fn lemma_update_keeps(s: Seq<(String, String, u64)>, p: int, e: (String, String, u64))
    requires
        strictly_sorted(s),
        0 <= p < s.len(),
        key_of(s[p]) == key_of(e),
    ensures
        strictly_sorted(s.update(p, e)),
        count_in(s.update(p, e), key_of(e)) == e.2,
        forall|k: (Seq<char>, Seq<char>)| k != key_of(e) ==> #[trigger] count_in(s.update(p, e), k) == count_in(s, k),
        forall|i: int| 0 <= i < s.len() && key_of(s[i]) != key_of(e) ==> s.update(p, e).contains(#[trigger] s[i]),
        forall|i: int| 0 <= i < s.len() ==> (#[trigger] s.update(p, e)[i]).2 == e.2 || s.contains(s.update(p, e)[i]),
{
    let t = s.update(p, e);
    assert forall|i: int, j: int| 0 <= i < j < t.len() implies key_lt(key_of(#[trigger] t[i]), key_of(#[trigger] t[j])) by {
        assert(key_lt(key_of(s[i]), key_of(s[j])));
    }
    lemma_count_at(t, p);
    assert forall|k: (Seq<char>, Seq<char>)| k != key_of(e) implies #[trigger] count_in(t, k) == count_in(s, k) by {
        if exists|i: int| 0 <= i < s.len() && key_of(s[i]) == k {
            let i = choose|i: int| 0 <= i < s.len() && key_of(s[i]) == k;
            assert(i != p);
            assert(t[i] == s[i]);
            lemma_count_at(s, i);
            lemma_count_at(t, i);
        } else {
            assert forall|i: int| 0 <= i < t.len() implies key_of(t[i]) != k by {
                if i != p {
                    assert(t[i] == s[i]);
                }
            }
        }
    }
    assert forall|i: int| 0 <= i < s.len() && key_of(s[i]) != key_of(e) implies t.contains(#[trigger] s[i]) by {
        assert(t[i] == s[i]);
    }
    assert forall|i: int| 0 <= i < s.len() implies (#[trigger] t[i]).2 == e.2 || s.contains(t[i]) by {
        if i != p {
            assert(t[i] == s[i]);
        }
    }
}

/// Putting an entry where `locate` says it goes keeps the order, and every
/// other key's count.
proof fn lemma_insert_keeps(s: Seq<(String, String, u64)>, p: int, e: (String, String, u64))
    requires
        strictly_sorted(s),
        0 <= p <= s.len(),
        forall|j: int| 0 <= j < p ==> key_lt(key_of(#[trigger] s[j]), key_of(e)),
        forall|j: int| p <= j < s.len() ==> key_lt(key_of(e), key_of(#[trigger] s[j])),
    ensures
        strictly_sorted(s.insert(p, e)),
        count_in(s.insert(p, e), key_of(e)) == e.2,
        forall|k: (Seq<char>, Seq<char>)| k != key_of(e) ==> #[trigger] count_in(s.insert(p, e), k) == count_in(s, k),
        forall|i: int| 0 <= i < s.len() && key_of(s[i]) != key_of(e) ==> s.insert(p, e).contains(#[trigger] s[i]),
        forall|i: int| 0 <= i < s.len() + 1 ==> (#[trigger] s.insert(p, e)[i]).2 == e.2 || s.contains(s.insert(p, e)[i]),
{
    let t = s.insert(p, e);
    assert forall|i: int, j: int| 0 <= i < j < t.len() implies key_lt(key_of(#[trigger] t[i]), key_of(#[trigger] t[j])) by {
        if j < p {
            assert(t[i] == s[i] && t[j] == s[j]);
        } else if j == p {
            assert(t[i] == s[i]);
        } else if i < p {
            assert(t[i] == s[i] && t[j] == s[j - 1]);
            lemma_key_lt_trans(key_of(s[i]), key_of(e), key_of(s[j - 1]));
        } else if i == p {
            assert(t[j] == s[j - 1]);
        } else {
            assert(t[i] == s[i - 1] && t[j] == s[j - 1]);
        }
    }
    lemma_count_at(t, p);
    assert forall|k: (Seq<char>, Seq<char>)| k != key_of(e) implies #[trigger] count_in(t, k) == count_in(s, k) by {
        if exists|i: int| 0 <= i < s.len() && key_of(s[i]) == k {
            let i = choose|i: int| 0 <= i < s.len() && key_of(s[i]) == k;
            lemma_count_at(s, i);
            if i < p {
                assert(t[i] == s[i]);
                lemma_count_at(t, i);
            } else {
                assert(t[i + 1] == s[i]);
                lemma_count_at(t, i + 1);
            }
        } else {
            assert forall|i: int| 0 <= i < t.len() implies key_of(t[i]) != k by {
                if i < p {
                    assert(t[i] == s[i]);
                } else if i > p {
                    assert(t[i] == s[i - 1]);
                }
            }
        }
    }
    assert forall|i: int| 0 <= i < s.len() && key_of(s[i]) != key_of(e) implies t.contains(#[trigger] s[i]) by {
        if i < p {
            assert(t[i] == s[i]);
        } else {
            assert(t[i + 1] == s[i]);
        }
    }
    assert forall|i: int| 0 <= i < s.len() + 1 implies (#[trigger] t[i]).2 == e.2 || s.contains(t[i]) by {
        if i < p {
            assert(t[i] == s[i]);
        } else if i > p {
            assert(t[i] == s[i - 1]);
        }
    }
}

/// How many findings of each rule each file holds: every count is at least
/// one, and a file and rule with no finding has no entry.
pub fn tally(findings: &[Finding]) -> (r: Counts)
    ensures
        r.wf(),
        forall|f: Seq<char>, u: Seq<char>| #[trigger] r.count(f, u) == tally_count(findings@, (f, u)),
        forall|i: int| 0 <= i < r.entries_view().len() ==> (#[trigger] r.entries_view()[i]).2 > 0,
{
    let mut counts = Counts::new();
    let mut i: usize = 0;
    while i < findings.len()
        invariant
            i <= findings.len(),
            counts.wf(),
            forall|f: Seq<char>, u: Seq<char>| #[trigger] counts.count(f, u) == tally_count(findings@.take(i as int), (f, u)),
            forall|j: int| 0 <= j < counts.entries@.len() ==> 0 < (#[trigger] counts.entries@[j]).2 <= i,
        decreases findings.len() - i,
    {
        let f = &findings[i];
        let have = counts.get(f.file.as_str(), f.rule.as_str());
        proof {
            assert(findings@.take(i as int + 1).drop_last() =~= findings@.take(i as int));
            lemma_count_bound(counts.entries@, (f.file@, f.rule@), i as nat);
        }
        let ghost before = counts;
        counts.set(f.file.as_str(), f.rule.as_str(), have + 1);
        proof {
            assert forall|a: Seq<char>, u: Seq<char>| #[trigger] counts.count(a, u) == tally_count(findings@.take(i as int + 1), (a, u)) by {
                assert(findings@.take(i as int + 1).last() == findings@[i as int]);
            }
            assert forall|j: int| 0 <= j < counts.entries@.len() implies 0 < (#[trigger] counts.entries@[j]).2 <= i + 1 by {
                let e = counts.entries_view()[j];
                if e.2 != have + 1 {
                    assert(before.entries_view().contains(e));
                    let q = choose|q: int| 0 <= q < before.entries_view().len() && before.entries_view()[q] == e;
                    assert(0 < before.entries@[q].2 <= i);
                }
            }
        }
        i = i + 1;
    }
    proof {
        assert(findings@.take(i as int) =~= findings@);
    }
    counts
}

proof fn lemma_count_bound(s: Seq<(String, String, u64)>, k: (Seq<char>, Seq<char>), b: nat)
    requires
        forall|j: int| 0 <= j < s.len() ==> (#[trigger] s[j]).2 <= b,
    ensures
        count_in(s, k) <= b,
{
    if exists|i: int| 0 <= i < s.len() && key_of(s[i]) == k {
        let i = choose|i: int| 0 <= i < s.len() && key_of(s[i]) == k;
        assert(s[i].2 <= b);
    }
}

/// A change's file and rule, as text.
pub open spec fn change_key(c: Change) -> (Seq<char>, Seq<char>) {
    (c.file@, c.rule@)
}

/// `r` lists every file and rule whose count differs between `now` and
/// `was`, in key order, once each, with both counts.
pub open spec fn changes_of(now: Counts, was: Counts, r: Seq<Change>) -> bool {
    &&& forall|i: int, j: int| 0 <= i < j < r.len() ==> key_lt(change_key(#[trigger] r[i]), change_key(#[trigger] r[j]))
    &&& forall|i: int| 0 <= i < r.len() ==> {
        let k = change_key(#[trigger] r[i]);
        r[i].now == now.count(k.0, k.1) && r[i].was == was.count(k.0, k.1)
            && r[i].now != r[i].was
    }
    &&& forall|f: Seq<char>, u: Seq<char>| now.count(f, u) != was.count(f, u)
        ==> exists|i: int| 0 <= i < r.len() && #[trigger] change_key(r[i]) == (f, u)
}

/// Some change of `a` is for file and rule `k`.
pub open spec fn has_key(a: Seq<Change>, k: (Seq<char>, Seq<char>)) -> bool {
    exists|i: int| 0 <= i < a.len() && #[trigger] change_key(a[i]) == k
}

/// The same keys in the same order.
proof fn lemma_keys_unique(a: Seq<Change>, b: Seq<Change>)
    requires
        forall|i: int, j: int| 0 <= i < j < a.len() ==> key_lt(change_key(#[trigger] a[i]), change_key(#[trigger] a[j])),
        forall|i: int, j: int| 0 <= i < j < b.len() ==> key_lt(change_key(#[trigger] b[i]), change_key(#[trigger] b[j])),
        forall|k: (Seq<char>, Seq<char>)| #[trigger] has_key(a, k) <==> has_key(b, k),
    ensures
        a.len() == b.len(),
        forall|i: int| 0 <= i < a.len() ==> change_key(#[trigger] a[i]) == change_key(b[i]),
    decreases a.len(),
{
    if a.len() == 0 {
        if b.len() > 0 {
            assert(has_key(b, change_key(b[0])));
            assert(has_key(a, change_key(b[0])));
        }
    } else {
        assert(has_key(a, change_key(a[0])));
        assert(has_key(b, change_key(a[0])));
        let jb = choose|i: int| 0 <= i < b.len() && #[trigger] change_key(b[i]) == change_key(a[0]);
        assert(has_key(b, change_key(b[0])));
        assert(has_key(a, change_key(b[0])));
        let ja = choose|i: int| 0 <= i < a.len() && #[trigger] change_key(a[i]) == change_key(b[0]);
        if ja > 0 && jb > 0 {
            assert(key_lt(change_key(a[0]), change_key(a[ja])));
            assert(key_lt(change_key(b[0]), change_key(b[jb])));
            lemma_key_lt_trans(change_key(a[0]), change_key(b[0]), change_key(a[0]));
            lemma_key_lt_irreflexive(change_key(a[0]));
        } else if ja > 0 {
            assert(key_lt(change_key(a[0]), change_key(a[ja])));
            lemma_key_lt_irreflexive(change_key(a[0]));
        } else if jb > 0 {
            assert(key_lt(change_key(b[0]), change_key(b[jb])));
            lemma_key_lt_irreflexive(change_key(b[0]));
        }
        assert(change_key(a[0]) == change_key(b[0]));
        let a1 = a.drop_first();
        let b1 = b.drop_first();
        assert forall|k: (Seq<char>, Seq<char>)| #[trigger] has_key(a1, k) <==> has_key(b1, k) by {
            if exists|i: int| 0 <= i < a1.len() && #[trigger] change_key(a1[i]) == k {
                let i = choose|i: int| 0 <= i < a1.len() && #[trigger] change_key(a1[i]) == k;
                assert(change_key(a[i + 1]) == k);
                assert(key_lt(change_key(a[0]), k));
                assert(has_key(a, k));
                assert(has_key(b, k));
                let j = choose|j: int| 0 <= j < b.len() && #[trigger] change_key(b[j]) == k;
                if j == 0 {
                    lemma_key_lt_irreflexive(k);
                }
                assert(change_key(b1[j - 1]) == k);
            }
            if exists|i: int| 0 <= i < b1.len() && #[trigger] change_key(b1[i]) == k {
                let i = choose|i: int| 0 <= i < b1.len() && #[trigger] change_key(b1[i]) == k;
                assert(change_key(b[i + 1]) == k);
                assert(key_lt(change_key(b[0]), k));
                assert(has_key(b, k));
                assert(has_key(a, k));
                let j = choose|j: int| 0 <= j < a.len() && #[trigger] change_key(a[j]) == k;
                if j == 0 {
                    lemma_key_lt_irreflexive(k);
                }
                assert(change_key(a1[j - 1]) == k);
            }
        }
        lemma_keys_unique(a1, b1);
        assert forall|i: int| 0 <= i < a.len() implies change_key(#[trigger] a[i]) == change_key(b[i]) by {
            if i > 0 {
                assert(change_key(a1[i - 1]) == change_key(b1[i - 1]));
            }
        }
    }
}

/// Law: comparing the other way round lists the same files and rules in
/// the same order, with `was` and `now` swapped.
pub proof fn lemma_changes_swap(now: Counts, was: Counts, r1: Seq<Change>, r2: Seq<Change>)
    requires
        changes_of(now, was, r1),
        changes_of(was, now, r2),
    ensures
        r1.len() == r2.len(),
        forall|i: int| 0 <= i < r1.len() ==> change_key(#[trigger] r2[i]) == change_key(r1[i])
            && r2[i].now == r1[i].was && r2[i].was == r1[i].now,
{
    assert forall|k: (Seq<char>, Seq<char>)| #[trigger] has_key(r1, k) <==> has_key(r2, k) by {
        if exists|i: int| 0 <= i < r1.len() && #[trigger] change_key(r1[i]) == k {
            let i = choose|i: int| 0 <= i < r1.len() && #[trigger] change_key(r1[i]) == k;
            assert(was.count(k.0, k.1) != now.count(k.0, k.1));
        }
        if exists|i: int| 0 <= i < r2.len() && #[trigger] change_key(r2[i]) == k {
            let i = choose|i: int| 0 <= i < r2.len() && #[trigger] change_key(r2[i]) == k;
            assert(now.count(k.0, k.1) != was.count(k.0, k.1));
        }
    }
    lemma_keys_unique(r1, r2);
}

/// Law: counts compared with themselves show no change.
pub proof fn lemma_changes_same(c: Counts, r: Seq<Change>)
    requires
        changes_of(c, c, r),
    ensures
        r.len() == 0,
{
    if r.len() > 0 {
        let k = change_key(r[0]);
        assert(r[0].now == c.count(k.0, k.1) && r[0].was == c.count(k.0, k.1));
    }
}

/// Every file and rule whose count differs, in order, with both counts (0
/// where a side has no entry).
pub fn changes(now: &Counts, was: &Counts) -> (r: Vec<Change>)
    requires
        now.wf(),
        was.wf(),
    ensures
        changes_of(*now, *was, r@),
{
    let a = &now.entries;
    let b = &was.entries;
    let mut out: Vec<Change> = Vec::new();
    let mut i: usize = 0;
    let mut j: usize = 0;
    while i < a.len() || j < b.len()
        invariant
            strictly_sorted(a@),
            strictly_sorted(b@),
            i <= a.len(),
            j <= b.len(),
            // what is done is smaller than what is left
            forall|p: int, q: int| 0 <= p < i && j <= q < b.len() ==> key_lt(key_of(#[trigger] a@[p]), key_of(#[trigger] b@[q])),
            forall|p: int, q: int| 0 <= q < j && i <= p < a.len() ==> key_lt(key_of(#[trigger] b@[q]), key_of(#[trigger] a@[p])),
            forall|x: int, p: int| 0 <= x < out.len() && i <= p < a.len() ==> key_lt(change_key(#[trigger] out@[x]), key_of(#[trigger] a@[p])),
            forall|x: int, q: int| 0 <= x < out.len() && j <= q < b.len() ==> key_lt(change_key(#[trigger] out@[x]), key_of(#[trigger] b@[q])),
            forall|x: int, y: int| 0 <= x < y < out.len() ==> key_lt(change_key(#[trigger] out@[x]), change_key(#[trigger] out@[y])),
            forall|x: int| 0 <= x < out.len() ==> {
                let k = change_key(#[trigger] out@[x]);
                out@[x].now == count_in(a@, k) && out@[x].was == count_in(b@, k) && out@[x].now != out@[x].was
            },
            // every differing key among the done entries is out
            forall|p: int| 0 <= p < i && count_in(a@, key_of(#[trigger] a@[p])) != count_in(b@, key_of(a@[p]))
                ==> exists|x: int| 0 <= x < out.len() && change_key(out@[x]) == key_of(a@[p]),
            forall|q: int| 0 <= q < j && count_in(a@, key_of(#[trigger] b@[q])) != count_in(b@, key_of(b@[q]))
                ==> exists|x: int| 0 <= x < out.len() && change_key(out@[x]) == key_of(b@[q]),
        decreases a.len() + b.len() - i - j,
    {
        let ghost old_out = out@;
        let ghost oi = i as int;
        let ghost oj = j as int;
        let take_a: bool;
        let take_b: bool;
        if i < a.len() && j < b.len() {
            let by_file = compare_str(a[i].0.as_str(), b[j].0.as_str());
            let by_rule = compare_str(a[i].1.as_str(), b[j].1.as_str());
            proof {
                lemma_seq_order_basics(a@[oi].0@, b@[oj].0@);
                lemma_seq_order_basics(a@[oi].1@, b@[oj].1@);
            }
            if by_file == 0 && by_rule == 0 {
                take_a = true;
                take_b = true;
            } else if by_file < 0 || (by_file == 0 && by_rule < 0) {
                take_a = true;
                take_b = false;
            } else {
                take_a = false;
                take_b = true;
            }
        } else if i < a.len() {
            take_a = true;
            take_b = false;
        } else {
            take_a = false;
            take_b = true;
        }
        proof {
            if take_a {
                lemma_count_at(a@, oi);
            }
            if take_b {
                lemma_count_at(b@, oj);
            }
        }
        let (file, rule, n, w) = if take_a && take_b {
            (a[i].0.clone(), a[i].1.clone(), a[i].2, b[j].2)
        } else if take_a {
            (a[i].0.clone(), a[i].1.clone(), a[i].2, 0)
        } else {
            (b[j].0.clone(), b[j].1.clone(), 0, b[j].2)
        };
        let ghost k = (file@, rule@);
        proof {
            // the key taken is the smallest left, and sits nowhere else
            if take_a && !take_b {
                assert forall|q: int| 0 <= q < b.len() implies key_of(#[trigger] b@[q]) != k by {
                    if q < oj {
                        assert(key_lt(key_of(b@[q]), key_of(a@[oi])));
                    } else {
                        if q > oj {
                            lemma_key_lt_trans(k, key_of(b@[oj]), key_of(b@[q]));
                        }
                    }
                    lemma_key_total(key_of(b@[q]), k);
                }
            }
            if take_b && !take_a {
                assert forall|p: int| 0 <= p < a.len() implies key_of(#[trigger] a@[p]) != k by {
                    if p < oi {
                        assert(key_lt(key_of(a@[p]), key_of(b@[oj])));
                    } else {
                        if p > oi {
                            lemma_key_lt_trans(k, key_of(a@[oi]), key_of(a@[p]));
                        }
                    }
                    lemma_key_total(key_of(a@[p]), k);
                }
            }
            assert(n as nat == count_in(a@, k));
            assert(w as nat == count_in(b@, k));
        }
        if n != w {
            out.push(Change { file, rule, was: w, now: n });
        }
        if take_a {
            i = i + 1;
        }
        if take_b {
            j = j + 1;
        }
        proof {
            lemma_merge_step(a@, b@, old_out, out@, oi, oj, i as int, j as int, k);
        }
    }
    proof {
        assert forall|f: Seq<char>, u: Seq<char>| count_in(a@, (f, u)) != count_in(b@, (f, u))
            implies exists|x: int| 0 <= x < out.len() && #[trigger] change_key(out@[x]) == (f, u) by {
            if exists|p: int| 0 <= p < a.len() && key_of(a@[p]) == (f, u) {
                let p = choose|p: int| 0 <= p < a.len() && key_of(a@[p]) == (f, u);
                assert(count_in(a@, key_of(a@[p])) != count_in(b@, key_of(a@[p])));
            } else if exists|q: int| 0 <= q < b.len() && key_of(b@[q]) == (f, u) {
                let q = choose|q: int| 0 <= q < b.len() && key_of(b@[q]) == (f, u);
                assert(count_in(a@, key_of(b@[q])) != count_in(b@, key_of(b@[q])));
            }
        }
    }
    out
}

/// One step of the merge in `changes` keeps its invariant.
proof fn lemma_merge_step(
    a: Seq<(String, String, u64)>,
    b: Seq<(String, String, u64)>,
    old_out: Seq<Change>,
    out: Seq<Change>,
    oi: int,
    oj: int,
    i: int,
    j: int,
    k: (Seq<char>, Seq<char>),
)
    requires
        strictly_sorted(a),
        strictly_sorted(b),
        0 <= oi <= i <= a.len(),
        0 <= oj <= j <= b.len(),
        oi <= i <= oi + 1,
        oj <= j <= oj + 1,
        i + j > oi + oj,
        i == oi + 1 ==> key_of(a[oi]) == k,
        j == oj + 1 ==> key_of(b[oj]) == k,
        i == oi ==> (oi < a.len() ==> key_lt(k, key_of(a[oi]))),
        j == oj ==> (oj < b.len() ==> key_lt(k, key_of(b[oj]))),
        forall|p: int, q: int| 0 <= p < oi && oj <= q < b.len() ==> key_lt(key_of(#[trigger] a[p]), key_of(#[trigger] b[q])),
        forall|p: int, q: int| 0 <= q < oj && oi <= p < a.len() ==> key_lt(key_of(#[trigger] b[q]), key_of(#[trigger] a[p])),
        forall|x: int, p: int| 0 <= x < old_out.len() && oi <= p < a.len() ==> key_lt(change_key(#[trigger] old_out[x]), key_of(#[trigger] a[p])),
        forall|x: int, q: int| 0 <= x < old_out.len() && oj <= q < b.len() ==> key_lt(change_key(#[trigger] old_out[x]), key_of(#[trigger] b[q])),
        forall|x: int, y: int| 0 <= x < y < old_out.len() ==> key_lt(change_key(#[trigger] old_out[x]), change_key(#[trigger] old_out[y])),
        forall|x: int| 0 <= x < old_out.len() ==> {
            let kk = change_key(#[trigger] old_out[x]);
            old_out[x].now == count_in(a, kk) && old_out[x].was == count_in(b, kk) && old_out[x].now != old_out[x].was
        },
        forall|p: int| 0 <= p < oi && count_in(a, key_of(#[trigger] a[p])) != count_in(b, key_of(a[p]))
            ==> exists|x: int| 0 <= x < old_out.len() && change_key(old_out[x]) == key_of(a[p]),
        forall|q: int| 0 <= q < oj && count_in(a, key_of(#[trigger] b[q])) != count_in(b, key_of(b[q]))
            ==> exists|x: int| 0 <= x < old_out.len() && change_key(old_out[x]) == key_of(b[q]),
        count_in(a, k) != count_in(b, k) ==> out == old_out.push(Change {
            file: out.last().file,
            rule: out.last().rule,
            was: count_in(b, k) as u64,
            now: count_in(a, k) as u64,
        }) && change_key(out.last()) == k,
        count_in(a, k) == count_in(b, k) ==> out == old_out,
    ensures
        forall|p: int, q: int| 0 <= p < i && j <= q < b.len() ==> key_lt(key_of(#[trigger] a[p]), key_of(#[trigger] b[q])),
        forall|p: int, q: int| 0 <= q < j && i <= p < a.len() ==> key_lt(key_of(#[trigger] b[q]), key_of(#[trigger] a[p])),
        forall|x: int, p: int| 0 <= x < out.len() && i <= p < a.len() ==> key_lt(change_key(#[trigger] out[x]), key_of(#[trigger] a[p])),
        forall|x: int, q: int| 0 <= x < out.len() && j <= q < b.len() ==> key_lt(change_key(#[trigger] out[x]), key_of(#[trigger] b[q])),
        forall|x: int, y: int| 0 <= x < y < out.len() ==> key_lt(change_key(#[trigger] out[x]), change_key(#[trigger] out[y])),
        forall|x: int| 0 <= x < out.len() ==> {
            let kk = change_key(#[trigger] out[x]);
            out[x].now == count_in(a, kk) && out[x].was == count_in(b, kk) && out[x].now != out[x].was
        },
        forall|p: int| 0 <= p < i && count_in(a, key_of(#[trigger] a[p])) != count_in(b, key_of(a[p]))
            ==> exists|x: int| 0 <= x < out.len() && change_key(out[x]) == key_of(a[p]),
        forall|q: int| 0 <= q < j && count_in(a, key_of(#[trigger] b[q])) != count_in(b, key_of(b[q]))
            ==> exists|x: int| 0 <= x < out.len() && change_key(out[x]) == key_of(b[q]),
{
    // everything left is larger than k
    assert forall|p: int| i <= p < a.len() implies key_lt(k, key_of(#[trigger] a[p])) by {
        if i == oi + 1 {
            assert(key_lt(key_of(a[oi]), key_of(a[p])));
        } else if p > oi {
            lemma_key_lt_trans(k, key_of(a[oi]), key_of(a[p]));
        }
    }
    assert forall|q: int| j <= q < b.len() implies key_lt(k, key_of(#[trigger] b[q])) by {
        if j == oj + 1 {
            assert(key_lt(key_of(b[oj]), key_of(b[q])));
        } else if q > oj {
            lemma_key_lt_trans(k, key_of(b[oj]), key_of(b[q]));
        }
    }
    assert forall|p: int, q: int| 0 <= p < i && j <= q < b.len() implies key_lt(key_of(#[trigger] a[p]), key_of(#[trigger] b[q])) by {
        if p == oi {
            assert(key_lt(k, key_of(b[q])));
        }
    }
    assert forall|p: int, q: int| 0 <= q < j && i <= p < a.len() implies key_lt(key_of(#[trigger] b[q]), key_of(#[trigger] a[p])) by {
        if q == oj {
            assert(key_lt(k, key_of(a[p])));
        }
    }
    assert forall|x: int, p: int| 0 <= x < out.len() && i <= p < a.len() implies key_lt(change_key(#[trigger] out[x]), key_of(#[trigger] a[p])) by {
        if x < old_out.len() {
            assert(out[x] == old_out[x]);
            if i == oi + 1 {
                assert(key_lt(change_key(old_out[x]), key_of(a[oi])));
                lemma_key_lt_trans(change_key(old_out[x]), key_of(a[oi]), key_of(a[p]));
            }
        } else {
            assert(key_lt(k, key_of(a[p])));
        }
    }
    assert forall|x: int, q: int| 0 <= x < out.len() && j <= q < b.len() implies key_lt(change_key(#[trigger] out[x]), key_of(#[trigger] b[q])) by {
        if x < old_out.len() {
            assert(out[x] == old_out[x]);
            if j == oj + 1 {
                assert(key_lt(change_key(old_out[x]), key_of(b[oj])));
                lemma_key_lt_trans(change_key(old_out[x]), key_of(b[oj]), key_of(b[q]));
            }
        } else {
            assert(key_lt(k, key_of(b[q])));
        }
    }
    // k is larger than everything already out
    assert forall|x: int| 0 <= x < old_out.len() implies key_lt(change_key(#[trigger] old_out[x]), k) by {
        if i == oi + 1 {
            assert(key_lt(change_key(old_out[x]), key_of(a[oi])));
        } else {
            assert(key_lt(change_key(old_out[x]), key_of(b[oj])));
        }
    }
    assert forall|x: int, y: int| 0 <= x < y < out.len() implies key_lt(change_key(#[trigger] out[x]), change_key(#[trigger] out[y])) by {
        if y < old_out.len() {
            assert(out[x] == old_out[x] && out[y] == old_out[y]);
        } else {
            assert(out[x] == old_out[x]);
        }
    }
    assert forall|x: int| 0 <= x < out.len() implies {
        let kk = change_key(#[trigger] out[x]);
        out[x].now == count_in(a, kk) && out[x].was == count_in(b, kk) && out[x].now != out[x].was
    } by {
        if x < old_out.len() {
            assert(out[x] == old_out[x]);
        }
    }
    assert forall|p: int| 0 <= p < i && count_in(a, key_of(#[trigger] a[p])) != count_in(b, key_of(a[p]))
        implies exists|x: int| 0 <= x < out.len() && change_key(out[x]) == key_of(a[p]) by {
        if p < oi {
            let x = choose|x: int| 0 <= x < old_out.len() && change_key(old_out[x]) == key_of(a[p]);
            assert(out[x] == old_out[x]);
        } else {
            assert(change_key(out[out.len() - 1]) == k);
        }
    }
    assert forall|q: int| 0 <= q < j && count_in(a, key_of(#[trigger] b[q])) != count_in(b, key_of(b[q]))
        implies exists|x: int| 0 <= x < out.len() && change_key(out[x]) == key_of(b[q]) by {
        if q < oj {
            let x = choose|x: int| 0 <= x < old_out.len() && change_key(old_out[x]) == key_of(b[q]);
            assert(out[x] == old_out[x]);
        } else {
            assert(change_key(out[out.len() - 1]) == k);
        }
    }
}

} // verus!
