//! The dataset: one row per run attempt, with its failed jobs. Reading and
//! appending the file is the application's.
use vstd::prelude::*;

use crate::matcher::{regex_replace_all, regex_replace_first};
use crate::replay::extract::{clean_spec, Extractor};
use crate::text::{chars_of, ends_with_lit, find_char, find_from, find_sub, lines, lines_of, same_str, string_range, trim_end, trim_white_end};

verus! {

#[derive(Debug, Clone, PartialEq, Eq)]
pub struct Row {
    pub repo: String,
    pub run_id: u64,
    pub attempt: u32,
    pub event: String,
    pub workflow: String,
    pub pr: Option<u64>,
    pub head_sha: String,
    pub base_sha: Option<String>,
    pub created_at: String,
    pub conclusion: String,
    pub jobs: Vec<Job>,
}

#[derive(Debug, Clone, PartialEq, Eq)]
pub struct Job {
    pub name: String,
    pub conclusion: String,
    pub failed_steps: Vec<String>,
    pub annotations: Vec<Annotation>,
    pub annotations_capped: bool,
    pub log: Vec<String>,
}

#[derive(Debug, Clone, PartialEq, Eq)]
pub struct Annotation {
    pub path: String,
    pub title: String,
}

impl Job {
    pub open spec fn is_failed(&self) -> bool {
        self.conclusion@ == "failure"@
    }

    pub fn failed(&self) -> (r: bool)
        ensures
            r == self.is_failed(),
    {
        same_str(self.conclusion.as_str(), "failure")
    }
}

} // verus!

verus! {

/// How many lines after a failure line the excerpt keeps.
pub const AFTER: usize = 2;
/// The most lines an excerpt keeps.
pub const CAP: usize = 400;

/// A line that reports a failure: `FAIL`, `●` or `(fail)`.
pub open spec fn failure_line(l: Seq<char>) -> bool {
    find_sub(l, "FAIL"@) is Some || l.contains('●') || find_sub(l, "(fail)"@) is Some
}

/// Line `i` is kept: it is a failure line or one of the `AFTER` lines
/// after one, or, cleaned, it ends a summary with `failed:`.
pub open spec fn kept_line(e: Extractor, ls: Seq<Seq<char>>, i: int) -> bool {
    ||| exists|j: int| i - AFTER <= j <= i && 0 <= j && #[trigger] failure_line(ls[j])
    ||| "failed:"@.is_suffix_of(trim_end(clean_spec(e, ls[i])))
}

/// The kept lines among the first `n`, without their trailing white space.
pub open spec fn excerpt_upto(e: Extractor, ls: Seq<Seq<char>>, n: int) -> Seq<Seq<char>>
    decreases n,
{
    if n <= 0 {
        Seq::empty()
    } else {
        let rest = excerpt_upto(e, ls, n - 1);
        if kept_line(e, ls, n - 1) {
            rest.push(trim_end(ls[n - 1]))
        } else {
            rest
        }
    }
}

proof fn lemma_capped_push(s: Seq<Seq<char>>, x: Seq<char>)
    ensures
        capped(s).len() == if s.len() <= CAP { s.len() } else { CAP as nat },
        capped(s.push(x)) == if s.len() < CAP { capped(s).push(x) } else { capped(s) },
{
    if s.len() >= CAP {
        assert(s.push(x).take(CAP as int) =~= s.take(CAP as int));
    } else {
        assert(capped(s) == s);
    }
}

/// At most `CAP` of them.
pub open spec fn capped(s: Seq<Seq<char>>) -> Seq<Seq<char>> {
    if s.len() <= CAP { s } else { s.take(CAP as int) }
}

fn has_lit(v: &Vec<char>, lit: &str) -> (r: bool)
    ensures
        r == (find_sub(v@, lit@) is Some),
{
    let n = chars_of(lit);
    proof {
        assert(v@.skip(0) =~= v@);
    }
    find_from(v, &n, 0).is_some()
}

fn is_failure_line(l: &str) -> (r: bool)
    ensures
        r == failure_line(l@),
{
    let v = chars_of(l);
    let bullet = find_char(&v, '●');
    proof {
        crate::text::lemma_first_index(v@, '●');
        if let Some(k) = bullet {
            assert(v@[k as int] == '●');
        }
    }
    has_lit(&v, "FAIL") || bullet.is_some() || has_lit(&v, "(fail)")
}

fn trim_end_string(s: &str) -> (r: String)
    ensures
        r@ == trim_end(s@),
{
    let v = chars_of(s);
    let stop = trim_white_end(&v, v.len());
    proof {
        assert(v@.take(v.len() as int) =~= v@);
    }
    string_range(&v, 0, stop)
}

fn is_summary(e: &Extractor, line: &str) -> (r: bool)
    ensures
        r == "failed:"@.is_suffix_of(trim_end(clean_spec(*e, line@))),
{
    let cleaned = regex_replace_first(&e.stamp, regex_replace_all(&e.ansi, line).as_str());
    let head = trim_end_string(cleaned.as_str());
    ends_with_lit(&chars_of(head.as_str()), "failed:")
}

/// The log lines worth keeping for extraction: each failure line and the
/// `AFTER` lines after it, and a summary line ending in `failed:`, without
/// trailing white space and at most `CAP` of them; `e` gives how a line is
/// cleaned of colour codes and a timestamp.
#[verifier::rlimit(60)]
pub fn log_excerpt(e: &Extractor, log: &str) -> (r: Vec<String>)
    ensures
        r@.map_values(|l: String| l@) == capped(excerpt_upto(*e, lines_of(log@), lines_of(log@).len() as int)),
{
    let ls = lines(log);
    let ghost lv = ls@.map_values(|l: String| l@);
    let mut marks: Vec<bool> = Vec::new();
    let mut out: Vec<String> = Vec::new();
    let mut i: usize = 0;
    while i < ls.len()
        invariant
            i <= ls.len(),
            lv == ls@.map_values(|l: String| l@),
            lv == lines_of(log@),
            marks.len() == i,
            forall|k: int| 0 <= k < i ==> #[trigger] marks@[k] == failure_line(lv[k]),
            out@.map_values(|l: String| l@) == capped(excerpt_upto(*e, lv, i as int)),
        decreases ls.len() - i,
    {
        proof {
            assert(lv[i as int] == ls@[i as int]@);
        }
        let here = is_failure_line(ls[i].as_str());
        marks.push(here);
        let near = here || (i >= 1 && marks[i - 1]) || (i >= 2 && marks[i - 2]);
        let summary = is_summary(e, ls[i].as_str());
        proof {
            if near {
                if here {
                    assert(failure_line(lv[i as int]));
                } else if i >= 1 && marks@[i - 1] {
                    assert(failure_line(lv[i - 1]));
                } else {
                    assert(failure_line(lv[i - 2]));
                }
            } else {
                assert forall|j: int| i - AFTER <= j <= i && 0 <= j implies !#[trigger] failure_line(lv[j]) by {
                    assert(marks@[j] == failure_line(lv[j]));
                }
            }
        }
        let ghost before = excerpt_upto(*e, lv, i as int);
        let ghost o = out@.map_values(|l: String| l@);
        proof {
            assert(kept_line(*e, lv, i as int) == (near || summary));
            lemma_capped_push(before, trim_end(lv[i as int]));
        }
        if (near || summary) && out.len() < CAP {
            out.push(trim_end_string(ls[i].as_str()));
            proof {
                assert(out@.map_values(|l: String| l@) =~= o.push(trim_end(lv[i as int])));
            }
        }
        i = i + 1;
    }
    out
}

/// Each row once, by run and attempt, leaving out those `existing` holds:
/// the indices of the rows to append, in order.
pub open spec fn fresh_upto(existing: Seq<(u64, u32)>, rows: Seq<Row>, n: int) -> Seq<int>
    decreases n,
{
    if n <= 0 {
        Seq::empty()
    } else {
        let rest = fresh_upto(existing, rows, n - 1);
        let key = (rows[n - 1].run_id, rows[n - 1].attempt);
        if existing.contains(key) || exists|k: int| 0 <= k < n - 1 && (#[trigger] rows[k]).run_id == key.0 && rows[k].attempt == key.1 {
            rest
        } else {
            rest.push(n - 1)
        }
    }
}

fn holds_key(v: &Vec<(u64, u32)>, key: (u64, u32)) -> (r: bool)
    ensures
        r == v@.contains(key),
{
    let mut i: usize = 0;
    while i < v.len()
        invariant
            i <= v.len(),
            forall|k: int| 0 <= k < i ==> v@[k] != key,
        decreases v.len() - i,
    {
        if v[i].0 == key.0 && v[i].1 == key.1 {
            proof {
                assert(v@[i as int] == key);
            }
            return true;
        }
        i = i + 1;
    }
    false
}

/// The rows an append writes: those not already present by run and
/// attempt, each once, in order.
pub fn fresh_rows(existing: &[(u64, u32)], rows: &[Row]) -> (r: Vec<usize>)
    ensures
        r@.map_values(|i: usize| i as int) == fresh_upto(existing@, rows@, rows.len() as int),
{
    let mut known: Vec<(u64, u32)> = Vec::new();
    let mut k: usize = 0;
    while k < existing.len()
        invariant
            k <= existing.len(),
            known@ == existing@.take(k as int),
        decreases existing.len() - k,
    {
        known.push(existing[k]);
        proof {
            assert(existing@.take(k as int + 1) =~= existing@.take(k as int).push(existing@[k as int]));
        }
        k = k + 1;
    }
    proof {
        assert(existing@.take(k as int) =~= existing@);
    }
    let mut out: Vec<usize> = Vec::new();
    let mut i: usize = 0;
    while i < rows.len()
        invariant
            i <= rows.len(),
            known@.len() == existing@.len() + i,
            forall|q: (u64, u32)| #[trigger] known@.contains(q) <==> (existing@.contains(q) || exists|k: int| 0 <= k < i && (#[trigger] rows@[k]).run_id == q.0 && rows@[k].attempt == q.1),
            out@.map_values(|x: usize| x as int) == fresh_upto(existing@, rows@, i as int),
        decreases rows.len() - i,
    {
        let key = (rows[i].run_id, rows[i].attempt);
        let there = holds_key(&known, key);
        let ghost o = out@.map_values(|x: usize| x as int);
        let ghost kn = known@;
        if !there {
            out.push(i);
            proof {
                assert(out@.map_values(|x: usize| x as int) =~= o.push(i as int));
            }
        }
        known.push(key);
        proof {
            assert forall|q: (u64, u32)| #[trigger] known@.contains(q) <==> (existing@.contains(q) || exists|k: int| 0 <= k < i + 1 && (#[trigger] rows@[k]).run_id == q.0 && rows@[k].attempt == q.1) by {
                if known@.contains(q) {
                    let w = choose|w: int| 0 <= w < known@.len() && known@[w] == q;
                    if w < kn.len() {
                        assert(kn.contains(q));
                        if !existing@.contains(q) {
                            let k = choose|k: int| 0 <= k < i && (#[trigger] rows@[k]).run_id == q.0 && rows@[k].attempt == q.1;
                            assert(0 <= k < i + 1);
                        }
                    } else {
                        assert(rows@[i as int].run_id == q.0 && rows@[i as int].attempt == q.1);
                    }
                }
                if existing@.contains(q) || exists|k: int| 0 <= k < i + 1 && (#[trigger] rows@[k]).run_id == q.0 && rows@[k].attempt == q.1 {
                    if existing@.contains(q) {
                        assert(kn.contains(q));
                        let w = choose|w: int| 0 <= w < kn.len() && kn[w] == q;
                        assert(known@[w] == q);
                    } else {
                        let k = choose|k: int| 0 <= k < i + 1 && (#[trigger] rows@[k]).run_id == q.0 && rows@[k].attempt == q.1;
                        if k < i {
                            assert(kn.contains(q));
                            let w = choose|w: int| 0 <= w < kn.len() && kn[w] == q;
                            assert(known@[w] == q);
                        } else {
                            assert(known@[kn.len() as int] == q);
                        }
                    }
                }
            }
            let key_v = (rows@[i as int].run_id, rows@[i as int].attempt);
            assert(there == (existing@.contains(key_v) || exists|k: int| 0 <= k < i && (#[trigger] rows@[k]).run_id == key_v.0 && rows@[k].attempt == key_v.1));
        }
        i = i + 1;
    }
    out
}

} // verus!
