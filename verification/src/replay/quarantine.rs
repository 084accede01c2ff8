//! Tests declared flaky in named CI jobs. Every failure is still planned and
//! judged; an entry that applies turns its hits, misses and unconfirmed
//! failures into `Quarantined`, keeping what each would have been. An entry
//! applies only until its date and only while the dataset bears it out: the
//! test failed in enough distinct pull requests, and never in another job.
use vstd::prelude::*;

use crate::config::Quarantine;
use crate::matcher::{regex_finds, Matcher};
use crate::replay::run::{Failure, Outcome, Target};
use crate::strset::{insert_str, str_set, str_sorted};
use crate::text::{compare_str, same_str, seq_order};

verus! {

/// Distinct pull requests an entry's failures must span before it applies.
pub const MIN_PULLS: usize = 3;

#[derive(Debug, Clone, Copy, PartialEq, Eq, Structural)]
pub enum Status {
    /// Applied, and absorbed at least one failure.
    Active,
    /// Its `until` is before the end of the window, so it doesn't apply.
    Expired,
    /// Too few pull requests, or the test also failed in another job.
    Unverified,
    /// The test didn't fail in the window, or only in ways it doesn't absorb.
    Stale,
}

pub open spec fn status_name(s: Status) -> Seq<char> {
    match s {
        Status::Active => "active"@,
        Status::Expired => "expired"@,
        Status::Unverified => "unverified"@,
        Status::Stale => "stale"@,
    }
}

impl Status {
    /// The name the JSON report uses.
    pub fn name(self) -> (r: &'static str)
        ensures
            r@ == status_name(self),
    {
        match self {
            Status::Active => "active",
            Status::Expired => "expired",
            Status::Unverified => "unverified",
            Status::Stale => "stale",
        }
    }
}

/// What one entry did in a replay.
#[derive(Debug, Clone)]
pub struct Entry {
    pub path: String,
    pub job: String,
    pub reason: String,
    pub until: String,
    pub status: Status,
    /// Distinct pull requests among the test's failures in the window.
    pub pulls: usize,
    /// Jobs the test failed in that the entry doesn't name.
    pub other_jobs: Vec<String>,
    /// Jobs the absorbed failures ran in, which shows how far the regex reaches.
    pub jobs: Vec<String>,
    pub absorbed: usize,
    pub would_hit: usize,
    pub would_miss: usize,
    pub would_unconfirmed: usize,
}

/// The failure is of the test at `path`.
pub open spec fn of_test(f: Failure, path: Seq<char>) -> bool {
    f.target matches Target::Test(p) && p@ == path
}

/// What an entry turns into `Quarantined`.
pub open spec fn absorbable(o: Outcome) -> bool {
    o == Outcome::Hit || o == Outcome::Miss || o == Outcome::Unconfirmed
}

/// The entry for `path` in the jobs `job` matches would absorb `f`.
pub open spec fn absorbs(f: Failure, path: Seq<char>, job: Seq<char>) -> bool {
    of_test(f, path) && regex_finds(job, f.job@) && absorbable(f.outcome)
}

/// How many of `fs` the entry would absorb, of those judged `o`.
pub open spec fn absorbed_as(fs: Seq<Failure>, path: Seq<char>, job: Seq<char>, o: Outcome) -> nat
    decreases fs.len(),
{
    if fs.len() == 0 {
        0
    } else {
        absorbed_as(fs.drop_last(), path, job, o)
            + if absorbs(fs.last(), path, job) && fs.last().outcome == o { 1nat } else { 0nat }
    }
}

/// How many of `fs` the entry would absorb.
pub open spec fn absorbed_count(fs: Seq<Failure>, path: Seq<char>, job: Seq<char>) -> nat {
    absorbed_as(fs, path, job, Outcome::Hit) + absorbed_as(fs, path, job, Outcome::Miss)
        + absorbed_as(fs, path, job, Outcome::Unconfirmed)
}

/// The pull requests the test failed in.
pub open spec fn pulls_of(fs: Seq<Failure>, path: Seq<char>) -> Set<u64> {
    Set::new(|pr: u64| exists|i: int| 0 <= i < fs.len() && of_test(#[trigger] fs[i], path) && fs[i].pr == Some(pr))
}

/// The jobs the test failed in that `job` doesn't match.
pub open spec fn other_jobs_of(fs: Seq<Failure>, path: Seq<char>, job: Seq<char>) -> Set<Seq<char>> {
    Set::new(|j: Seq<char>| exists|i: int| 0 <= i < fs.len() && of_test(#[trigger] fs[i], path)
        && !regex_finds(job, fs[i].job@) && fs[i].job@ == j)
}

/// The jobs of the failures the entry would absorb.
pub open spec fn absorbed_jobs(fs: Seq<Failure>, path: Seq<char>, job: Seq<char>) -> Set<Seq<char>> {
    Set::new(|j: Seq<char>| exists|i: int| 0 <= i < fs.len() && absorbs(#[trigger] fs[i], path, job) && fs[i].job@ == j)
}

/// The status an entry's evidence gives it, before absorbing anything.
pub open spec fn evidence(q: Quarantine, fs: Seq<Failure>, until: Seq<char>) -> Status {
    if seq_order(q.until@, until) < 0 {
        Status::Expired
    } else if !(exists|i: int| 0 <= i < fs.len() && of_test(#[trigger] fs[i], q.path@)) {
        Status::Stale
    } else if pulls_of(fs, q.path@).len() < MIN_PULLS || other_jobs_of(fs, q.path@, q.job@).len() > 0 {
        Status::Unverified
    } else {
        Status::Active
    }
}

/// The status an entry ends with.
pub open spec fn status_of(q: Quarantine, fs: Seq<Failure>, until: Seq<char>) -> Status {
    if evidence(q, fs, until) == Status::Active && absorbed_count(fs, q.path@, q.job@) == 0 {
        Status::Stale
    } else {
        evidence(q, fs, until)
    }
}

/// `f` absorbed: quarantined, keeping what it was judged.
pub open spec fn quarantined(f: Failure) -> Failure {
    Failure { judged: Some(f.outcome), outcome: Outcome::Quarantined, ..f }
}

/// The failures after the entry for `q` applies, judged against `until`.
pub open spec fn after_entry(q: Quarantine, fs: Seq<Failure>, until: Seq<char>) -> Seq<Failure> {
    if evidence(q, fs, until) == Status::Active {
        fs.map_values(|f: Failure| if absorbs(f, q.path@, q.job@) { quarantined(f) } else { f })
    } else {
        fs
    }
}

/// `e` is what the entry for `q` reports, for the failures as they stood.
pub open spec fn entry_matches(e: Entry, q: Quarantine, fs: Seq<Failure>, until: Seq<char>) -> bool {
    let active = evidence(q, fs, until) == Status::Active;
    &&& e.path == q.path && e.job == q.job && e.reason == q.reason && e.until == q.until
    &&& e.status == status_of(q, fs, until)
    &&& e.pulls == pulls_of(fs, q.path@).len()
    &&& str_sorted(e.other_jobs@) && str_set(e.other_jobs@) == other_jobs_of(fs, q.path@, q.job@)
    &&& str_sorted(e.jobs@)
    &&& str_set(e.jobs@) == if active { absorbed_jobs(fs, q.path@, q.job@) } else { Set::empty() }
    &&& e.would_hit == if active { absorbed_as(fs, q.path@, q.job@, Outcome::Hit) } else { 0 }
    &&& e.would_miss == if active { absorbed_as(fs, q.path@, q.job@, Outcome::Miss) } else { 0 }
    &&& e.would_unconfirmed == if active { absorbed_as(fs, q.path@, q.job@, Outcome::Unconfirmed) } else { 0 }
    &&& e.absorbed == if active { absorbed_count(fs, q.path@, q.job@) } else { 0 }
}

/// The failures after the first `k` entries applied, in order.
pub open spec fn after_entries(qs: Seq<Quarantine>, fs: Seq<Failure>, until: Seq<char>, k: int) -> Seq<Failure>
    decreases k,
{
    if k <= 0 {
        fs
    } else {
        after_entry(qs[k - 1], after_entries(qs, fs, until, k - 1), until)
    }
}

/// Applies each entry to `failures`, in order, judged against the window
/// ending `until`, and reports what each did. Each entry's job regex is the
/// matcher beside it, compiled from its `job`.
pub fn apply(entries: &[(Quarantine, Matcher)], failures: &mut Vec<Failure>, until: &str) -> (r: Vec<Entry>)
    requires
        forall|k: int| 0 <= k < entries@.len() ==> (#[trigger] entries@[k]).1.source() == entries@[k].0.job@,
    ensures
        r.len() == entries@.len(),
        forall|k: int| 0 <= k < entries@.len() ==> entry_matches(#[trigger] r@[k], entries@[k].0,
            after_entries(entries@.map_values(|e: (Quarantine, Matcher)| e.0), old(failures)@, until@, k), until@),
        final(failures)@ == after_entries(entries@.map_values(|e: (Quarantine, Matcher)| e.0), old(failures)@, until@, entries@.len() as int),
{
    let ghost qs = entries@.map_values(|e: (Quarantine, Matcher)| e.0);
    let mut out: Vec<Entry> = Vec::new();
    let mut k: usize = 0;
    while k < entries.len()
        invariant
            k <= entries.len(),
            qs == entries@.map_values(|e: (Quarantine, Matcher)| e.0),
            forall|k: int| 0 <= k < entries@.len() ==> (#[trigger] entries@[k]).1.source() == entries@[k].0.job@,
            out.len() == k,
            forall|j: int| 0 <= j < k ==> entry_matches(#[trigger] out@[j], entries@[j].0,
                after_entries(qs, old(failures)@, until@, j), until@),
            failures@ == after_entries(qs, old(failures)@, until@, k as int),
        decreases entries.len() - k,
    {
        let e = apply_one(&entries[k].0, &entries[k].1, failures, until);
        proof {
            assert(qs[k as int] == entries@[k as int].0);
        }
        out.push(e);
        k = k + 1;
    }
    out
}

/// Whether the failure is of the test at `path`.
fn is_of_test(f: &Failure, path: &str) -> (r: bool)
    ensures
        r == of_test(*f, path@),
{
    match &f.target {
        Target::Test(p) => same_str(p.as_str(), path),
        _ => false,
    }
}

fn contains_u64(v: &Vec<u64>, x: u64) -> (r: bool)
    ensures
        r == v@.contains(x),
{
    let mut i: usize = 0;
    while i < v.len()
        invariant
            i <= v.len(),
            forall|j: int| 0 <= j < i ==> v@[j] != x,
        decreases v.len() - i,
    {
        if v[i] == x {
            return true;
        }
        i = i + 1;
    }
    false
}

/// What the entry for `q` does to `failures`, and its report.
fn apply_one(q: &Quarantine, job: &Matcher, failures: &mut Vec<Failure>, until: &str) -> (e: Entry)
    requires
        job.source() == q.job@,
    ensures
        entry_matches(e, *q, old(failures)@, until@),
        final(failures)@ == after_entry(*q, old(failures)@, until@),
{
    let ghost fs = failures@;
    let ghost path = q.path@;
    let ghost jsrc = q.job@;
    // the evidence: pull requests, other jobs, whether the test failed at all
    let mut pulls: Vec<u64> = Vec::new();
    let mut other_jobs: Vec<String> = Vec::new();
    let mut any = false;
    let mut i: usize = 0;
    while i < failures.len()
        invariant
            failures@ == fs,
            job.source() == jsrc,
            path == q.path@,
            jsrc == q.job@,
            i <= fs.len(),
            pulls@.no_duplicates(),
            pulls@.to_set() == pulls_of(fs.take(i as int), path),
            str_sorted(other_jobs@),
            str_set(other_jobs@) == other_jobs_of(fs.take(i as int), path, jsrc),
            any == exists|j: int| 0 <= j < i && of_test(#[trigger] fs[j], path),
        decreases fs.len() - i,
    {
        let f = &failures[i];
        let ghost before_pulls = pulls@;
        let ghost before_jobs = other_jobs@;
        proof {
            assert(fs.take(i as int + 1) =~= fs.take(i as int).push(fs[i as int]));
        }
        if is_of_test(f, q.path.as_str()) {
            any = true;
            if let Some(pr) = f.pr {
                if !contains_u64(&pulls, pr) {
                    pulls.push(pr);
                }
            }
            if !job.is_match(f.job.as_str()) {
                insert_str(&mut other_jobs, f.job.clone());
            }
        }
        proof {
            let t0 = fs.take(i as int);
            let t1 = fs.take(i as int + 1);
            assert forall|pr: u64| pulls@.to_set().contains(pr) <==> pulls_of(t1, path).contains(pr) by {
                if pulls_of(t1, path).contains(pr) {
                    let j = choose|j: int| 0 <= j < t1.len() && of_test(#[trigger] t1[j], path) && t1[j].pr == Some(pr);
                    if j < i {
                        assert(t0[j] == t1[j]);
                        assert(pulls_of(t0, path).contains(pr));
                        assert(before_pulls.to_set().contains(pr));
                        assert(before_pulls.contains(pr));
                        let w = choose|w: int| 0 <= w < before_pulls.len() && before_pulls[w] == pr;
                        assert(pulls@[w] == pr);
                    } else {
                        assert(t1[j] == fs[i as int]);
                        if before_pulls.contains(pr) {
                            let w = choose|w: int| 0 <= w < before_pulls.len() && before_pulls[w] == pr;
                            assert(pulls@[w] == pr);
                        } else {
                            assert(pulls@[pulls@.len() - 1] == pr);
                        }
                    }
                }
                if pulls@.to_set().contains(pr) {
                    if before_pulls.contains(pr) {
                        assert(before_pulls.to_set().contains(pr));
                        let j = choose|j: int| 0 <= j < t0.len() && of_test(#[trigger] t0[j], path) && t0[j].pr == Some(pr);
                        assert(t1[j] == t0[j]);
                    } else {
                        assert(t1[i as int] == fs[i as int]);
                    }
                }
            }
            assert(pulls@.to_set() =~= pulls_of(t1, path));
            assert forall|x: Seq<char>| other_jobs_of(t1, path, jsrc).contains(x) <==> other_jobs_of(t0, path, jsrc).contains(x)
                || (of_test(fs[i as int], path) && !regex_finds(jsrc, fs[i as int].job@) && fs[i as int].job@ == x) by {
                if other_jobs_of(t1, path, jsrc).contains(x) {
                    let j = choose|j: int| 0 <= j < t1.len() && of_test(#[trigger] t1[j], path) && !regex_finds(jsrc, t1[j].job@) && t1[j].job@ == x;
                    if j < i {
                        assert(t0[j] == t1[j]);
                    }
                }
                if other_jobs_of(t0, path, jsrc).contains(x) {
                    let j = choose|j: int| 0 <= j < t0.len() && of_test(#[trigger] t0[j], path) && !regex_finds(jsrc, t0[j].job@) && t0[j].job@ == x;
                    assert(t1[j] == t0[j]);
                }
                if of_test(fs[i as int], path) && !regex_finds(jsrc, fs[i as int].job@) && fs[i as int].job@ == x {
                    assert(t1[i as int] == fs[i as int]);
                }
            }
            if of_test(fs[i as int], path) && !regex_finds(jsrc, fs[i as int].job@) {
                assert(str_set(other_jobs@) =~= other_jobs_of(t1, path, jsrc));
            } else {
                assert(str_set(other_jobs@) =~= other_jobs_of(t1, path, jsrc));
            }
        }
        i = i + 1;
    }
    proof {
        assert(fs.take(fs.len() as int) =~= fs);
        pulls@.unique_seq_to_set();
    }
    let status = if compare_str(q.until.as_str(), until) < 0 {
        Status::Expired
    } else if !any {
        Status::Stale
    } else if pulls.len() < MIN_PULLS || other_jobs.len() > 0 {
        Status::Unverified
    } else {
        Status::Active
    };
    proof {
        let vs = other_jobs@.map_values(|y: String| y@);
        if other_jobs.len() > 0 {
            assert(vs[0] == other_jobs@[0]@);
            assert(str_set(other_jobs@).contains(other_jobs@[0]@));
        } else {
            assert(str_set(other_jobs@) =~= Set::<Seq<char>>::empty());
        }
    }
    let mut entry = Entry {
        path: q.path.clone(),
        job: q.job.clone(),
        reason: q.reason.clone(),
        until: q.until.clone(),
        status,
        pulls: pulls.len(),
        other_jobs,
        jobs: Vec::new(),
        absorbed: 0,
        would_hit: 0,
        would_miss: 0,
        would_unconfirmed: 0,
    };
    proof {
        assert(str_set(entry.jobs@) =~= Set::<Seq<char>>::empty());
    }
    if status != Status::Active {
        return entry;
    }
    let mut i: usize = 0;
    while i < failures.len()
        invariant
            job.source() == jsrc,
            path == q.path@,
            jsrc == q.job@,
            failures@.len() == fs.len(),
            i <= fs.len(),
            forall|j: int| 0 <= j < i ==> #[trigger] failures@[j] == (if absorbs(fs[j], path, jsrc) { quarantined(fs[j]) } else { fs[j] }),
            forall|j: int| i <= j < fs.len() ==> #[trigger] failures@[j] == fs[j],
            entry.would_hit == absorbed_as(fs.take(i as int), path, jsrc, Outcome::Hit),
            entry.would_miss == absorbed_as(fs.take(i as int), path, jsrc, Outcome::Miss),
            entry.would_unconfirmed == absorbed_as(fs.take(i as int), path, jsrc, Outcome::Unconfirmed),
            entry.absorbed == absorbed_count(fs.take(i as int), path, jsrc),
            entry.absorbed <= i,
            str_sorted(entry.jobs@),
            str_set(entry.jobs@) == absorbed_jobs(fs.take(i as int), path, jsrc),
            entry.path == q.path && entry.job == q.job && entry.reason == q.reason && entry.until == q.until,
            entry.status == Status::Active,
            entry.pulls == pulls_of(fs, path).len(),
            str_sorted(entry.other_jobs@),
            str_set(entry.other_jobs@) == other_jobs_of(fs, path, jsrc),
        decreases fs.len() - i,
    {
        proof {
            assert(fs.take(i as int + 1).drop_last() =~= fs.take(i as int));
            assert(fs.take(i as int + 1).last() == fs[i as int]);
        }
        let ghost before_jobs = entry.jobs@;
        let hit = is_of_test(&failures[i], q.path.as_str()) && job.is_match(failures[i].job.as_str());
        let o = failures[i].outcome;
        if hit && (o == Outcome::Hit || o == Outcome::Miss || o == Outcome::Unconfirmed) {
            if o == Outcome::Hit {
                entry.would_hit = entry.would_hit + 1;
            } else if o == Outcome::Miss {
                entry.would_miss = entry.would_miss + 1;
            } else {
                entry.would_unconfirmed = entry.would_unconfirmed + 1;
            }
            entry.absorbed = entry.absorbed + 1;
            insert_str(&mut entry.jobs, failures[i].job.clone());
            let mut f = failures.remove(i);
            f.judged = Some(o);
            f.outcome = Outcome::Quarantined;
            failures.insert(i, f);
        }
        proof {
            let t0 = fs.take(i as int);
            let t1 = fs.take(i as int + 1);
            assert forall|x: Seq<char>| absorbed_jobs(t1, path, jsrc).contains(x) <==> absorbed_jobs(t0, path, jsrc).contains(x)
                || (absorbs(fs[i as int], path, jsrc) && fs[i as int].job@ == x) by {
                if absorbed_jobs(t1, path, jsrc).contains(x) {
                    let j = choose|j: int| 0 <= j < t1.len() && absorbs(#[trigger] t1[j], path, jsrc) && t1[j].job@ == x;
                    if j < i {
                        assert(t0[j] == t1[j]);
                    }
                }
                if absorbed_jobs(t0, path, jsrc).contains(x) {
                    let j = choose|j: int| 0 <= j < t0.len() && absorbs(#[trigger] t0[j], path, jsrc) && t0[j].job@ == x;
                    assert(t1[j] == t0[j]);
                }
                if absorbs(fs[i as int], path, jsrc) && fs[i as int].job@ == x {
                    assert(t1[i as int] == fs[i as int]);
                }
            }
            assert(str_set(entry.jobs@) =~= absorbed_jobs(t1, path, jsrc));
        }
        i = i + 1;
    }
    proof {
        assert(fs.take(fs.len() as int) =~= fs);
        assert(failures@ =~= after_entry(*q, fs, until@));
    }
    if entry.absorbed == 0 {
        entry.status = Status::Stale;
    }
    entry
}

} // verus!
