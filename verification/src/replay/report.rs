//! The replay report's counts: what each failure turned out to be, each
//! miss with the rule that would have caught it, and the failed jobs no
//! rule watches. Ratios, quantiles and timings are the application's.
use vstd::prelude::*;
use crate::replay::run::{Failure, HitBy, Outcome, Target};
use crate::strset::{insert_str, str_set, str_sorted, views_of};
use crate::text::{chars_of, copy_str, last_index, lemma_last_index, push_char, push_str, rfind_char, string_range, same_str};

verus! {

/// A miss, and an owner rule that would have selected it.
#[derive(Debug, Clone)]
pub struct Miss {
    pub run_id: u64,
    pub attempt: u32,
    pub pr: Option<u64>,
    pub head_sha: String,
    pub target: String,
    pub changed: Vec<String>,
    /// An owner rule that would have selected it.
    pub fix: String,
}

/// The folder of `path` with everything under it, or everything.
pub open spec fn dir_glob_spec(path: Seq<char>) -> Seq<char> {
    match last_index(path, '/') {
        Some(i) => path.take(i) + "/**"@,
        None => "**"@,
    }
}

pub fn dir_glob(path: &str) -> (r: String)
    ensures
        r@ == dir_glob_spec(path@),
{
    let v = chars_of(path);
    match rfind_char(&v, '/') {
        Some(i) => {
            proof {
                lemma_last_index(v@, '/');
            }
            let mut out = string_range(&v, 0, i);
            push_str(&mut out, "/**");
            proof {
                assert(v@.subrange(0, i as int) =~= v@.take(i as int));
            }
            out
        },
        None => copy_str("**"),
    }
}

/// How a miss names its target.
pub open spec fn target_text(f: Failure) -> Seq<char> {
    match f.target {
        Target::Test(p) => p@,
        Target::Check(id) => "check "@ + id@,
        Target::Job => "job "@ + f.job@,
    }
}

/// The rule a miss suggests: an owner rule for a test, a path for a check,
/// each from the first changed path.
pub open spec fn fix_text(f: Failure) -> Seq<char> {
    if f.changed.len() == 0 {
        "no rule suggested"@
    } else {
        let changed = f.changed@[0]@;
        match f.target {
            Target::Test(test) => "[[tests.owners]] match = \""@ + dir_glob_spec(test@) + "\", covers = [\""@
                + dir_glob_spec(changed) + "\"]"@,
            Target::Check(id) => "add \""@ + dir_glob_spec(changed) + "\" to the paths of check "@ + id@,
            Target::Job => "no rule suggested"@,
        }
    }
}

pub fn miss(f: &Failure) -> (r: Miss)
    ensures
        r.run_id == f.run_id,
        r.attempt == f.attempt,
        r.pr == f.pr,
        r.head_sha@ == f.head_sha@,
        r.target@ == target_text(*f),
        r.changed@.map_values(|s: String| s@) == f.changed@.map_values(|s: String| s@),
        r.fix@ == fix_text(*f),
{
    let target = match &f.target {
        Target::Test(p) => copy_str(p.as_str()),
        Target::Check(id) => {
            let mut t = copy_str("check ");
            push_str(&mut t, id.as_str());
            t
        },
        Target::Job => {
            let mut t = copy_str("job ");
            push_str(&mut t, f.job.as_str());
            t
        },
    };
    let fix = if f.changed.len() == 0 {
        copy_str("no rule suggested")
    } else {
        match &f.target {
            Target::Test(test) => {
                let mut t = copy_str("[[tests.owners]] match = \"");
                push_str(&mut t, dir_glob(test.as_str()).as_str());
                push_str(&mut t, "\", covers = [\"");
                push_str(&mut t, dir_glob(f.changed[0].as_str()).as_str());
                push_str(&mut t, "\"]");
                t
            },
            Target::Check(id) => {
                let mut t = copy_str("add \"");
                push_str(&mut t, dir_glob(f.changed[0].as_str()).as_str());
                push_str(&mut t, "\" to the paths of check ");
                push_str(&mut t, id.as_str());
                t
            },
            Target::Job => copy_str("no rule suggested"),
        }
    };
    let mut changed: Vec<String> = Vec::new();
    let mut i: usize = 0;
    while i < f.changed.len()
        invariant
            i <= f.changed.len(),
            changed.len() == i,
            forall|k: int| 0 <= k < i ==> changed@[k]@ == f.changed@[k]@,
        decreases f.changed.len() - i,
    {
        changed.push(copy_str(f.changed[i].as_str()));
        i = i + 1;
    }
    proof {
        assert(changed@.map_values(|s: String| s@) =~= f.changed@.map_values(|s: String| s@));
    }
    Miss { run_id: f.run_id, attempt: f.attempt, pr: f.pr, head_sha: copy_str(f.head_sha.as_str()), target, changed, fix }
}

/// How many failures came out as `o`.
pub open spec fn count_of(fs: Seq<Failure>, o: Outcome) -> nat {
    fs.filter(|f: Failure| f.outcome == o).len()
}

/// How many hits came by `by`.
pub open spec fn hits_by(fs: Seq<Failure>, by: HitBy) -> nat {
    fs.filter(|f: Failure| f.hit_by == Some(by)).len()
}

/// How many failures of the job `job` no rule watches.
pub open spec fn unwatched_of(fs: Seq<Failure>, job: Seq<char>) -> nat {
    fs.filter(|f: Failure| f.outcome == Outcome::Unwatched && f.job@ == job).len()
}

/// How many failures of the event `event` came out as `o`.
pub open spec fn event_count(fs: Seq<Failure>, event: Seq<char>, o: Outcome) -> nat {
    fs.filter(|f: Failure| f.event@ == event && f.outcome == o).len()
}

/// Whether a failure counts toward recall: a hit, a miss or unconfirmed.
pub open spec fn judged(o: Outcome) -> bool {
    o == Outcome::Hit || o == Outcome::Miss || o == Outcome::Unconfirmed
}

pub fn count_outcome(fs: &[Failure], o: Outcome) -> (r: usize)
    ensures
        r == count_of(fs@, o),
{
    let ghost p = |f: Failure| f.outcome == o;
    let mut n: usize = 0;
    let mut i: usize = 0;
    while i < fs.len()
        invariant
            i <= fs.len(),
            p == (|f: Failure| f.outcome == o),
            n == fs@.take(i as int).filter(p).len(),
            n <= i,
        decreases fs.len() - i,
    {
        proof {
            assert(fs@.take(i as int + 1).drop_last() =~= fs@.take(i as int));
            reveal(Seq::filter);
        }
        if fs[i].outcome == o {
            n = n + 1;
        }
        i = i + 1;
    }
    proof {
        assert(fs@.take(i as int) =~= fs@);
    }
    n
}

pub fn count_hit_by(fs: &[Failure], by: HitBy) -> (r: usize)
    ensures
        r == hits_by(fs@, by),
{
    let ghost p = |f: Failure| f.hit_by == Some(by);
    let mut n: usize = 0;
    let mut i: usize = 0;
    while i < fs.len()
        invariant
            i <= fs.len(),
            p == (|f: Failure| f.hit_by == Some(by)),
            n == fs@.take(i as int).filter(p).len(),
            n <= i,
        decreases fs.len() - i,
    {
        proof {
            assert(fs@.take(i as int + 1).drop_last() =~= fs@.take(i as int));
            reveal(Seq::filter);
        }
        if fs[i].hit_by == Some(by) {
            n = n + 1;
        }
        i = i + 1;
    }
    proof {
        assert(fs@.take(i as int) =~= fs@);
    }
    n
}

fn count_unwatched(fs: &[Failure], job: &str) -> (r: usize)
    ensures
        r == unwatched_of(fs@, job@),
{
    let ghost p = |f: Failure| f.outcome == Outcome::Unwatched && f.job@ == job@;
    let mut n: usize = 0;
    let mut i: usize = 0;
    while i < fs.len()
        invariant
            i <= fs.len(),
            p == (|f: Failure| f.outcome == Outcome::Unwatched && f.job@ == job@),
            n == fs@.take(i as int).filter(p).len(),
            n <= i,
        decreases fs.len() - i,
    {
        proof {
            assert(fs@.take(i as int + 1).drop_last() =~= fs@.take(i as int));
            reveal(Seq::filter);
        }
        if fs[i].outcome == Outcome::Unwatched && same_str(fs[i].job.as_str(), job) {
            n = n + 1;
        }
        i = i + 1;
    }
    proof {
        assert(fs@.take(i as int) =~= fs@);
    }
    n
}

fn count_event(fs: &[Failure], event: &str, o: Outcome) -> (r: usize)
    ensures
        r == event_count(fs@, event@, o),
{
    let ghost p = |f: Failure| f.event@ == event@ && f.outcome == o;
    let mut n: usize = 0;
    let mut i: usize = 0;
    while i < fs.len()
        invariant
            i <= fs.len(),
            p == (|f: Failure| f.event@ == event@ && f.outcome == o),
            n == fs@.take(i as int).filter(p).len(),
            n <= i,
        decreases fs.len() - i,
    {
        proof {
            assert(fs@.take(i as int + 1).drop_last() =~= fs@.take(i as int));
            reveal(Seq::filter);
        }
        if same_str(fs[i].event.as_str(), event) && fs[i].outcome == o {
            n = n + 1;
        }
        i = i + 1;
    }
    proof {
        assert(fs@.take(i as int) =~= fs@);
    }
    n
}

/// Hits, misses and unconfirmed failures of one event.
#[derive(Debug, Clone, Copy, Default, PartialEq, Eq)]
pub struct EventCounts {
    pub hits: usize,
    pub misses: usize,
    pub unconfirmed: usize,
}

/// The report's counts.
#[derive(Debug, Clone)]
pub struct Tally {
    pub runs: usize,
    pub hits: usize,
    /// Hits by how the target got into the plan.
    pub hits_selected: usize,
    pub hits_run_all: usize,
    pub hits_check: usize,
    pub misses: Vec<Miss>,
    pub flaky: usize,
    pub unconfirmed: usize,
    pub unattributed: usize,
    pub unavailable: usize,
    pub errors: usize,
    /// Failed jobs no rule watches, by job name, with how often.
    pub unwatched: Vec<(String, usize)>,
    pub ignored: usize,
    /// Each event with a hit, a miss or an unconfirmed failure.
    pub by_event: Vec<(String, EventCounts)>,
}

/// The texts of the keys of some pairs.
pub open spec fn keys_of<T>(v: Seq<(String, T)>) -> Seq<Seq<char>> {
    v.map_values(|p: (String, T)| p.0@)
}

/// Strictly ascending texts.
pub open spec fn ascending(d: Seq<Seq<char>>) -> bool {
    crate::strset::texts_sorted(d)
}

/// The jobs of the failures no rule watches.
pub open spec fn unwatched_jobs(fs: Seq<Failure>) -> Set<Seq<char>> {
    Set::new(|j: Seq<char>| exists|i: int| 0 <= i < fs.len() && (#[trigger] fs[i]).outcome == Outcome::Unwatched && fs[i].job@ == j)
}

/// The events of the failures that count toward recall.
pub open spec fn judged_events(fs: Seq<Failure>) -> Set<Seq<char>> {
    Set::new(|e: Seq<char>| exists|i: int| 0 <= i < fs.len() && judged((#[trigger] fs[i]).outcome) && fs[i].event@ == e)
}

/// The distinct texts `pick` chooses among `fs`, sorted.
fn distinct(fs: &[Failure], events: bool) -> (r: Vec<String>)
    ensures
        str_sorted(r@),
        str_set(r@) == (if events { judged_events(fs@) } else { unwatched_jobs(fs@) }),
{
    let mut out: Vec<String> = Vec::new();
    let mut i: usize = 0;
    let ghost target = if events { judged_events(fs@) } else { unwatched_jobs(fs@) };
    while i < fs.len()
        invariant
            i <= fs.len(),
            str_sorted(out@),
            target == (if events { judged_events(fs@) } else { unwatched_jobs(fs@) }),
            str_set(out@) == (if events { judged_events(fs@.take(i as int)) } else { unwatched_jobs(fs@.take(i as int)) }),
        decreases fs.len() - i,
    {
        let ghost before = str_set(out@);
        let ghost t0 = fs@.take(i as int);
        let ghost t1 = fs@.take(i as int + 1);
        let f = &fs[i];
        let pick = if events {
            f.outcome == Outcome::Hit || f.outcome == Outcome::Miss || f.outcome == Outcome::Unconfirmed
        } else {
            f.outcome == Outcome::Unwatched
        };
        if pick {
            let key = if events { copy_str(f.event.as_str()) } else { copy_str(f.job.as_str()) };
            let ghost kv = key@;
            insert_str(&mut out, key);
            proof {
                if events {
                    assert(judged_events(t1) =~= before.insert(kv)) by {
                        assert(t1[i as int] == fs@[i as int]);
                        assert forall|e: Seq<char>| judged_events(t1).contains(e) implies before.insert(kv).contains(e) by {
                            let k = choose|k: int| 0 <= k < t1.len() && judged((#[trigger] t1[k]).outcome) && t1[k].event@ == e;
                            if k < i {
                                assert(t0[k] == t1[k]);
                                assert(judged_events(t0).contains(e));
                            }
                        }
                        assert forall|e: Seq<char>| before.insert(kv).contains(e) implies judged_events(t1).contains(e) by {
                            if e != kv {
                                let k = choose|k: int| 0 <= k < t0.len() && judged((#[trigger] t0[k]).outcome) && t0[k].event@ == e;
                                assert(t0[k] == t1[k]);
                            }
                        }
                    }
                } else {
                    assert(unwatched_jobs(t1) =~= before.insert(kv)) by {
                        assert(t1[i as int] == fs@[i as int]);
                        assert forall|e: Seq<char>| unwatched_jobs(t1).contains(e) implies before.insert(kv).contains(e) by {
                            let k = choose|k: int| 0 <= k < t1.len() && (#[trigger] t1[k]).outcome == Outcome::Unwatched && t1[k].job@ == e;
                            if k < i {
                                assert(t0[k] == t1[k]);
                                assert(unwatched_jobs(t0).contains(e));
                            }
                        }
                        assert forall|e: Seq<char>| before.insert(kv).contains(e) implies unwatched_jobs(t1).contains(e) by {
                            if e != kv {
                                let k = choose|k: int| 0 <= k < t0.len() && (#[trigger] t0[k]).outcome == Outcome::Unwatched && t0[k].job@ == e;
                                assert(t0[k] == t1[k]);
                            }
                        }
                    }
                }
            }
        } else {
            proof {
                if events {
                    assert(judged_events(t1) =~= judged_events(t0)) by {
                        assert forall|e: Seq<char>| judged_events(t1).contains(e) implies judged_events(t0).contains(e) by {
                            let k = choose|k: int| 0 <= k < t1.len() && judged((#[trigger] t1[k]).outcome) && t1[k].event@ == e;
                            assert(k != i);
                            assert(t0[k] == t1[k]);
                        }
                        assert forall|e: Seq<char>| judged_events(t0).contains(e) implies judged_events(t1).contains(e) by {
                            let k = choose|k: int| 0 <= k < t0.len() && judged((#[trigger] t0[k]).outcome) && t0[k].event@ == e;
                            assert(t0[k] == t1[k]);
                        }
                    }
                } else {
                    assert(unwatched_jobs(t1) =~= unwatched_jobs(t0)) by {
                        assert forall|e: Seq<char>| unwatched_jobs(t1).contains(e) implies unwatched_jobs(t0).contains(e) by {
                            let k = choose|k: int| 0 <= k < t1.len() && (#[trigger] t1[k]).outcome == Outcome::Unwatched && t1[k].job@ == e;
                            assert(k != i);
                            assert(t0[k] == t1[k]);
                        }
                        assert forall|e: Seq<char>| unwatched_jobs(t0).contains(e) implies unwatched_jobs(t1).contains(e) by {
                            let k = choose|k: int| 0 <= k < t0.len() && (#[trigger] t0[k]).outcome == Outcome::Unwatched && t0[k].job@ == e;
                            assert(t0[k] == t1[k]);
                        }
                    }
                }
            }
        }
        i = i + 1;
    }
    proof {
        assert(fs@.take(i as int) =~= fs@);
    }
    out
}

/// Every count of the report over `failures`, from `runs` runs replayed.
pub fn tally(runs: usize, failures: &[Failure]) -> (r: Tally)
    ensures
        r.runs == runs,
        r.hits == count_of(failures@, Outcome::Hit),
        r.hits_selected == hits_by(failures@, HitBy::Selected),
        r.hits_run_all == hits_by(failures@, HitBy::RunAll),
        r.hits_check == hits_by(failures@, HitBy::Check),
        r.flaky == count_of(failures@, Outcome::Flaky),
        r.unconfirmed == count_of(failures@, Outcome::Unconfirmed),
        r.unattributed == count_of(failures@, Outcome::Unattributed),
        r.unavailable == count_of(failures@, Outcome::Unavailable),
        r.errors == count_of(failures@, Outcome::Error),
        r.ignored == count_of(failures@, Outcome::Ignored),
        r.misses.len() == count_of(failures@, Outcome::Miss),
        forall|k: int| 0 <= k < r.misses.len() ==> {
            let f = failures@.filter(|f: Failure| f.outcome == Outcome::Miss)[k];
            &&& (#[trigger] r.misses@[k]).run_id == f.run_id
            &&& r.misses@[k].target@ == target_text(f)
            &&& r.misses@[k].fix@ == fix_text(f)
            &&& r.misses@[k].attempt == f.attempt
            &&& r.misses@[k].pr == f.pr
            &&& r.misses@[k].head_sha@ == f.head_sha@
            &&& r.misses@[k].changed@.map_values(|s: String| s@) == f.changed@.map_values(|s: String| s@)
        },
        ascending(keys_of(r.unwatched@)),
        keys_of(r.unwatched@).to_set() == unwatched_jobs(failures@),
        forall|k: int| 0 <= k < r.unwatched.len() ==> (#[trigger] r.unwatched@[k]).1 == unwatched_of(failures@, r.unwatched@[k].0@),
        ascending(keys_of(r.by_event@)),
        keys_of(r.by_event@).to_set() == judged_events(failures@),
        forall|k: int| 0 <= k < r.by_event.len() ==> {
            let (e, c) = #[trigger] r.by_event@[k];
            &&& c.hits == event_count(failures@, e@, Outcome::Hit)
            &&& c.misses == event_count(failures@, e@, Outcome::Miss)
            &&& c.unconfirmed == event_count(failures@, e@, Outcome::Unconfirmed)
        },
{
    let ghost missed = failures@.filter(|f: Failure| f.outcome == Outcome::Miss);
    let mut misses: Vec<Miss> = Vec::new();
    let mut i: usize = 0;
    while i < failures.len()
        invariant
            i <= failures.len(),
            missed == failures@.filter(|f: Failure| f.outcome == Outcome::Miss),
            misses.len() == failures@.take(i as int).filter(|f: Failure| f.outcome == Outcome::Miss).len(),
            forall|k: int| 0 <= k < misses.len() ==> {
                let f = failures@.take(i as int).filter(|f: Failure| f.outcome == Outcome::Miss)[k];
                &&& (#[trigger] misses@[k]).run_id == f.run_id
                &&& misses@[k].target@ == target_text(f)
                &&& misses@[k].fix@ == fix_text(f)
                &&& misses@[k].attempt == f.attempt
                &&& misses@[k].pr == f.pr
                &&& misses@[k].head_sha@ == f.head_sha@
                &&& misses@[k].changed@.map_values(|s: String| s@) == f.changed@.map_values(|s: String| s@)
            },
        decreases failures.len() - i,
    {
        proof {
            assert(failures@.take(i as int + 1).drop_last() =~= failures@.take(i as int));
            reveal(Seq::filter);
        }
        if failures[i].outcome == Outcome::Miss {
            misses.push(miss(&failures[i]));
        }
        i = i + 1;
    }
    proof {
        assert(failures@.take(i as int) =~= failures@);
    }
    let jobs = distinct(failures, false);
    let mut unwatched: Vec<(String, usize)> = Vec::new();
    let mut k: usize = 0;
    while k < jobs.len()
        invariant
            k <= jobs.len(),
            unwatched.len() == k,
            forall|q: int| 0 <= q < k ==> (#[trigger] unwatched@[q]).0@ == jobs@[q]@,
            forall|q: int| 0 <= q < k ==> (#[trigger] unwatched@[q]).1 == unwatched_of(failures@, unwatched@[q].0@),
        decreases jobs.len() - k,
    {
        let n = count_unwatched(failures, jobs[k].as_str());
        unwatched.push((copy_str(jobs[k].as_str()), n));
        k = k + 1;
    }
    let events = distinct(failures, true);
    let mut by_event: Vec<(String, EventCounts)> = Vec::new();
    let mut k: usize = 0;
    while k < events.len()
        invariant
            k <= events.len(),
            by_event.len() == k,
            forall|q: int| 0 <= q < k ==> (#[trigger] by_event@[q]).0@ == events@[q]@,
            forall|q: int| 0 <= q < k ==> {
                let (e, c) = #[trigger] by_event@[q];
                &&& c.hits == event_count(failures@, e@, Outcome::Hit)
                &&& c.misses == event_count(failures@, e@, Outcome::Miss)
                &&& c.unconfirmed == event_count(failures@, e@, Outcome::Unconfirmed)
            },
        decreases events.len() - k,
    {
        let e = events[k].as_str();
        let c = EventCounts {
            hits: count_event(failures, e, Outcome::Hit),
            misses: count_event(failures, e, Outcome::Miss),
            unconfirmed: count_event(failures, e, Outcome::Unconfirmed),
        };
        by_event.push((copy_str(e), c));
        k = k + 1;
    }
    proof {
        assert(keys_of(unwatched@) =~= views_of(jobs@));
        assert(keys_of(by_event@) =~= views_of(events@));
        let kj = keys_of(unwatched@);
        assert forall|a: int, b: int| 0 <= a < b < kj.len() implies crate::text::seq_order(#[trigger] kj[a], #[trigger] kj[b]) < 0 by {
            assert(kj[a] == jobs@[a]@ && kj[b] == jobs@[b]@);
        }
        let ke = keys_of(by_event@);
        assert forall|a: int, b: int| 0 <= a < b < ke.len() implies crate::text::seq_order(#[trigger] ke[a], #[trigger] ke[b]) < 0 by {
            assert(ke[a] == events@[a]@ && ke[b] == events@[b]@);
        }
        assert(kj.to_set() =~= str_set(jobs@));
        assert(ke.to_set() =~= str_set(events@));
    }
    Tally {
        runs,
        hits: count_outcome(failures, Outcome::Hit),
        hits_selected: count_hit_by(failures, HitBy::Selected),
        hits_run_all: count_hit_by(failures, HitBy::RunAll),
        hits_check: count_hit_by(failures, HitBy::Check),
        misses,
        flaky: count_outcome(failures, Outcome::Flaky),
        unconfirmed: count_outcome(failures, Outcome::Unconfirmed),
        unattributed: count_outcome(failures, Outcome::Unattributed),
        unavailable: count_outcome(failures, Outcome::Unavailable),
        errors: count_outcome(failures, Outcome::Error),
        unwatched,
        ignored: count_outcome(failures, Outcome::Ignored),
        by_event,
    }
}

/// Every failure is counted under exactly one outcome: the counts of all
/// outcomes add up to the number of failures.
pub proof fn lemma_outcomes_partition(fs: Seq<Failure>)
    ensures
        count_of(fs, Outcome::Hit) + count_of(fs, Outcome::Miss) + count_of(fs, Outcome::Flaky)
            + count_of(fs, Outcome::Unconfirmed) + count_of(fs, Outcome::Unattributed)
            + count_of(fs, Outcome::Unavailable) + count_of(fs, Outcome::Error)
            + count_of(fs, Outcome::Unwatched) + count_of(fs, Outcome::Ignored)
            + count_of(fs, Outcome::Quarantined) == fs.len(),
    decreases fs.len(),
{
    reveal(Seq::filter);
    if fs.len() > 0 {
        lemma_outcomes_partition(fs.drop_last());
        assert(fs.drop_last().push(fs.last()) =~= fs);
    }
}


/// The decimal form of a count.
pub open spec fn dec(n: nat) -> Seq<char> {
    crate::text::decimal(n)
}

/// Whether the replay judged at least `min_failures` failures, counting
/// as a `u32` does.
pub open spec fn gate_met_spec(t: Tally, min_failures: u32) -> bool {
    ((t.hits + t.misses.len()) as u32) >= min_failures
}

/// Whether the report's gate is met: hits and misses, the failures the
/// replay judged, reach `min_failures`.
pub fn gate_met(t: &Tally, min_failures: u32) -> (r: bool)
    requires
        t.hits + t.misses.len() <= usize::MAX,
    ensures
        r == gate_met_spec(*t, min_failures),
{
    let judged = t.hits + t.misses.len();
    #[verifier::truncate]
    let j = judged as u32;
    j >= min_failures
}

/// The report's count lines: hits by how they were planned and misses,
/// then what else the failures turned out to be.
pub open spec fn counts_text(t: Tally) -> Seq<char> {
    "  hits "@ + dec(t.hits as nat) + " (selected "@ + dec(t.hits_selected as nat) + ", run_all "@
        + dec(t.hits_run_all as nat) + ", checks "@ + dec(t.hits_check as nat) + ")  misses "@
        + dec(t.misses.len() as nat) + "\n"@ + "  flaky "@ + dec(t.flaky as nat) + "  unconfirmed "@
        + dec(t.unconfirmed as nat) + "  unattributed "@ + dec(t.unattributed as nat) + "  unavailable "@
        + dec(t.unavailable as nat) + "  errors "@ + dec(t.errors as nat) + "  ignored "@ + dec(t.ignored as nat)
        + "\n"@
}

fn push_count(out: &mut String, n: usize)
    ensures
        final(out)@ == old(out)@ + dec(n as nat),
{
    crate::text::push_decimal(out, n as u64);
}

pub fn counts_lines(t: &Tally) -> (r: String)
    ensures
        r@ == counts_text(*t),
{
    let mut out = String::new();
    push_str(&mut out, "  hits ");
    push_count(&mut out, t.hits);
    push_str(&mut out, " (selected ");
    push_count(&mut out, t.hits_selected);
    push_str(&mut out, ", run_all ");
    push_count(&mut out, t.hits_run_all);
    push_str(&mut out, ", checks ");
    push_count(&mut out, t.hits_check);
    push_str(&mut out, ")  misses ");
    push_count(&mut out, t.misses.len());
    push_str(&mut out, "\n");
    push_str(&mut out, "  flaky ");
    push_count(&mut out, t.flaky);
    push_str(&mut out, "  unconfirmed ");
    push_count(&mut out, t.unconfirmed);
    push_str(&mut out, "  unattributed ");
    push_count(&mut out, t.unattributed);
    push_str(&mut out, "  unavailable ");
    push_count(&mut out, t.unavailable);
    push_str(&mut out, "  errors ");
    push_count(&mut out, t.errors);
    push_str(&mut out, "  ignored ");
    push_count(&mut out, t.ignored);
    push_str(&mut out, "\n");
    proof {
        assert(out@ =~= counts_text(*t));
    }
    out
}

/// `s` right-aligned in four columns.
pub open spec fn right4(s: Seq<char>) -> Seq<char> {
    if s.len() >= 4 { s } else { Seq::new((4 - s.len()) as nat, |i: int| ' ') + s }
}

/// One line per unwatched job, the first `m`: its count right-aligned in
/// four columns, then the job.
pub open spec fn unwatched_text(u: Seq<(String, usize)>, m: int) -> Seq<char>
    decreases m,
{
    if m <= 0 {
        Seq::empty()
    } else {
        unwatched_text(u, m - 1) + "    "@ + right4(dec(u[m - 1].1 as nat)) + "  "@ + u[m - 1].0@ + "\n"@
    }
}

/// The unwatched jobs, under their heading; nothing when there are none.
pub open spec fn unwatched_lines_spec(t: Tally) -> Seq<char> {
    if t.unwatched.len() == 0 {
        Seq::empty()
    } else {
        "  unwatched failed jobs (no rule names them):\n"@ + unwatched_text(t.unwatched@, t.unwatched.len() as int)
    }
}

pub fn unwatched_lines(t: &Tally) -> (r: String)
    ensures
        r@ == unwatched_lines_spec(*t),
{
    let mut out = String::new();
    if t.unwatched.len() == 0 {
        proof {
            assert(out@ =~= unwatched_lines_spec(*t));
        }
        return out;
    }
    push_str(&mut out, "  unwatched failed jobs (no rule names them):\n");
    let ghost head = out@;
    let mut k: usize = 0;
    while k < t.unwatched.len()
        invariant
            k <= t.unwatched.len(),
            out@ == head + unwatched_text(t.unwatched@, k as int),
        decreases t.unwatched.len() - k,
    {
        push_str(&mut out, "    ");
        let n = crate::text::decimal_string(t.unwatched[k].1 as u64);
        let ghost before = out@;
        let mut pad = n.unicode_len();
        while pad < 4
            invariant
                n@.len() <= pad <= 4 || (pad == n@.len() && pad >= 4),
                out@ == before + Seq::new((pad - n@.len()) as nat, |i: int| ' '),
            decreases 4 - pad,
        {
            push_char(&mut out, ' ');
            proof {
                assert(before + Seq::new((pad + 1 - n@.len()) as nat, |i: int| ' ') =~= (before + Seq::new((pad - n@.len()) as nat, |i: int| ' ')).push(' '));
            }
            pad = pad + 1;
        }
        push_str(&mut out, n.as_str());
        push_str(&mut out, "  ");
        push_str(&mut out, t.unwatched[k].0.as_str());
        push_str(&mut out, "\n");
        proof {
            let d = dec(t.unwatched@[k as int].1 as nat);
            assert(n@ == d);
            if d.len() >= 4 {
                assert(Seq::new((pad - n@.len()) as nat, |i: int| ' ') =~= Seq::<char>::empty());
            } else {
                assert(pad == 4);
            }
            assert(out@ =~= head + unwatched_text(t.unwatched@, k as int + 1));
        }
        k = k + 1;
    }
    out
}

/// How a miss names its pull request.
pub open spec fn pr_text(pr: Option<u64>) -> Seq<char> {
    match pr {
        Some(p) => dec(p as nat),
        None => "-"@,
    }
}

/// A miss as the report shows it: the run, attempt, pull request and
/// target, then the changed paths and the rule that would have caught it.
pub open spec fn miss_text(m: Miss) -> Seq<char> {
    "\n  miss  run "@ + dec(m.run_id as nat) + " attempt "@ + dec(m.attempt as nat) + " (PR "@ + pr_text(m.pr)
        + ")  "@ + m.target@ + "\n"@ + "        changed: "@
        + crate::text::join(m.changed@.map_values(|s: String| s@), ", "@) + "\n"@ + "        fix: "@ + m.fix@ + "\n"@
}

pub fn miss_lines(m: &Miss) -> (r: String)
    ensures
        r@ == miss_text(*m),
{
    let mut out = String::new();
    push_str(&mut out, "\n  miss  run ");
    crate::text::push_decimal(&mut out, m.run_id);
    push_str(&mut out, " attempt ");
    crate::text::push_decimal(&mut out, m.attempt as u64);
    push_str(&mut out, " (PR ");
    match m.pr {
        Some(p) => crate::text::push_decimal(&mut out, p),
        None => push_str(&mut out, "-"),
    }
    push_str(&mut out, ")  ");
    push_str(&mut out, m.target.as_str());
    push_str(&mut out, "\n");
    push_str(&mut out, "        changed: ");
    let mut pieces: Vec<Vec<char>> = Vec::new();
    let mut i: usize = 0;
    while i < m.changed.len()
        invariant
            i <= m.changed.len(),
            crate::text::views(pieces@) == m.changed@.take(i as int).map_values(|s: String| s@),
        decreases m.changed.len() - i,
    {
        let ghost before = crate::text::views(pieces@);
        let piece = chars_of(m.changed[i].as_str());
        pieces.push(piece);
        proof {
            assert(crate::text::views(pieces@) =~= before.push(m.changed@[i as int]@));
            assert(m.changed@.take(i as int + 1).map_values(|s: String| s@) =~= m.changed@.take(i as int).map_values(|s: String| s@).push(m.changed@[i as int]@));
        }
        i = i + 1;
    }
    proof {
        assert(m.changed@.take(i as int) =~= m.changed@);
    }
    let sep = chars_of(", ");
    let joined = crate::text::join_chars(&pieces, &sep);
    let j = crate::text::string_of(&joined);
    push_str(&mut out, j.as_str());
    push_str(&mut out, "\n");
    push_str(&mut out, "        fix: ");
    push_str(&mut out, m.fix.as_str());
    push_str(&mut out, "\n");
    proof {
        assert(out@ =~= miss_text(*m));
    }
    out
}

} // verus!
