//! Replaying recorded failures: each failed run's commit is checked out and
//! planned from the merge base of its base and head, and every failing test
//! file and check it names is classed against that plan. Checking out,
//! planning and reading the tree are the application's; what each failure
//! is judged to be is decided here.
use vstd::prelude::*;
use crate::config::Config;
use crate::matcher::{regex_finds, regex_problem, Matcher};
use crate::plan::Plan;
use crate::replay::attribute::{has, has_file, view_of, Attribution, AttributionView};
use crate::replay::dataset::{Annotation, Job, Row};
use crate::replay::extract::{named_ok, opt_view, str_opt, Extractor, Kind};
use crate::replay::window::{date_of, Window};
use crate::sorting::{lemma_insert_by_at, sort_by};
use crate::text::{compare_str, copy_str, join, join_lines, same_str, seq_order};

verus! {

#[derive(Debug, Clone, Copy, PartialEq, Eq, Structural, PartialOrd, Ord)]
pub enum Outcome {
    /// In the plan.
    Hit,
    /// Not in the plan, and nothing explains it away.
    Miss,
    /// Another attempt of the same run passed the same job.
    Flaky,
    /// A later run of the same change (a re-run or a rebase) passed the job.
    Unconfirmed,
    /// The job failed, but no test file or check could be named.
    Unattributed,
    /// The commit, or the history to its merge base, can't be fetched.
    Unavailable,
    /// The planner refused the commit, such as a test with no runner.
    Error,
    /// No `[[replay.failures]]` or `[[replay.checks]]` entry names the job.
    Unwatched,
    /// `replay.ignore` names the job.
    Ignored,
    /// A quarantine entry absorbed it; `judged` keeps what it was.
    Quarantined,
}

/// How a hit's target came to be in the plan.
#[derive(Debug, Clone, Copy, PartialEq, Eq, Structural, PartialOrd, Ord)]
pub enum HitBy {
    Selected,
    RunAll,
    Check,
}

#[derive(Debug, Clone, PartialEq, Eq)]
pub enum Target {
    Test(String),
    Check(String),
    Job,
}

#[derive(Debug, Clone)]
pub struct Failure {
    pub run_id: u64,
    pub attempt: u32,
    pub event: String,
    pub pr: Option<u64>,
    pub head_sha: String,
    pub job: String,
    pub target: Target,
    pub outcome: Outcome,
    pub hit_by: Option<HitBy>,
    /// What a quarantined failure would otherwise have been.
    pub judged: Option<Outcome>,
    pub detail: String,
    /// The changed paths of the plan it was judged against.
    pub changed: Vec<String>,
}

/// Where a target stands in a plan: a test is in a plan that selects
/// everything, or one that lists it; a check in one that lists it.
pub open spec fn in_plan_spec(plan: Plan, target: Target) -> Option<HitBy> {
    match target {
        Target::Test(path) => if plan.all {
            Some(HitBy::RunAll)
        } else if exists|i: int| 0 <= i < plan.tests.len() && (#[trigger] plan.tests@[i]).path@ == path@ {
            Some(HitBy::Selected)
        } else {
            None
        },
        Target::Check(id) => if exists|i: int| 0 <= i < plan.checks.len() && (#[trigger] plan.checks@[i]).id@ == id@ {
            Some(HitBy::Check)
        } else {
            None
        },
        Target::Job => None,
    }
}

pub fn in_plan(plan: &Plan, target: &Target) -> (r: Option<HitBy>)
    ensures
        r == in_plan_spec(*plan, *target),
{
    match target {
        Target::Test(path) => {
            if plan.all {
                return Some(HitBy::RunAll);
            }
            let mut i: usize = 0;
            while i < plan.tests.len()
                invariant
                    i <= plan.tests.len(),
                    in_plan_spec(*plan, *target) == (if exists|i: int| 0 <= i < plan.tests.len() && (#[trigger] plan.tests@[i]).path@ == path@ {
                        Some(HitBy::Selected)
                    } else {
                        None
                    }),
                    forall|j: int| 0 <= j < i ==> (#[trigger] plan.tests@[j]).path@ != path@,
                decreases plan.tests.len() - i,
            {
                if same_str(plan.tests[i].path.as_str(), path.as_str()) {
                    proof {
                        assert(plan.tests@[i as int].path@ == path@);
                    }
                    return Some(HitBy::Selected);
                }
                i = i + 1;
            }
            None
        },
        Target::Check(id) => {
            let mut i: usize = 0;
            while i < plan.checks.len()
                invariant
                    i <= plan.checks.len(),
                    in_plan_spec(*plan, *target) == (if exists|i: int| 0 <= i < plan.checks.len() && (#[trigger] plan.checks@[i]).id@ == id@ {
                        Some(HitBy::Check)
                    } else {
                        None
                    }),
                    forall|j: int| 0 <= j < i ==> (#[trigger] plan.checks@[j]).id@ != id@,
                decreases plan.checks.len() - i,
            {
                if same_str(plan.checks[i].id.as_str(), id.as_str()) {
                    proof {
                        assert(plan.checks@[i as int].id@ == id@);
                    }
                    return Some(HitBy::Check);
                }
                i = i + 1;
            }
            None
        },
        Target::Job => None,
    }
}

/// What a failure is judged to be: a job with no named target is
/// unattributed; a job another attempt passed is flaky; a target in the
/// plan is a hit; one a later run of the same change passed is
/// unconfirmed; anything else is a miss.
pub open spec fn outcome_spec(target: Target, flaky: bool, hit_by: Option<HitBy>, retried: bool) -> Outcome {
    if target is Job {
        Outcome::Unattributed
    } else if flaky {
        Outcome::Flaky
    } else if hit_by is Some {
        Outcome::Hit
    } else if retried {
        Outcome::Unconfirmed
    } else {
        Outcome::Miss
    }
}

/// Whether judging `target` has to ask if a later run passed the same
/// change: only when nothing before that question decides.
pub fn needs_retry(target: &Target, flaky: bool, hit_by: Option<HitBy>) -> (r: bool)
    ensures
        r == (!(*target is Job) && !flaky && hit_by is None),
        !r ==> forall|a: bool, b: bool| outcome_spec(*target, flaky, hit_by, a) == outcome_spec(*target, flaky, hit_by, b),
{
    !matches!(target, Target::Job) && !flaky && hit_by.is_none()
}

pub fn outcome(target: &Target, flaky: bool, hit_by: Option<HitBy>, retried: bool) -> (r: Outcome)
    ensures
        r == outcome_spec(*target, flaky, hit_by, retried),
{
    if matches!(target, Target::Job) {
        Outcome::Unattributed
    } else if flaky {
        Outcome::Flaky
    } else if hit_by.is_some() {
        Outcome::Hit
    } else if retried {
        Outcome::Unconfirmed
    } else {
        Outcome::Miss
    }
}

/// Whether `row` holds a job named `job` that succeeded.
pub open spec fn passed_job(row: Row, job: Seq<char>) -> bool {
    exists|k: int| 0 <= k < row.jobs.len() && (#[trigger] row.jobs@[k]).name@ == job
        && row.jobs@[k].conclusion@ == "success"@
}

fn passes(row: &Row, job: &str) -> (r: bool)
    ensures
        r == passed_job(*row, job@),
{
    let mut k: usize = 0;
    while k < row.jobs.len()
        invariant
            k <= row.jobs.len(),
            forall|q: int| 0 <= q < k ==> !((#[trigger] row.jobs@[q]).name@ == job@ && row.jobs@[q].conclusion@ == "success"@),
        decreases row.jobs.len() - k,
    {
        if same_str(row.jobs[k].name.as_str(), job) && same_str(row.jobs[k].conclusion.as_str(), "success") {
            return true;
        }
        k = k + 1;
    }
    false
}

/// Another attempt of the same run passed the job.
pub open spec fn flaky_spec(row: Row, job: Seq<char>, all: Seq<Row>) -> bool {
    exists|i: int| 0 <= i < all.len() && (#[trigger] all[i]).run_id == row.run_id && all[i].attempt != row.attempt
        && passed_job(all[i], job)
}

pub fn passed_on_another_attempt(row: &Row, job: &str, all: &[Row]) -> (r: bool)
    ensures
        r == flaky_spec(*row, job@, all@),
{
    let mut i: usize = 0;
    while i < all.len()
        invariant
            i <= all.len(),
            forall|q: int| 0 <= q < i ==> !((#[trigger] all@[q]).run_id == row.run_id && all@[q].attempt != row.attempt
                && passed_job(all@[q], job@)),
        decreases all.len() - i,
    {
        if all[i].run_id == row.run_id && all[i].attempt != row.attempt && passes(&all[i], job) {
            return true;
        }
        i = i + 1;
    }
    false
}

/// A later run of the same pull request that passed the job.
pub open spec fn later_pass(row: Row, job: Seq<char>, other: Row) -> bool {
    &&& row.pr is Some
    &&& other.pr == row.pr
    &&& seq_order(other.created_at@, row.created_at@) > 0
    &&& passed_job(other, job)
}

/// A later run of the same pull request passed the job with the same
/// change: the same head, or a head whose diff from its merge base has the
/// same patch id as ours (`theirs[i]` for `all[i]`, `ours` for `row`).
pub open spec fn same_change_spec(row: Row, job: Seq<char>, all: Seq<Row>, ours: Option<String>, theirs: Seq<Option<String>>) -> bool {
    exists|i: int| 0 <= i < all.len() && later_pass(row, job, #[trigger] all[i]) && (all[i].head_sha@ == row.head_sha@
        || (theirs[i] is Some && ours is Some && theirs[i]->0@ == ours->0@))
}

pub fn passed_with_same_change(
    row: &Row,
    job: &str,
    all: &[Row],
    ours: &Option<String>,
    theirs: &[Option<String>],
) -> (r: bool)
    requires
        theirs.len() == all.len(),
    ensures
        r == same_change_spec(*row, job@, all@, *ours, theirs@),
{
    if row.pr.is_none() {
        return false;
    }
    let mut i: usize = 0;
    while i < all.len()
        invariant
            i <= all.len() == theirs.len(),
            row.pr is Some,
            forall|q: int| 0 <= q < i ==> !(later_pass(*row, job@, #[trigger] all@[q]) && (all@[q].head_sha@ == row.head_sha@
                || (theirs@[q] is Some && *ours is Some && theirs@[q]->0@ == ours->0@))),
        decreases all.len() - i,
    {
        let other = &all[i];
        let later = other.pr == row.pr && compare_str(other.created_at.as_str(), row.created_at.as_str()) > 0
            && passes(other, job);
        if later {
            if same_str(other.head_sha.as_str(), row.head_sha.as_str()) {
                return true;
            }
            match (&theirs[i], ours) {
                (Some(t), Some(o)) => {
                    if same_str(t.as_str(), o.as_str()) {
                        return true;
                    }
                },
                _ => {},
            }
        }
        i = i + 1;
    }
    false
}

/// Whether `row` falls in the window.
pub open spec fn row_in(w: Window, row: Row) -> bool {
    seq_order(date_of(row.created_at@), w.from@) >= 0 && seq_order(date_of(row.created_at@), w.until@) <= 0
}

/// The rows in the window, by index, in the order they ran in: by
/// `created_at`, ties kept in dataset order.
pub open spec fn created_order(rows: Seq<Row>) -> spec_fn(int, int) -> bool {
    |a: int, b: int| seq_order(rows[a].created_at@, rows[b].created_at@) <= 0
}

/// The indices of the rows in the window, in dataset order.
pub open spec fn in_window(rows: Seq<Row>, w: Window, n: int) -> Seq<int>
    decreases n,
{
    if n <= 0 {
        Seq::empty()
    } else if row_in(w, rows[n - 1]) {
        in_window(rows, w, n - 1).push(n - 1)
    } else {
        in_window(rows, w, n - 1)
    }
}

/// The rows a replay reads, by index: those in the window, in the order
/// they ran.
pub fn replay_order(rows: &[Row], window: &Window) -> (r: Vec<usize>)
    ensures
        r@.map_values(|i: usize| i as int) == sort_by(in_window(rows@, *window, rows.len() as int), created_order(rows@)),
{
    let ghost le = created_order(rows@);
    let mut out: Vec<usize> = Vec::new();
    let mut i: usize = 0;
    while i < rows.len()
        invariant
            i <= rows.len(),
            le == created_order(rows@),
            out@.map_values(|x: usize| x as int) == sort_by(in_window(rows@, *window, i as int), le),
            forall|k: int| 0 <= k < out.len() ==> out@[k] < i,
        decreases rows.len() - i,
    {
        if window.contains(rows[i].created_at.as_str()) {
            let ghost s = out@.map_values(|x: usize| x as int);
            let mut j: usize = out.len();
            while j > 0 && compare_str(rows[out[j - 1]].created_at.as_str(), rows[i].created_at.as_str()) > 0
                invariant
                    j <= out.len(),
                    i < rows.len(),
                    s == out@.map_values(|x: usize| x as int),
                    le == created_order(rows@),
                    forall|k: int| 0 <= k < out.len() ==> out@[k] < i,
                    forall|k: int| j <= k < out.len() ==> !le(#[trigger] s[k], i as int),
                decreases j,
            {
                proof {
                    assert(s[j - 1] == out@[j - 1] as int);
                }
                j = j - 1;
            }
            proof {
                if j > 0 {
                    assert(s[j - 1] == out@[j - 1] as int);
                    assert(le(s[j - 1], i as int));
                }
                lemma_insert_by_at(s, i as int, le, j as int);
            }
            out.insert(j, i);
            proof {
                assert(out@.map_values(|x: usize| x as int) =~= s.insert(j as int, i as int));
                let w = in_window(rows@, *window, i as int);
                assert(in_window(rows@, *window, i as int + 1) == w.push(i as int));
                assert(w.push(i as int).drop_last() =~= w);
            }
        } else {
            proof {
                assert(in_window(rows@, *window, i as int + 1) == in_window(rows@, *window, i as int));
            }
        }
        i = i + 1;
    }
    out
}

impl Failure {
    /// A failure of `job` in `row`, with no hit recorded yet.
    pub fn of(row: &Row, job: &str, target: Target, outcome: Outcome, detail: &str, changed: &[String]) -> (r: Failure)
        ensures
            r.run_id == row.run_id,
            r.attempt == row.attempt,
            r.event@ == row.event@,
            r.pr == row.pr,
            r.head_sha@ == row.head_sha@,
            r.job@ == job@,
            r.target == target,
            r.outcome == outcome,
            r.hit_by is None,
            r.judged is None,
            r.detail@ == detail@,
            r.changed@.map_values(|s: String| s@) == changed@.map_values(|s: String| s@),
            r.changed.len() == changed.len(),
    {
        let mut kept: Vec<String> = Vec::new();
        let mut i: usize = 0;
        while i < changed.len()
            invariant
                i <= changed.len(),
                kept.len() == i,
                forall|k: int| 0 <= k < i ==> kept@[k]@ == changed@[k]@,
            decreases changed.len() - i,
        {
            kept.push(copy_str(changed[i].as_str()));
            i = i + 1;
        }
        proof {
            assert(kept@.map_values(|s: String| s@) =~= changed@.map_values(|s: String| s@));
        }
        Failure {
            run_id: row.run_id,
            attempt: row.attempt,
            event: copy_str(row.event.as_str()),
            pr: row.pr,
            head_sha: copy_str(row.head_sha.as_str()),
            job: copy_str(job),
            target,
            outcome,
            hit_by: None,
            judged: None,
            detail: copy_str(detail),
            changed: kept,
        }
    }
}

/// The job patterns of `[[replay.failures]]` and `[[replay.checks]]`, and
/// `replay.ignore`; an entry without a job pattern names every job.
pub struct Sources {
    pub failures: Vec<Option<Matcher>>,
    /// How each `[[replay.failures]]` entry reads a log, in step with `failures`.
    pub extractors: Vec<Extractor>,
    pub checks: Vec<Option<Matcher>>,
    /// The step pattern and the check id of each `[[replay.checks]]`
    /// entry, in step with `checks`.
    pub steps: Vec<Matcher>,
    pub ids: Vec<String>,
    pub ignore: Vec<Matcher>,
}

/// A job pattern names `job`.
pub open spec fn names_job(m: Option<Matcher>, job: Seq<char>) -> bool {
    match m {
        None => true,
        Some(m) => regex_finds(m.source(), job),
    }
}

fn any_names(ms: &Vec<Option<Matcher>>, job: &str) -> (r: bool)
    ensures
        r == exists|i: int| 0 <= i < ms.len() && names_job(#[trigger] ms@[i], job@),
{
    let mut i: usize = 0;
    while i < ms.len()
        invariant
            i <= ms.len(),
            forall|q: int| 0 <= q < i ==> !names_job(#[trigger] ms@[q], job@),
        decreases ms.len() - i,
    {
        let hit = match &ms[i] {
            None => true,
            Some(m) => m.is_match(job),
        };
        if hit {
            return true;
        }
        i = i + 1;
    }
    false
}

impl Sources {
    pub open spec fn ignores_spec(&self, job: Seq<char>) -> bool {
        exists|i: int| 0 <= i < self.ignore.len() && regex_finds((#[trigger] self.ignore@[i]).source(), job)
    }

    pub open spec fn watches_spec(&self, job: Seq<char>) -> bool {
        ||| exists|i: int| 0 <= i < self.failures.len() && names_job(#[trigger] self.failures@[i], job)
        ||| exists|i: int| 0 <= i < self.checks.len() && names_job(#[trigger] self.checks@[i], job)
    }

    /// `replay.ignore` names the job.
    pub fn ignores(&self, job: &str) -> (r: bool)
        ensures
            r == self.ignores_spec(job@),
    {
        let mut i: usize = 0;
        while i < self.ignore.len()
            invariant
                i <= self.ignore.len(),
                forall|q: int| 0 <= q < i ==> !regex_finds((#[trigger] self.ignore@[q]).source(), job@),
            decreases self.ignore.len() - i,
        {
            if self.ignore[i].is_match(job) {
                return true;
            }
            i = i + 1;
        }
        false
    }

    /// Some entry names the job.
    pub fn watches(&self, job: &str) -> (r: bool)
        ensures
            r == self.watches_spec(job@),
    {
        any_names(&self.failures, job) || any_names(&self.checks, job)
    }
}

/// A row's failed jobs, sorted out: those `replay.ignore` names, and those
/// no entry watches, are recorded as such; the rest are kept to be judged.
pub struct Screened {
    pub recorded: Vec<Failure>,
    /// Indices into the row's jobs.
    pub kept: Vec<usize>,
}

/// What becomes of the failed job `j` of `row` before any plan: ignored,
/// unwatched, or kept (`None`).
pub open spec fn screen_spec(sources: Sources, job: Job) -> Option<Outcome> {
    if sources.ignores_spec(job.name@) {
        Some(Outcome::Ignored)
    } else if !sources.watches_spec(job.name@) {
        Some(Outcome::Unwatched)
    } else {
        None
    }
}

/// The failed jobs of `row` among the first `n`, by index.
pub open spec fn failed_upto(row: Row, n: int) -> Seq<int>
    decreases n,
{
    if n <= 0 {
        Seq::empty()
    } else if row.jobs@[n - 1].is_failed() {
        failed_upto(row, n - 1).push(n - 1)
    } else {
        failed_upto(row, n - 1)
    }
}

pub open spec fn recorded_is(f: Failure, row: Row, job: Job, outcome: Outcome) -> bool {
    &&& f.run_id == row.run_id
    &&& f.attempt == row.attempt
    &&& f.event@ == row.event@
    &&& f.pr == row.pr
    &&& f.head_sha@ == row.head_sha@
    &&& f.job@ == job.name@
    &&& f.target == Target::Job
    &&& f.outcome == outcome
    &&& f.hit_by is None
    &&& f.detail@.len() == 0
    &&& f.changed.len() == 0
}

pub fn screen(row: &Row, sources: &Sources) -> (r: Screened)
    ensures
        r.kept@.map_values(|k: usize| k as int) == failed_upto(*row, row.jobs.len() as int).filter(
            |k: int| screen_spec(*sources, row.jobs@[k]) is None,
        ),
        r.recorded.len() == failed_upto(*row, row.jobs.len() as int).filter(
            |k: int| screen_spec(*sources, row.jobs@[k]) is Some,
        ).len(),
        forall|q: int| 0 <= q < r.recorded.len() ==> {
            let k = failed_upto(*row, row.jobs.len() as int).filter(
                |k: int| screen_spec(*sources, row.jobs@[k]) is Some,
            )[q];
            recorded_is(#[trigger] r.recorded@[q], *row, row.jobs@[k], screen_spec(*sources, row.jobs@[k])->0)
        },
{
    let ghost keep = |k: int| screen_spec(*sources, row.jobs@[k]) is None;
    let ghost drop = |k: int| screen_spec(*sources, row.jobs@[k]) is Some;
    let mut recorded: Vec<Failure> = Vec::new();
    let mut kept: Vec<usize> = Vec::new();
    let mut i: usize = 0;
    while i < row.jobs.len()
        invariant
            i <= row.jobs.len(),
            keep == (|k: int| screen_spec(*sources, row.jobs@[k]) is None),
            drop == (|k: int| screen_spec(*sources, row.jobs@[k]) is Some),
            kept@.map_values(|k: usize| k as int) == failed_upto(*row, i as int).filter(keep),
            recorded.len() == failed_upto(*row, i as int).filter(drop).len(),
            forall|q: int| 0 <= q < recorded.len() ==> {
                let k = failed_upto(*row, i as int).filter(drop)[q];
                recorded_is(#[trigger] recorded@[q], *row, row.jobs@[k], screen_spec(*sources, row.jobs@[k])->0)
            },
        decreases row.jobs.len() - i,
    {
        let job = &row.jobs[i];
        proof {
            reveal(Seq::filter);
            assert(failed_upto(*row, i as int + 1) == if row.jobs@[i as int].is_failed() {
                failed_upto(*row, i as int).push(i as int)
            } else {
                failed_upto(*row, i as int)
            });
        }
        if job.failed() {
            let ghost f0 = failed_upto(*row, i as int);
            proof {
                assert(f0.push(i as int).drop_last() =~= f0);
            }
            proof {
                assert(f0.push(i as int).filter(keep) == if keep(i as int) {
                    f0.filter(keep).push(i as int)
                } else {
                    f0.filter(keep)
                }) by {
                    reveal(Seq::filter);
                }
                assert(f0.push(i as int).filter(drop) == if drop(i as int) {
                    f0.filter(drop).push(i as int)
                } else {
                    f0.filter(drop)
                }) by {
                    reveal(Seq::filter);
                }
            }
            if sources.ignores(job.name.as_str()) {
                let ghost before = recorded@;
                recorded.push(Failure::of(row, job.name.as_str(), Target::Job, Outcome::Ignored, "", &[]));
                proof {
                    reveal_strlit("");
                    assert(screen_spec(*sources, row.jobs@[i as int]) == Some(Outcome::Ignored));
                    assert forall|q: int| 0 <= q < recorded.len() implies {
                        let k = failed_upto(*row, i as int + 1).filter(drop)[q];
                        recorded_is(#[trigger] recorded@[q], *row, row.jobs@[k], screen_spec(*sources, row.jobs@[k])->0)
                    } by {
                        if q < before.len() {
                            assert(recorded@[q] == before[q]);
                        }
                    }
                }
            } else if !sources.watches(job.name.as_str()) {
                let ghost before = recorded@;
                recorded.push(Failure::of(row, job.name.as_str(), Target::Job, Outcome::Unwatched, "", &[]));
                proof {
                    reveal_strlit("");
                    assert(screen_spec(*sources, row.jobs@[i as int]) == Some(Outcome::Unwatched));
                    assert forall|q: int| 0 <= q < recorded.len() implies {
                        let k = failed_upto(*row, i as int + 1).filter(drop)[q];
                        recorded_is(#[trigger] recorded@[q], *row, row.jobs@[k], screen_spec(*sources, row.jobs@[k])->0)
                    } by {
                        if q < before.len() {
                            assert(recorded@[q] == before[q]);
                        }
                    }
                }
            } else {
                let ghost before = kept@.map_values(|k: usize| k as int);
                kept.push(i);
                proof {
                    assert(screen_spec(*sources, row.jobs@[i as int]) is None);
                    assert(kept@.map_values(|k: usize| k as int) =~= before.push(i as int));
                }
            }
        }
        i = i + 1;
    }
    Screened { recorded, kept }
}

/// Every kept job of `row` recorded with one outcome and detail, as when
/// the commit can't be had or the plan fails.
pub fn record_all(row: &Row, kept: &[usize], outcome: Outcome, detail: &str) -> (r: Vec<Failure>)
    requires
        forall|q: int| 0 <= q < kept.len() ==> kept@[q] < row.jobs.len(),
    ensures
        r.len() == kept.len(),
        forall|q: int| 0 <= q < r.len() ==> {
            &&& (#[trigger] r@[q]).job@ == row.jobs@[kept@[q] as int].name@
            &&& r@[q].run_id == row.run_id
            &&& r@[q].attempt == row.attempt
            &&& r@[q].target == Target::Job
            &&& r@[q].outcome == outcome
            &&& r@[q].detail@ == detail@
            &&& r@[q].changed.len() == 0
            &&& r@[q].event@ == row.event@
            &&& r@[q].pr == row.pr
            &&& r@[q].head_sha@ == row.head_sha@
            &&& r@[q].hit_by is None
            &&& r@[q].judged is None
        },
{
    let mut out: Vec<Failure> = Vec::new();
    let mut i: usize = 0;
    while i < kept.len()
        invariant
            i <= kept.len(),
            forall|q: int| 0 <= q < kept.len() ==> kept@[q] < row.jobs.len(),
            out.len() == i,
            forall|q: int| 0 <= q < i ==> {
                &&& (#[trigger] out@[q]).job@ == row.jobs@[kept@[q] as int].name@
                &&& out@[q].run_id == row.run_id
                &&& out@[q].attempt == row.attempt
                &&& out@[q].target == Target::Job
                &&& out@[q].outcome == outcome
                &&& out@[q].detail@ == detail@
                &&& out@[q].changed.len() == 0
                &&& out@[q].event@ == row.event@
                &&& out@[q].pr == row.pr
                &&& out@[q].head_sha@ == row.head_sha@
                &&& out@[q].hit_by is None
                &&& out@[q].judged is None
            },
        decreases kept.len() - i,
    {
        out.push(Failure::of(row, row.jobs[kept[i]].name.as_str(), Target::Job, outcome, detail, &[]));
        i = i + 1;
    }
    out
}

impl Sources {
    /// Each job pattern has its extractor, and each check pattern its step
    /// and id.
    pub open spec fn wf(&self) -> bool {
        &&& self.extractors.len() == self.failures.len()
        &&& self.steps.len() == self.checks.len()
        &&& self.ids.len() == self.checks.len()
    }
}

/// A target as text.
pub enum TargetView {
    Test(Seq<char>),
    Check(Seq<char>),
    Job,
}

pub open spec fn tview(t: Target) -> TargetView {
    match t {
        Target::Test(p) => TargetView::Test(p@),
        Target::Check(c) => TargetView::Check(c@),
        Target::Job => TargetView::Job,
    }
}

pub open spec fn tviews(ts: Seq<Target>) -> Seq<TargetView> {
    ts.map_values(|t: Target| tview(t))
}

/// The test files among the paths of the first `n` annotations.
pub open spec fn noted(notes: Seq<Annotation>, tests: Seq<String>, n: int) -> Seq<TargetView>
    decreases n,
{
    if n <= 0 {
        Seq::empty()
    } else {
        let rest = noted(notes, tests, n - 1);
        if has(tests, notes[n - 1].path@) {
            rest.push(TargetView::Test(notes[n - 1].path@))
        } else {
            rest
        }
    }
}

/// The test files among the first `n` attributions.
pub open spec fn filed(atts: Seq<Attribution>, tests: Seq<String>, n: int) -> Seq<TargetView>
    decreases n,
{
    if n <= 0 {
        Seq::empty()
    } else {
        let rest = filed(atts, tests, n - 1);
        match view_of(atts[n - 1]) {
            AttributionView::File(f) => if has(tests, f) {
                rest.push(TargetView::Test(f))
            } else {
                rest
            },
            _ => rest,
        }
    }
}

/// What the first `n` failure entries find in `job`: for each entry that
/// names the job, the annotated test files, then the test files its
/// printed failures were attributed to.
pub open spec fn failure_targets(
    job: Job,
    sources: Sources,
    tests: Seq<String>,
    atts: Seq<Vec<Attribution>>,
    n: int,
) -> Seq<TargetView>
    decreases n,
{
    if n <= 0 {
        Seq::empty()
    } else {
        let rest = failure_targets(job, sources, tests, atts, n - 1);
        if names_job(sources.failures@[n - 1], job.name@) {
            rest + noted(job.annotations@, tests, job.annotations.len() as int) + filed(
                atts[n - 1]@,
                tests,
                atts[n - 1].len() as int,
            )
        } else {
            rest
        }
    }
}

/// One of the job's failed steps matches `step`.
pub open spec fn step_failed(job: Job, step: Matcher) -> bool {
    exists|s: int| 0 <= s < job.failed_steps.len() && regex_finds(step.source(), (#[trigger] job.failed_steps@[s])@)
}

/// The checks the first `n` check entries name: an entry names its check
/// when its job pattern names the job and one of the failed steps matches.
pub open spec fn check_targets(job: Job, sources: Sources, n: int) -> Seq<TargetView>
    decreases n,
{
    if n <= 0 {
        Seq::empty()
    } else {
        let rest = check_targets(job, sources, n - 1);
        if names_job(sources.checks@[n - 1], job.name@) && step_failed(job, sources.steps@[n - 1]) {
            rest.push(TargetView::Check(sources.ids@[n - 1]@))
        } else {
            rest
        }
    }
}

/// `s` with each later repeat left out.
pub open spec fn dedup(s: Seq<TargetView>) -> Seq<TargetView>
    decreases s.len(),
{
    if s.len() == 0 {
        s
    } else {
        let d = dedup(s.drop_last());
        if d.contains(s.last()) {
            d
        } else {
            d.push(s.last())
        }
    }
}

/// What a failed job names: its test files and checks, each once and in
/// the order found, or the job itself when it names none.
pub open spec fn targets_spec(job: Job, sources: Sources, tests: Seq<String>, atts: Seq<Vec<Attribution>>) -> Seq<TargetView> {
    let all = dedup(
        failure_targets(job, sources, tests, atts, sources.failures.len() as int) + check_targets(
            job,
            sources,
            sources.checks.len() as int,
        ),
    );
    if all.len() == 0 {
        seq![TargetView::Job]
    } else {
        all
    }
}

fn same_target(a: &Target, b: &Target) -> (r: bool)
    ensures
        r == (tview(*a) == tview(*b)),
{
    match (a, b) {
        (Target::Test(x), Target::Test(y)) => same_str(x.as_str(), y.as_str()),
        (Target::Check(x), Target::Check(y)) => same_str(x.as_str(), y.as_str()),
        (Target::Job, Target::Job) => true,
        _ => false,
    }
}

/// Adds `t` unless it is already there.
fn push_new(found: &mut Vec<Target>, t: Target)
    ensures
        tviews(final(found)@) == if tviews(old(found)@).contains(tview(t)) {
            tviews(old(found)@)
        } else {
            tviews(old(found)@).push(tview(t))
        },
{
    let ghost v = tviews(found@);
    let ghost f0 = found@;
    let mut i: usize = 0;
    while i < found.len()
        invariant
            i <= found.len(),
            found@ == f0,
            v == tviews(f0),
            forall|j: int| 0 <= j < i ==> tview(#[trigger] f0[j]) != tview(t),
        decreases found.len() - i,
    {
        if same_target(&found[i], &t) {
            proof {
                assert(v[i as int] == tview(t));
            }
            return;
        }
        i = i + 1;
    }
    found.push(t);
    proof {
        assert(tviews(found@) =~= v.push(tview(t)));
    }
}

/// Adds `t` to `found`, which holds `seen` without repeats, as `seen`
/// grows by `t`.
proof fn lemma_dedup_push(seen: Seq<TargetView>, x: TargetView)
    ensures
        dedup(seen.push(x)) == if dedup(seen).contains(x) {
            dedup(seen)
        } else {
            dedup(seen).push(x)
        },
{
    assert(seen.push(x).drop_last() =~= seen);
}

fn any_step(job: &Job, step: &Matcher) -> (r: bool)
    ensures
        r == step_failed(*job, *step),
{
    let mut s: usize = 0;
    while s < job.failed_steps.len()
        invariant
            s <= job.failed_steps.len(),
            forall|q: int| 0 <= q < s ==> !regex_finds(step.source(), (#[trigger] job.failed_steps@[q])@),
        decreases job.failed_steps.len() - s,
    {
        if step.is_match(job.failed_steps[s].as_str()) {
            return true;
        }
        s = s + 1;
    }
    false
}

/// What a failed job names, given, for each `[[replay.failures]]` entry,
/// the attributions of the failures its extractor printed in the job's log
/// (`attributed`, in step with the entries): the test files among the
/// job's annotations and those attributions, for each entry that names the
/// job; then the checks whose entry names the job and one of its failed
/// steps. Each once; the job itself when nothing is named.
pub fn targets(job: &Job, sources: &Sources, tests: &[String], attributed: &[Vec<Attribution>]) -> (r: Vec<Target>)
    requires
        sources.wf(),
        attributed.len() == sources.failures.len(),
    ensures
        tviews(r@) == targets_spec(*job, *sources, tests@, attributed@),
{
    let mut found: Vec<Target> = Vec::new();
    let ghost mut seen: Seq<TargetView> = Seq::empty();
    let mut i: usize = 0;
    while i < sources.failures.len()
        invariant
            i <= sources.failures.len(),
            sources.wf(),
            attributed.len() == sources.failures.len(),
            seen == failure_targets(*job, *sources, tests@, attributed@, i as int),
            tviews(found@) == dedup(seen),
        decreases sources.failures.len() - i,
    {
        let names = match &sources.failures[i] {
            None => true,
            Some(m) => m.is_match(job.name.as_str()),
        };
        if names {
            let ghost head = seen;
            proof {
                assert(head + noted(job.annotations@, tests@, 0) =~= head);
            }
            let mut k: usize = 0;
            while k < job.annotations.len()
                invariant
                    k <= job.annotations.len(),
                    seen == head + noted(job.annotations@, tests@, k as int),
                    tviews(found@) == dedup(seen),
                decreases job.annotations.len() - k,
            {
                let path = job.annotations[k].path.as_str();
                if has_file(tests, path) {
                    let t = Target::Test(copy_str(path));
                    proof {
                        lemma_dedup_push(seen, tview(t));
                        assert(head + noted(job.annotations@, tests@, k as int + 1) =~= seen.push(tview(t)));
                        seen = seen.push(tview(t));
                    }
                    push_new(&mut found, t);
                } else {
                    proof {
                        assert(head + noted(job.annotations@, tests@, k as int + 1) =~= seen);
                    }
                }
                k = k + 1;
            }
            let ghost mid = seen;
            let atts = &attributed[i];
            proof {
                assert(mid + filed(atts@, tests@, 0) =~= mid);
            }
            let mut k: usize = 0;
            while k < atts.len()
                invariant
                    k <= atts.len(),
                    seen == mid + filed(atts@, tests@, k as int),
                    tviews(found@) == dedup(seen),
                decreases atts.len() - k,
            {
                match &atts[k] {
                    Attribution::File(f) => {
                        if has_file(tests, f.as_str()) {
                            let t = Target::Test(copy_str(f.as_str()));
                            proof {
                                lemma_dedup_push(seen, tview(t));
                                assert(mid + filed(atts@, tests@, k as int + 1) =~= seen.push(tview(t)));
                                seen = seen.push(tview(t));
                            }
                            push_new(&mut found, t);
                        } else {
                            proof {
                                assert(mid + filed(atts@, tests@, k as int + 1) =~= seen);
                            }
                        }
                    },
                    Attribution::Unattributed(_) => {
                        proof {
                            assert(mid + filed(atts@, tests@, k as int + 1) =~= seen);
                        }
                    },
                }
                k = k + 1;
            }
            proof {
                assert(atts@ == attributed@[i as int]@);
            }
        }
        i = i + 1;
    }
    let ghost fails = seen;
    proof {
        assert(fails + check_targets(*job, *sources, 0) =~= fails);
    }
    let mut j: usize = 0;
    while j < sources.checks.len()
        invariant
            j <= sources.checks.len(),
            sources.wf(),
            seen == fails + check_targets(*job, *sources, j as int),
            tviews(found@) == dedup(seen),
        decreases sources.checks.len() - j,
    {
        let names = match &sources.checks[j] {
            None => true,
            Some(m) => m.is_match(job.name.as_str()),
        };
        if names && any_step(job, &sources.steps[j]) {
            let t = Target::Check(copy_str(sources.ids[j].as_str()));
            proof {
                lemma_dedup_push(seen, tview(t));
                assert(fails + check_targets(*job, *sources, j as int + 1) =~= seen.push(tview(t)));
                seen = seen.push(tview(t));
            }
            push_new(&mut found, t);
        } else {
            proof {
                assert(fails + check_targets(*job, *sources, j as int + 1) =~= seen);
            }
        }
        j = j + 1;
    }
    if found.len() == 0 {
        found.push(Target::Job);
        proof {
            assert(tviews(found@) =~= seq![TargetView::Job]);
        }
    }
    found
}

/// The job's log as one text, its lines joined.
pub fn job_log(job: &Job) -> (r: String)
    ensures
        r@ == join(job.log@.map_values(|l: String| l@), seq!['\n']),
{
    join_lines(job.log.as_slice())
}

/// A judged target as recorded.
pub open spec fn judged_is(
    f: Failure,
    row: Row,
    job: Seq<char>,
    t: Target,
    plan: Plan,
    flaky: bool,
    retried: bool,
    changed: Seq<String>,
) -> bool {
    let hit = in_plan_spec(plan, t);
    let o = outcome_spec(t, flaky, hit, retried);
    &&& f.run_id == row.run_id
    &&& f.attempt == row.attempt
    &&& f.event@ == row.event@
    &&& f.pr == row.pr
    &&& f.head_sha@ == row.head_sha@
    &&& f.job@ == job
    &&& f.target == t
    &&& f.outcome == o
    &&& f.hit_by == (if o == Outcome::Hit { hit } else { None })
    &&& f.judged is None
    &&& f.detail@.len() == 0
    &&& f.changed@.map_values(|s: String| s@) == changed.map_values(|s: String| s@)
}

/// Each target a kept job names, judged against the plan its commit got:
/// `flaky` when another attempt of the run passed the job, `retried` when a
/// later run passed it with the same change (asked only where
/// `needs_retry` says it decides). A hit records how its target came to be
/// in the plan.
pub fn judge(
    row: &Row,
    job: &str,
    found: Vec<Target>,
    plan: &Plan,
    flaky: bool,
    retried: bool,
    changed: &[String],
) -> (r: Vec<Failure>)
    ensures
        r.len() == found.len(),
        forall|q: int| 0 <= q < r.len() ==> judged_is(#[trigger] r@[q], *row, job@, found@[q], *plan, flaky, retried, changed@),
{
    let ghost all = found@;
    let mut rest = found;
    let mut out: Vec<Failure> = Vec::new();
    while rest.len() > 0
        invariant
            out.len() + rest.len() == all.len(),
            rest@ == all.subrange(out.len() as int, all.len() as int),
            forall|q: int| 0 <= q < out.len() ==> judged_is(#[trigger] out@[q], *row, job@, all[q], *plan, flaky, retried, changed@),
        decreases rest.len(),
    {
        let t = rest.remove(0);
        let hit = in_plan(plan, &t);
        let o = outcome(&t, flaky, hit, retried);
        let mut f = Failure::of(row, job, t, o, "", changed);
        if o == Outcome::Hit {
            f.hit_by = hit;
        }
        proof {
            reveal_strlit("");
            assert(all[out.len() as int] == t);
        }
        out.push(f);
        proof {
            assert(rest@ =~= all.subrange(out.len() as int, all.len() as int));
        }
    }
    out
}

/// A job pattern, if any, compiles.
pub open spec fn job_ok(job: Option<String>) -> bool {
    job matches Some(p) ==> regex_problem(p@) is None
}

/// `m` is what `job` compiles to: nothing for no pattern.
pub open spec fn job_is(m: Option<Matcher>, job: Option<String>) -> bool {
    match job {
        None => m is None,
        Some(p) => m matches Some(m) && m.source() == p@,
    }
}

/// Every pattern of the replay section compiles and every extractor is
/// one there is.
pub open spec fn sources_ok(c: Config) -> bool {
    let fs = c.replay.failures.view_items();
    let cs = c.replay.checks.view_items();
    let ig = c.replay.ignore.view_items();
    &&& forall|i: int| 0 <= i < fs.len() ==> job_ok((#[trigger] fs[i]).job) && named_ok(fs[i].extractor@, opt_view(fs[i].pattern))
    &&& forall|i: int| 0 <= i < cs.len() ==> job_ok((#[trigger] cs[i]).job) && regex_problem(cs[i].step@) is None
    &&& forall|i: int| 0 <= i < ig.len() ==> regex_problem((#[trigger] ig[i])@) is None
}

/// `s` holds the replay section's patterns, compiled, in order.
pub open spec fn sources_of(s: Sources, c: Config) -> bool {
    let fs = c.replay.failures.view_items();
    let cs = c.replay.checks.view_items();
    let ig = c.replay.ignore.view_items();
    &&& s.wf()
    &&& s.failures.len() == fs.len()
    &&& s.checks.len() == cs.len()
    &&& s.ignore.len() == ig.len()
    &&& forall|i: int| 0 <= i < fs.len() ==> job_is(#[trigger] s.failures@[i], fs[i].job)
    &&& forall|i: int| 0 <= i < fs.len() ==> (#[trigger] s.extractors@[i]).wf()
        && (fs[i].extractor@ == "vitest"@ <==> s.extractors@[i].kind == Kind::Vitest)
        && (fs[i].extractor@ == "jest"@ <==> s.extractors@[i].kind == Kind::Jest)
        && (s.extractors@[i].kind == Kind::Custom ==> (fs[i].pattern matches Some(p) && s.extractors@[i].line.source() == p@))
    &&& forall|i: int| 0 <= i < cs.len() ==> job_is(#[trigger] s.checks@[i], cs[i].job)
        && s.steps@[i].source() == cs[i].step@ && s.ids@[i]@ == cs[i].check@
    &&& forall|i: int| 0 <= i < ig.len() ==> (#[trigger] s.ignore@[i]).source() == ig[i]@
}

fn compile_job(job: &Option<String>) -> (r: Result<Option<Matcher>, String>)
    ensures
        r is Ok <==> job_ok(*job),
        r matches Ok(m) ==> job_is(m, *job),
{
    match job {
        None => Ok(None),
        Some(p) => match Matcher::new(p.as_str()) {
            Ok(m) => Ok(Some(m)),
            Err(e) => Err(e),
        },
    }
}

impl Sources {
    /// The replay section's patterns, compiled: each entry's job pattern
    /// (none names every job), each failure entry's extractor, each check
    /// entry's step pattern and id, and the ignore patterns. The first
    /// pattern or extractor that fails is the error.
    pub fn new(config: &Config) -> (r: Result<Sources, String>)
        ensures
            r is Ok <==> sources_ok(*config),
            r matches Ok(s) ==> sources_of(s, *config),
    {
        let fs = config.replay.failures.items();
        let cs = config.replay.checks.items();
        let ig = config.replay.ignore.items();
        let mut failures: Vec<Option<Matcher>> = Vec::new();
        let mut extractors: Vec<Extractor> = Vec::new();
        let mut i: usize = 0;
        while i < fs.len()
            invariant
                i <= fs.len(),
                fs@ == config.replay.failures.view_items(),
                failures.len() == i,
                extractors.len() == i,
                forall|q: int| 0 <= q < i ==> job_ok((#[trigger] fs@[q]).job) && named_ok(fs@[q].extractor@, opt_view(fs@[q].pattern)),
                forall|q: int| 0 <= q < i ==> job_is(#[trigger] failures@[q], fs@[q].job),
                forall|q: int| 0 <= q < i ==> (#[trigger] extractors@[q]).wf()
                    && (fs@[q].extractor@ == "vitest"@ <==> extractors@[q].kind == Kind::Vitest)
                    && (fs@[q].extractor@ == "jest"@ <==> extractors@[q].kind == Kind::Jest)
                    && (extractors@[q].kind == Kind::Custom ==> (fs@[q].pattern matches Some(p) && extractors@[q].line.source() == p@)),
            decreases fs.len() - i,
        {
            let job = match compile_job(&fs[i].job) {
                Ok(m) => m,
                Err(e) => return Err(e),
            };
            let pattern = match &fs[i].pattern {
                Some(p) => Some(p.as_str()),
                None => None,
            };
            proof {
                assert(str_opt(pattern) == opt_view(fs@[i as int].pattern));
            }
            let e = match Extractor::named(fs[i].extractor.as_str(), pattern) {
                Ok(e) => e,
                Err(m) => return Err(m),
            };
            failures.push(job);
            extractors.push(e);
            i = i + 1;
        }
        let mut checks: Vec<Option<Matcher>> = Vec::new();
        let mut steps: Vec<Matcher> = Vec::new();
        let mut ids: Vec<String> = Vec::new();
        let mut j: usize = 0;
        while j < cs.len()
            invariant
                j <= cs.len(),
                cs@ == config.replay.checks.view_items(),
                checks.len() == j,
                steps.len() == j,
                ids.len() == j,
                forall|q: int| 0 <= q < j ==> job_ok((#[trigger] cs@[q]).job) && regex_problem(cs@[q].step@) is None,
                forall|q: int| 0 <= q < j ==> job_is(#[trigger] checks@[q], cs@[q].job)
                    && steps@[q].source() == cs@[q].step@ && ids@[q]@ == cs@[q].check@,
            decreases cs.len() - j,
        {
            let job = match compile_job(&cs[j].job) {
                Ok(m) => m,
                Err(e) => return Err(e),
            };
            let step = match Matcher::new(cs[j].step.as_str()) {
                Ok(m) => m,
                Err(e) => return Err(e),
            };
            checks.push(job);
            steps.push(step);
            ids.push(copy_str(cs[j].check.as_str()));
            j = j + 1;
        }
        let mut ignore: Vec<Matcher> = Vec::new();
        let mut k: usize = 0;
        while k < ig.len()
            invariant
                k <= ig.len(),
                ig@ == config.replay.ignore.view_items(),
                ignore.len() == k,
                forall|q: int| 0 <= q < k ==> regex_problem((#[trigger] ig@[q])@) is None,
                forall|q: int| 0 <= q < k ==> (#[trigger] ignore@[q]).source() == ig@[q]@,
            decreases ig.len() - k,
        {
            let m = match Matcher::new(ig[k].as_str()) {
                Ok(m) => m,
                Err(e) => return Err(e),
            };
            ignore.push(m);
            k = k + 1;
        }
        Ok(Sources { failures, extractors, checks, steps, ids, ignore })
    }
}

} // verus!
