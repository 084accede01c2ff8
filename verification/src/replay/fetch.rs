//! `replay fetch`: every completed pull request and merge queue run in the
//! window, each attempt as its own row. Talking to the API is the
//! application's; reading what a run's branch says is here.
use vstd::prelude::*;

use crate::replay::dataset::{capped, excerpt_upto, log_excerpt, Annotation, Job, Row};
use crate::replay::extract::Extractor;
use crate::replay::window::{add_days, civil, date_text, days, parse_date};
use crate::text::{
    chars_of, chars_range, copy_str, decimal, find_char, first_index, lines_of, parse_u64, parse_u64_chars, push_char,
    push_decimal, push_str, rfind_in, rfind_sub, same_str, seq_order, starts_with_lit, string_of,
};

verus! {

pub struct Options<'a> {
    pub repo: &'a str,
    /// The first day to list, `YYYY-MM-DD`.
    pub since: &'a str,
    /// A clone to fetch each head into and read base commits from.
    pub clone: Option<String>,
    /// Stop after this many run attempts, for a partial fetch.
    pub limit: Option<usize>,
    /// Only runs of these workflows, by file name or id; every workflow when empty.
    pub workflows: Vec<String>,
    /// The last day to list; the listing runs to the present without one.
    pub until: Option<&'a str>,
}

/// Why a fetch stopped.
#[derive(Debug, Clone, PartialEq, Eq)]
pub enum Stop {
    /// Every run in the window is recorded.
    Complete,
    /// `limit` new attempts were recorded; more remain.
    Limit,
    /// The API refused or failed; the rows so far are still good.
    Error(String),
}

pub open spec fn queue_prefix() -> Seq<char> {
    "gh-readonly-queue/"@
}

pub open spec fn pr_marker() -> Seq<char> {
    "/pr-"@
}

/// What a merge queue branch names: `gh-readonly-queue/<base>/pr-<N>-<sha>`
/// gives `N` and `sha`.
pub open spec fn queue_branch(b: Seq<char>) -> Option<(int, Seq<char>)> {
    if !queue_prefix().is_prefix_of(b) {
        None
    } else {
        let rest = b.skip(queue_prefix().len() as int);
        match rfind_sub(rest, pr_marker()) {
            None => None,
            Some(at) => {
                let tail = rest.skip(at + 4);
                match first_index(tail, '-') {
                    None => None,
                    Some(d) => match parse_u64(tail.take(d)) {
                        Some(n) => Some((n, tail.skip(d + 1))),
                        None => None,
                    },
                }
            },
        }
    }
}

/// `gh-readonly-queue/<base>/pr-<N>-<base sha>`: the queue's PR and base.
pub fn merge_queue_branch(branch: &str) -> (r: Option<(u64, String)>)
    ensures
        match queue_branch(branch@) {
            Some((n, sha)) => r matches Some(x) && x.0 as int == n && x.1@ == sha,
            None => r is None,
        },
{
    let v = chars_of(branch);
    let prefix = chars_of("gh-readonly-queue/");
    proof {
        reveal_strlit("gh-readonly-queue/");
        reveal_strlit("/pr-");
    }
    if !crate::text::starts_with_lit(&v, "gh-readonly-queue/") {
        return None;
    }
    let rest = chars_range(&v, prefix.len(), v.len());
    let marker = chars_of("/pr-");
    let at = match rfind_in(&rest, &marker) {
        Some(at) => at,
        None => return None,
    };
    proof {
        assert(rest@ =~= v@.skip(queue_prefix().len() as int));
        crate::text::lemma_rfind_sub(rest@, pr_marker());
        assert(marker@ == pr_marker());
    }
    let tail = chars_range(&rest, at + 4, rest.len());
    proof {
        assert(tail@ =~= rest@.skip(at as int + 4));
    }
    queue_tail(&tail)
}

fn queue_tail(tail: &Vec<char>) -> (r: Option<(u64, String)>)
    ensures
        match first_index(tail@, '-') {
            None => r is None,
            Some(d) => match parse_u64(tail@.take(d)) {
                Some(n) => r matches Some(x) && x.0 as int == n && x.1@ == tail@.skip(d + 1),
                None => r is None,
            },
        },
{
    let d = match find_char(tail, '-') {
        Some(d) => d,
        None => return None,
    };
    proof {
        crate::text::lemma_first_index(tail@, '-');
        assert(first_index(tail@, '-') == Some(d as int));
        assert((d as int) < tail@.len());
    }
    let number = chars_range(tail, 0, d);
    let n = tail.len();
    let sha = chars_range(tail, d + 1, n);
    proof {
        assert(number@ =~= tail@.take(d as int));
        assert(sha@ =~= tail@.skip(d as int + 1));
    }
    match parse_u64_chars(&number) {
        Some(n) => {
            proof {
                let body = if number@.len() > 0 && number@[0] == '+' { number@.drop_first() } else { number@ };
                crate::text::lemma_digits_value_nonneg(body);
            }
            Some((n, string_of(&sha)))
        },
        None => None,
    }
}

} // verus!

verus! {

/// Runs asked for per page.
pub const PER_PAGE: usize = 100;
/// GitHub stops adding annotations past a per-step limit; a job with this
/// many may be missing some.
pub const ANNOTATION_CAP: usize = 10;

pub open spec fn refused_text(path: Seq<char>, status: u16) -> Seq<char> {
    "GitHub refused "@ + path + " with "@ + decimal(status as nat) + " (rate limit or permissions); rows so far are kept"@
}

pub open spec fn answered_text(path: Seq<char>, status: u16) -> Seq<char> {
    "GitHub answered "@ + decimal(status as nat) + " for "@ + path
}

/// What an answer to `path` with `status` means: its body for 200; a
/// refusal (rate limit or permissions) for 403 and 429; any other status
/// is an error that names it.
pub fn answer(status: u16, path: &str) -> (r: Result<(), String>)
    ensures
        status == 200 ==> r is Ok,
        (status == 403 || status == 429) ==> (r matches Err(e) && e@ == refused_text(path@, status)),
        status != 200 && status != 403 && status != 429 ==> (r matches Err(e) && e@ == answered_text(path@, status)),
{
    if status == 200 {
        return Ok(());
    }
    let mut e = String::new();
    if status == 403 || status == 429 {
        push_str(&mut e, "GitHub refused ");
        push_str(&mut e, path);
        push_str(&mut e, " with ");
        push_decimal(&mut e, status as u64);
        push_str(&mut e, " (rate limit or permissions); rows so far are kept");
        proof {
            assert(e@ =~= refused_text(path@, status));
        }
    } else {
        push_str(&mut e, "GitHub answered ");
        push_decimal(&mut e, status as u64);
        push_str(&mut e, " for ");
        push_str(&mut e, path);
        proof {
            assert(e@ =~= answered_text(path@, status));
        }
    }
    Err(e)
}

/// A resource GitHub no longer has (404, 410) reads as nothing.
pub fn gone(status: u16) -> (r: bool)
    ensures
        r == (status == 404 || status == 410),
{
    status == 404 || status == 410
}

/// A run worth a row: not a first attempt (an attempt of one when none is
/// given) that was cancelled or skipped, which ran nothing.
pub open spec fn wanted_spec(attempt: Option<u64>, conclusion: Seq<char>) -> bool {
    let first = match attempt {
        Some(a) => a == 1,
        None => true,
    };
    !(first && (conclusion == "cancelled"@ || conclusion == "skipped"@))
}

pub fn wanted(attempt: Option<u64>, conclusion: &str) -> (r: bool)
    ensures
        r == wanted_spec(attempt, conclusion@),
{
    let first = match attempt {
        Some(a) => a == 1,
        None => true,
    };
    !(first && (same_str(conclusion, "cancelled") || same_str(conclusion, "skipped")))
}

/// A listing page is the last when it is short or covers the total.
pub fn page_done(batch: usize, page: u64, total: u64) -> (r: bool)
    ensures
        r == (batch < PER_PAGE || page * PER_PAGE >= total),
{
    if batch < PER_PAGE {
        return true;
    }
    if page > u64::MAX / 100 {
        proof {
            assert(page * 100 >= total) by (nonlinear_arith)
                requires
                    page > u64::MAX / 100,
                    total <= u64::MAX,
            ;
        }
        return true;
    }
    page * 100 >= total
}

/// A workflow is named by its file name or id: letters, digits, `.`, `_`
/// and `-`, at least one.
pub open spec fn workflow_char(c: char) -> bool {
    ('a' <= c <= 'z') || ('A' <= c <= 'Z') || ('0' <= c <= '9') || c == '.' || c == '_' || c == '-'
}

pub open spec fn workflow_ok(w: Seq<char>) -> bool {
    w.len() > 0 && forall|i: int| 0 <= i < w.len() ==> workflow_char(#[trigger] w[i])
}

/// Why `w` can't name a workflow, if it can't.
pub fn workflow_problem(w: &str) -> (r: Option<String>)
    ensures
        r is None <==> workflow_ok(w@),
        r matches Some(e) ==> e@ == "`"@ + w@ + "` isn't a workflow file name or id"@,
{
    let v = chars_of(w);
    let mut ok = v.len() > 0;
    let mut i: usize = 0;
    while i < v.len()
        invariant
            i <= v.len(),
            v@ == w@,
            ok == (v.len() > 0 && forall|k: int| 0 <= k < i ==> workflow_char(#[trigger] v@[k])),
        decreases v.len() - i,
    {
        let c = v[i];
        let good = ('a' <= c && c <= 'z') || ('A' <= c && c <= 'Z') || ('0' <= c && c <= '9') || c == '.' || c == '_'
            || c == '-';
        ok = ok && good;
        i = i + 1;
    }
    if ok {
        None
    } else {
        let mut e = copy_str("`");
        push_str(&mut e, w);
        push_str(&mut e, "` isn't a workflow file name or id");
        Some(e)
    }
}

/// One week of the listing, from `from`: the `created` range to ask for
/// and the day the next week starts, or none when this week is the last
/// (it reaches `until`, or, without one, today). An error when a day isn't
/// a date.
pub open spec fn week_spec(from: Seq<char>, until: Option<Seq<char>>, today: Seq<char>) -> Result<(Seq<char>, Option<Seq<char>>), Seq<char>> {
    match parse_date(from) {
        None => Err("`"@ + from + "` isn't a date"@),
        Some(t) => {
            let to = date_text(civil(days(t.0, t.1, t.2) + 6));
            let last = (until matches Some(u) && seq_order(to, u) >= 0);
            let created = if last { from + ".."@ + until->0 } else { from + ".."@ + to };
            let stop = last || (until is None && seq_order(to, today) >= 0);
            if stop {
                Ok((created, None))
            } else {
                match parse_date(to) {
                    None => Err("`"@ + to + "` isn't a date"@),
                    Some(t2) => Ok((created, Some(date_text(civil(days(t2.0, t2.1, t2.2) + 1))))),
                }
            }
        },
    }
}

pub open spec fn week_view(r: Result<(String, Option<String>), String>) -> Result<(Seq<char>, Option<Seq<char>>), Seq<char>> {
    match r {
        Ok((c, n)) => Ok((c@, match n {
            Some(x) => Some(x@),
            None => None,
        })),
        Err(e) => Err(e@),
    }
}

fn not_a_date(d: &str) -> (r: String)
    ensures
        r@ == "`"@ + d@ + "` isn't a date"@,
{
    let mut e = copy_str("`");
    push_str(&mut e, d);
    push_str(&mut e, "` isn't a date");
    e
}

/// The listing goes a week at a time, since one query returns at most a
/// thousand runs.
pub fn week(from: &str, until: Option<&str>, today: &str) -> (r: Result<(String, Option<String>), String>)
    ensures
        week_view(r) == week_spec(from@, crate::replay::extract::str_opt(until), today@),
{
    let to = match add_days(from, 6) {
        Some(t) => t,
        None => return Err(not_a_date(from)),
    };
    let last = match until {
        Some(u) => crate::text::compare_str(to.as_str(), u) >= 0,
        None => false,
    };
    let mut created = copy_str(from);
    push_str(&mut created, "..");
    match until {
        Some(u) => if last {
            push_str(&mut created, u);
        } else {
            push_str(&mut created, to.as_str());
        },
        None => push_str(&mut created, to.as_str()),
    }
    let stop = last || (until.is_none() && crate::text::compare_str(to.as_str(), today) >= 0);
    if stop {
        return Ok((created, None));
    }
    match add_days(to.as_str(), 1) {
        Some(next) => Ok((created, Some(next))),
        None => Err(not_a_date(to.as_str())),
    }
}

/// The path that lists a page of completed runs of `event` created in
/// `created`, under `at`.
pub fn listing_path(at: &str, event: &str, created: &str, page: u64) -> (r: String)
    ensures
        r@ == at@ + "?event="@ + event@ + "&status=completed&created="@ + created@ + "&per_page=100&page="@ + decimal(page as nat),
{
    let mut p = copy_str(at);
    push_str(&mut p, "?event=");
    push_str(&mut p, event);
    push_str(&mut p, "&status=completed&created=");
    push_str(&mut p, created);
    push_str(&mut p, "&per_page=100&page=");
    push_decimal(&mut p, page);
    p
}

/// A step of a job as listed: name and conclusion.
pub struct StepListing {
    pub name: String,
    pub conclusion: String,
}

/// An annotation as listed: level, path and title.
pub struct NoteListing {
    pub level: String,
    pub path: String,
    pub title: String,
}

/// The names of the steps that failed, in order.
pub open spec fn failed_steps_of(steps: Seq<StepListing>) -> Seq<Seq<char>> {
    steps.filter(|s: StepListing| s.conclusion@ == "failure"@).map_values(|s: StepListing| s.name@)
}

/// A failure-level annotation outside `.github`.
pub open spec fn note_kept(n: NoteListing) -> bool {
    n.level@ == "failure"@ && !(".github"@.is_prefix_of(n.path@))
}

pub open spec fn notes_of(notes: Seq<NoteListing>) -> Seq<(Seq<char>, Seq<char>)> {
    notes.filter(|n: NoteListing| note_kept(n)).map_values(|n: NoteListing| (n.path@, n.title@))
}

/// A job as recorded: a job that didn't fail keeps its name and conclusion
/// only; a failed one keeps its failed steps, its kept annotations (capped
/// when GitHub listed `ANNOTATION_CAP` or more) and its log's excerpt.
pub open spec fn job_recorded(
    j: Job,
    e: Extractor,
    name: Seq<char>,
    conclusion: Seq<char>,
    steps: Seq<StepListing>,
    notes: Seq<NoteListing>,
    log: Option<Seq<char>>,
) -> bool {
    &&& j.name@ == name
    &&& j.conclusion@ == conclusion
    &&& if conclusion != "failure"@ {
        j.failed_steps.len() == 0 && j.annotations.len() == 0 && !j.annotations_capped && j.log.len() == 0
    } else {
        &&& j.failed_steps@.map_values(|s: String| s@) == failed_steps_of(steps)
        &&& j.annotations_capped == (notes.len() >= ANNOTATION_CAP)
        &&& j.annotations@.map_values(|a: Annotation| (a.path@, a.title@)) == notes_of(notes)
        &&& j.log@.map_values(|l: String| l@) == match log {
            Some(t) => capped(excerpt_upto(e, lines_of(t), lines_of(t).len() as int)),
            None => Seq::empty(),
        }
    }
}

/// A listed job, with its annotations and log where it failed, as a row
/// keeps it.
pub fn job_of(
    e: &Extractor,
    name: &str,
    conclusion: &str,
    steps: &[StepListing],
    notes: &[NoteListing],
    log: Option<&str>,
) -> (r: Job)
    ensures
        job_recorded(r, *e, name@, conclusion@, steps@, notes@, crate::replay::extract::str_opt(log)),
{
    let mut out = Job {
        name: copy_str(name),
        conclusion: copy_str(conclusion),
        failed_steps: Vec::new(),
        annotations: Vec::new(),
        annotations_capped: false,
        log: Vec::new(),
    };
    if !out.failed() {
        return out;
    }
    let ghost keep_step = |s: StepListing| s.conclusion@ == "failure"@;
    let mut i: usize = 0;
    while i < steps.len()
        invariant
            i <= steps.len(),
            keep_step == (|s: StepListing| s.conclusion@ == "failure"@),
            out.name@ == name@,
            out.conclusion@ == conclusion@,
            conclusion@ == "failure"@,
            out.annotations.len() == 0,
            out.log.len() == 0,
            out.failed_steps@.map_values(|s: String| s@) == steps@.take(i as int).filter(keep_step).map_values(|s: StepListing| s.name@),
        decreases steps.len() - i,
    {
        let ghost before = out.failed_steps@.map_values(|s: String| s@);
        proof {
            reveal(Seq::filter);
            assert(steps@.take(i as int + 1).drop_last() =~= steps@.take(i as int));
        }
        if same_str(steps[i].conclusion.as_str(), "failure") {
            out.failed_steps.push(copy_str(steps[i].name.as_str()));
            proof {
                assert(out.failed_steps@.map_values(|s: String| s@) =~= before.push(steps@[i as int].name@));
                assert(steps@.take(i as int + 1).filter(keep_step) == steps@.take(i as int).filter(keep_step).push(steps@[i as int]));
            }
        } else {
            proof {
                assert(out.failed_steps@.map_values(|s: String| s@) =~= before);
            }
        }
        proof {
            assert(steps@.take(i as int + 1).filter(keep_step).map_values(|s: StepListing| s.name@) =~= out.failed_steps@.map_values(|s: String| s@));
        }
        i = i + 1;
    }
    proof {
        assert(steps@.take(i as int) =~= steps@);
    }
    out.annotations_capped = notes.len() >= ANNOTATION_CAP;
    let ghost keep_note = |n: NoteListing| note_kept(n);
    let mut k: usize = 0;
    while k < notes.len()
        invariant
            k <= notes.len(),
            keep_note == (|n: NoteListing| note_kept(n)),
            out.name@ == name@,
            out.conclusion@ == conclusion@,
            conclusion@ == "failure"@,
            out.log.len() == 0,
            out.annotations_capped == (notes.len() >= ANNOTATION_CAP),
            out.failed_steps@.map_values(|s: String| s@) == failed_steps_of(steps@),
            out.annotations@.map_values(|a: Annotation| (a.path@, a.title@)) == notes@.take(k as int).filter(keep_note).map_values(|n: NoteListing| (n.path@, n.title@)),
        decreases notes.len() - k,
    {
        let ghost before = out.annotations@.map_values(|a: Annotation| (a.path@, a.title@));
        proof {
            reveal(Seq::filter);
            assert(notes@.take(k as int + 1).drop_last() =~= notes@.take(k as int));
        }
        let n = &notes[k];
        let kept = same_str(n.level.as_str(), "failure") && !starts_with_lit(&chars_of(n.path.as_str()), ".github");
        if kept {
            out.annotations.push(Annotation { path: copy_str(n.path.as_str()), title: copy_str(n.title.as_str()) });
            proof {
                assert(out.annotations@.map_values(|a: Annotation| (a.path@, a.title@)) =~= before.push((n.path@, n.title@)));
                assert(notes@.take(k as int + 1).filter(keep_note) == notes@.take(k as int).filter(keep_note).push(notes@[k as int]));
            }
        } else {
            proof {
                assert(out.annotations@.map_values(|a: Annotation| (a.path@, a.title@)) =~= before);
            }
        }
        proof {
            assert(notes@.take(k as int + 1).filter(keep_note).map_values(|n: NoteListing| (n.path@, n.title@)) =~= out.annotations@.map_values(|a: Annotation| (a.path@, a.title@)));
        }
        k = k + 1;
    }
    proof {
        assert(notes@.take(k as int) =~= notes@);
    }
    match log {
        Some(t) => {
            out.log = log_excerpt(e, t);
        },
        None => {
            proof {
                assert(out.log@.map_values(|l: String| l@) =~= Seq::<Seq<char>>::empty());
            }
        },
    }
    out
}

} // verus!

verus! {

/// A listed run, as far as a row needs it.
pub struct RunListing {
    pub id: u64,
    pub name: String,
    pub head_sha: String,
    pub head_branch: String,
    pub created_at: String,
}

/// Whether some job failed.
pub open spec fn any_failed(jobs: Seq<Job>) -> bool {
    exists|k: int| 0 <= k < jobs.len() && (#[trigger] jobs[k]).is_failed()
}

/// A run attempt as a row: a merge queue run takes its pull request and
/// base from its branch; any other takes the pull request found for its
/// head (`pull`) and the base found for it (`base`). The row failed when
/// a job failed.
pub open spec fn row_recorded(
    r: Row,
    repo: Seq<char>,
    run: RunListing,
    event: Seq<char>,
    attempt: u32,
    jobs: Seq<Job>,
    pull: Option<(u64, String)>,
    base: Option<String>,
) -> bool {
    &&& r.repo@ == repo
    &&& r.run_id == run.id
    &&& r.attempt == attempt
    &&& r.event@ == event
    &&& r.workflow@ == run.name@
    &&& r.head_sha@ == run.head_sha@
    &&& r.created_at@ == run.created_at@
    &&& r.jobs@ == jobs
    &&& r.conclusion@ == (if any_failed(jobs) { "failure"@ } else { "success"@ })
    &&& if event == "merge_group"@ {
        match queue_branch(run.head_branch@) {
            Some((n, sha)) => r.pr == Some(n as u64) && (r.base_sha matches Some(b) && b@ == sha),
            None => r.pr is None && r.base_sha is None,
        }
    } else {
        &&& r.pr == match pull {
            Some((n, _)) => Some(n),
            None => None,
        }
        &&& crate::replay::extract::opt_view(r.base_sha) == crate::replay::extract::opt_view(base)
    }
}

pub fn row_of(
    repo: &str,
    run: &RunListing,
    event: &str,
    attempt: u32,
    jobs: Vec<Job>,
    pull: Option<(u64, String)>,
    base: Option<String>,
) -> (r: Row)
    ensures
        row_recorded(r, repo@, *run, event@, attempt, jobs@, pull, base),
{
    let (pr, base_sha) = if same_str(event, "merge_group") {
        match merge_queue_branch(run.head_branch.as_str()) {
            Some((n, sha)) => (Some(n), Some(sha)),
            None => (None, None),
        }
    } else {
        let n = match pull {
            Some((n, _)) => Some(n),
            None => None,
        };
        (n, base)
    };
    let mut failed = false;
    let mut k: usize = 0;
    while k < jobs.len()
        invariant
            k <= jobs.len(),
            failed == exists|q: int| 0 <= q < k && (#[trigger] jobs@[q]).is_failed(),
        decreases jobs.len() - k,
    {
        if jobs[k].failed() {
            failed = true;
        }
        k = k + 1;
    }
    Row {
        repo: copy_str(repo),
        run_id: run.id,
        attempt,
        event: copy_str(event),
        workflow: copy_str(run.name.as_str()),
        pr,
        head_sha: copy_str(run.head_sha.as_str()),
        base_sha,
        created_at: copy_str(run.created_at.as_str()),
        conclusion: if failed { copy_str("failure") } else { copy_str("success") },
        jobs,
    }
}

/// What the fetch does with an attempt it lists.
#[derive(Debug, Clone, Copy, PartialEq, Eq, Structural)]
pub enum Next {
    /// Already recorded, or listed twice as runs shift between pages.
    Skip,
    /// The limit is reached: stop with the rows so far.
    Limit,
    /// Fetch its jobs and record it.
    Fetch,
}

/// An attempt is skipped when `seen` holds it, and otherwise joins it;
/// then the fetch stops once `rows` reached the limit.
pub fn next_attempt(seen: &mut Vec<(u64, u32)>, id: u64, attempt: u32, rows: usize, limit: Option<usize>) -> (r: Next)
    ensures
        old(seen)@.contains((id, attempt)) ==> r == Next::Skip && final(seen)@ == old(seen)@,
        !old(seen)@.contains((id, attempt)) ==> final(seen)@ == old(seen)@.push((id, attempt)) && r == (if (limit matches Some(l) && rows >= l) {
            Next::Limit
        } else {
            Next::Fetch
        }),
{
    let mut i: usize = 0;
    while i < seen.len()
        invariant
            i <= seen.len(),
            seen@ == old(seen)@,
            forall|k: int| 0 <= k < i ==> seen@[k] != (id, attempt),
        decreases seen.len() - i,
    {
        if seen[i].0 == id && seen[i].1 == attempt {
            proof {
                assert(seen@[i as int] == (id, attempt));
            }
            return Next::Skip;
        }
        i = i + 1;
    }
    seen.push((id, attempt));
    match limit {
        Some(l) => if rows >= l {
            Next::Limit
        } else {
            Next::Fetch
        },
        None => Next::Fetch,
    }
}

} // verus!
