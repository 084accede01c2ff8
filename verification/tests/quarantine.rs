use fairlead::config::Quarantine;
use fairlead::matcher::Matcher;
use fairlead::replay::quarantine::{apply, Status};
use fairlead::replay::run::{Failure, Outcome, Target};

fn failure(pr: u64, job: &str, outcome: Outcome) -> Failure {
    Failure {
        run_id: pr,
        attempt: 1,
        event: "pull_request".into(),
        pr: Some(pr),
        head_sha: String::new(),
        job: job.into(),
        target: Target::Test("t.test.ts".into()),
        outcome,
        hit_by: None,
        judged: None,
        detail: String::new(),
        changed: Vec::new(),
    }
}

fn entry(job: &str) -> (Quarantine, Matcher) {
    let q = Quarantine {
        path: "t.test.ts".into(),
        job: job.into(),
        reason: "flaky".into(),
        until: "2099-01-01".into(),
    };
    (q, Matcher::new(job).unwrap())
}

#[test]
fn absorbs_unconfirmed_and_names_the_jobs_it_reached() {
    let mut fs = vec![
        failure(1, "unit linux", Outcome::Unconfirmed),
        failure(2, "unit windows", Outcome::Miss),
        failure(3, "unit windows", Outcome::Flaky),
    ];
    let e = &apply(&[entry("unit")], &mut fs, "2026-09-01")[0];
    assert_eq!(e.status, Status::Active);
    assert_eq!((e.absorbed, e.would_unconfirmed, e.would_miss), (2, 1, 1));
    assert_eq!(e.jobs, ["unit linux", "unit windows"]);
    assert_eq!(fs[0].judged, Some(Outcome::Unconfirmed));
    assert_eq!(
        fs[2].outcome,
        Outcome::Flaky,
        "a flaky failure is left as it is"
    );
}

#[test]
fn stale_when_the_test_never_failed_or_only_flakily() {
    let mut none: Vec<Failure> = Vec::new();
    let e = &apply(&[entry("^win$")], &mut none, "2026-09-01")[0];
    assert_eq!(e.status, Status::Stale);
    let mut flaky: Vec<Failure> = (1..=3)
        .map(|pr| failure(pr, "win", Outcome::Flaky))
        .collect();
    let e = &apply(&[entry("^win$")], &mut flaky, "2026-09-01")[0];
    assert_eq!((e.status, e.pulls, e.absorbed), (Status::Stale, 3, 0));
}

#[test]
fn an_entry_past_its_date_or_seen_in_another_job_does_not_apply() {
    let mut fs = vec![
        failure(1, "unit", Outcome::Miss),
        failure(2, "unit", Outcome::Miss),
        failure(3, "e2e", Outcome::Miss),
    ];
    let e = &apply(&[entry("^unit$")], &mut fs, "2026-09-01")[0];
    assert_eq!(e.status, Status::Unverified);
    assert_eq!(e.other_jobs, ["e2e"]);
    assert_eq!(fs[0].outcome, Outcome::Miss);
    let (mut q, m) = entry("unit");
    q.until = "2020-01-01".into();
    let e = &apply(&[(q, m)], &mut fs, "2026-09-01")[0];
    assert_eq!(e.status, Status::Expired);
    assert_eq!(Status::Expired.name(), "expired");
}
