use fairlead::replay::fetch::merge_queue_branch;
use fairlead::replay::dataset::{fresh_rows, log_excerpt, Job, Row};
use fairlead::replay::extract::Extractor;
use fairlead::replay::fetch::{
    answer, gone, job_of, listing_path, next_attempt, page_done, row_of, wanted, week, workflow_problem, Next,
    NoteListing, RunListing, StepListing,
};
use fairlead::replay::window::add_days;

#[test]
fn a_merge_queue_branch_names_its_pull_request_and_base() {
    assert_eq!(
        merge_queue_branch("gh-readonly-queue/main/pr-42-cafe1234"),
        Some((42, "cafe1234".into()))
    );
    assert_eq!(
        merge_queue_branch("gh-readonly-queue/release/v2/pr-7-abc"),
        Some((7, "abc".into()))
    );
    assert_eq!(merge_queue_branch("feature/x"), None);
}

#[test]
fn a_queue_branch_without_a_number_names_nothing() {
    assert_eq!(merge_queue_branch("gh-readonly-queue/main/pr-x-abc"), None);
    assert_eq!(merge_queue_branch("gh-readonly-queue/main/pr-7"), None);
}


#[test]
fn a_refusal_keeps_the_rows_and_any_other_status_is_named() {
    assert!(answer(200, "/x").is_ok());
    assert_eq!(
        answer(429, "/x").unwrap_err(),
        "GitHub refused /x with 429 (rate limit or permissions); rows so far are kept"
    );
    assert_eq!(answer(500, "/x").unwrap_err(), "GitHub answered 500 for /x");
    assert!(gone(404) && gone(410) && !gone(403));
}

#[test]
fn a_first_attempt_that_ran_nothing_is_not_wanted() {
    assert!(!wanted(Some(1), "cancelled"));
    assert!(!wanted(None, "skipped"));
    assert!(wanted(Some(2), "cancelled"));
    assert!(wanted(Some(1), "failure"));
}

#[test]
fn a_page_is_the_last_when_short_or_at_the_total() {
    assert!(page_done(3, 1, 1000));
    assert!(!page_done(100, 1, 250));
    assert!(page_done(100, 3, 250));
    assert!(page_done(100, u64::MAX, u64::MAX));
}

#[test]
fn a_workflow_is_a_file_name_or_an_id() {
    assert_eq!(workflow_problem("ci.yml"), None);
    assert_eq!(workflow_problem("123"), None);
    assert_eq!(workflow_problem("a/b"), Some("`a/b` isn't a workflow file name or id".to_string()));
    assert_eq!(workflow_problem(""), Some("`` isn't a workflow file name or id".to_string()));
}

#[test]
fn weeks_run_to_the_last_day_or_today() {
    assert_eq!(
        week("2026-01-01", Some("2026-01-20"), "2026-02-01").unwrap(),
        ("2026-01-01..2026-01-07".to_string(), Some("2026-01-08".to_string()))
    );
    assert_eq!(
        week("2026-01-15", Some("2026-01-20"), "2026-02-01").unwrap(),
        ("2026-01-15..2026-01-20".to_string(), None)
    );
    assert_eq!(
        week("2026-01-29", None, "2026-02-01").unwrap(),
        ("2026-01-29..2026-02-04".to_string(), None)
    );
    assert_eq!(week("soon", None, "2026-02-01").unwrap_err(), "`soon` isn't a date");
    assert_eq!(add_days("2024-02-28", 1), Some("2024-02-29".to_string()));
    assert_eq!(add_days("2026-12-31", 1), Some("2027-01-01".to_string()));
}

#[test]
fn a_listing_asks_for_completed_runs_a_page_at_a_time() {
    assert_eq!(
        listing_path("/repos/o/r/actions/runs", "pull_request", "2026-01-01..2026-01-07", 2),
        "/repos/o/r/actions/runs?event=pull_request&status=completed&created=2026-01-01..2026-01-07&per_page=100&page=2"
    );
}

fn jest() -> Extractor {
    Extractor::named("jest", None).unwrap()
}

#[test]
fn a_failed_job_keeps_its_failed_steps_failure_annotations_and_excerpt() {
    let steps = vec![
        StepListing { name: "setup".into(), conclusion: "success".into() },
        StepListing { name: "test".into(), conclusion: "failure".into() },
    ];
    let notes = vec![
        NoteListing { level: "failure".into(), path: "src/a.test.ts".into(), title: "t".into() },
        NoteListing { level: "warning".into(), path: "src/b.ts".into(), title: "w".into() },
        NoteListing { level: "failure".into(), path: ".github/workflows/ci.yml".into(), title: "x".into() },
    ];
    let j = job_of(&jest(), "unit", "failure", &steps, &notes, Some("ok\nFAIL a.test.ts\nboom\n"));
    assert_eq!(j.failed_steps, ["test"]);
    assert_eq!(j.annotations.len(), 1);
    assert_eq!(j.annotations[0].path, "src/a.test.ts");
    assert!(!j.annotations_capped);
    assert_eq!(j.log, ["FAIL a.test.ts", "boom"]);
    let passed = job_of(&jest(), "lint", "success", &steps, &notes, None);
    assert!(passed.failed_steps.is_empty() && passed.annotations.is_empty() && passed.log.is_empty());
}

#[test]
fn ten_annotations_may_be_capped() {
    let notes: Vec<NoteListing> = (0..10)
        .map(|i| NoteListing { level: "failure".into(), path: format!("t{i}.ts"), title: String::new() })
        .collect();
    assert!(job_of(&jest(), "unit", "failure", &[], &notes, None).annotations_capped);
}

fn failed(name: &str) -> Job {
    Job {
        name: name.into(),
        conclusion: "failure".into(),
        failed_steps: vec![],
        annotations: vec![],
        annotations_capped: false,
        log: vec![],
    }
}

#[test]
fn a_merge_queue_row_reads_its_pull_request_from_the_branch() {
    let run = RunListing {
        id: 9,
        name: "ci".into(),
        head_sha: "h".into(),
        head_branch: "gh-readonly-queue/main/pr-42-cafe".into(),
        created_at: "2026-01-01T00:00:00Z".into(),
    };
    let r = row_of("o/r", &run, "merge_group", 2, vec![failed("unit")], Some((1, "x".into())), Some("y".into()));
    assert_eq!((r.pr, r.base_sha.as_deref()), (Some(42), Some("cafe")));
    assert_eq!(r.conclusion, "failure");
    assert_eq!((r.run_id, r.attempt, r.workflow.as_str()), (9, 2, "ci"));
    let p = row_of("o/r", &run, "pull_request", 1, vec![], Some((7, "main".into())), Some("b".into()));
    assert_eq!((p.pr, p.base_sha.as_deref(), p.conclusion.as_str()), (Some(7), Some("b"), "success"));
}

#[test]
fn a_seen_attempt_is_skipped_and_the_limit_stops_the_fetch() {
    let mut seen = vec![(1, 1)];
    assert_eq!(next_attempt(&mut seen, 1, 1, 0, None), Next::Skip);
    assert_eq!(next_attempt(&mut seen, 1, 2, 0, Some(1)), Next::Fetch);
    assert_eq!(next_attempt(&mut seen, 2, 1, 1, Some(1)), Next::Limit);
    assert_eq!(seen, [(1, 1), (1, 2), (2, 1)]);
}

#[test]
fn the_excerpt_keeps_failures_and_what_follows() {
    let log = "ok\n FAIL  a.test.ts > t\nError: x\nat y\nat z\nok\n";
    assert_eq!(log_excerpt(&jest(), log), [" FAIL  a.test.ts > t", "Error: x", "at y"]);
}

#[test]
fn a_summary_line_is_kept() {
    let log = "a\n\u{1b}[31m3 tests failed:\u{1b}[0m  \nb\n";
    assert_eq!(log_excerpt(&jest(), log), ["\u{1b}[31m3 tests failed:\u{1b}[0m"]);
}

fn row(run_id: u64, attempt: u32) -> Row {
    Row {
        repo: "o/r".into(),
        run_id,
        attempt,
        event: "pull_request".into(),
        workflow: "ci".into(),
        pr: Some(1),
        head_sha: "a".into(),
        base_sha: None,
        created_at: "2026-09-01T00:00:00Z".into(),
        conclusion: "failure".into(),
        jobs: Vec::new(),
    }
}

#[test]
fn append_skips_rows_already_recorded() {
    assert_eq!(fresh_rows(&[], &[row(1, 1), row(1, 2)]), [0, 1]);
    assert_eq!(fresh_rows(&[(1, 1), (1, 2)], &[row(1, 2), row(2, 1), row(2, 1)]), [1]);
}
