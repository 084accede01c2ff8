use fairlead::config::TestClass;
use fairlead::matcher::Matcher;
use fairlead::plan::{CheckSelection, Plan, Reason, TestSelection};
use fairlead::replay::dataset::{Job, Row};
use fairlead::replay::report::{counts_lines, dir_glob, gate_met, miss, miss_lines, tally, unwatched_lines};
use fairlead::config::{CheckStep, Config, FailureSource, List};
use fairlead::replay::attribute::Attribution;
use fairlead::replay::dataset::Annotation;
use fairlead::replay::extract::Extractor;
use fairlead::replay::run::{
    in_plan, job_log, judge, needs_retry, outcome, passed_on_another_attempt, passed_with_same_change, record_all,
    replay_order, screen, targets, Failure, HitBy, Outcome, Sources, Target,
};
use fairlead::replay::window::Window;

fn job(name: &str, conclusion: &str) -> Job {
    Job {
        name: name.into(),
        conclusion: conclusion.into(),
        failed_steps: vec![],
        annotations: vec![],
        annotations_capped: false,
        log: vec![],
    }
}

fn row(run_id: u64, attempt: u32, pr: Option<u64>, head: &str, created: &str, jobs: Vec<Job>) -> Row {
    Row {
        repo: "o/r".into(),
        run_id,
        attempt,
        event: "pull_request".into(),
        workflow: "ci".into(),
        pr,
        head_sha: head.into(),
        base_sha: Some("base".into()),
        created_at: created.into(),
        conclusion: "failure".into(),
        jobs,
    }
}

fn plan(all: bool, tests: &[&str], checks: &[&str]) -> Plan {
    Plan {
        version: 1,
        plan_id: String::new(),
        fairlead_version: String::new(),
        config_digest: String::new(),
        tree_hash: String::new(),
        base: None,
        head: String::new(),
        all,
        changed: vec![],
        ignored: vec![],
        tests: tests
            .iter()
            .map(|p| TestSelection {
                path: p.to_string(),
                module: None,
                runner: None,
                class: TestClass::Unit,
                reason: Reason::Changed,
            })
            .collect(),
        checks: checks
            .iter()
            .map(|c| CheckSelection { id: c.to_string(), reason: Reason::Always })
            .collect(),
        invocations: vec![],
        unreached: vec![],
        warnings: vec![],
    }
}

#[test]
fn a_target_is_in_a_plan_that_lists_it_or_selects_everything() {
    let p = plan(false, &["a.test.ts"], &["lint"]);
    assert_eq!(in_plan(&p, &Target::Test("a.test.ts".into())), Some(HitBy::Selected));
    assert_eq!(in_plan(&p, &Target::Test("b.test.ts".into())), None);
    assert_eq!(in_plan(&p, &Target::Check("lint".into())), Some(HitBy::Check));
    assert_eq!(in_plan(&p, &Target::Check("types".into())), None);
    assert_eq!(in_plan(&p, &Target::Job), None);
    let all = plan(true, &[], &[]);
    assert_eq!(in_plan(&all, &Target::Test("b.test.ts".into())), Some(HitBy::RunAll));
    assert_eq!(in_plan(&all, &Target::Check("lint".into())), None);
}

#[test]
fn an_outcome_takes_the_first_reason_that_applies() {
    let t = Target::Test("a.ts".into());
    assert_eq!(outcome(&Target::Job, true, Some(HitBy::Selected), true), Outcome::Unattributed);
    assert_eq!(outcome(&t, true, Some(HitBy::Selected), true), Outcome::Flaky);
    assert_eq!(outcome(&t, false, Some(HitBy::Selected), true), Outcome::Hit);
    assert_eq!(outcome(&t, false, None, true), Outcome::Unconfirmed);
    assert_eq!(outcome(&t, false, None, false), Outcome::Miss);
    assert!(needs_retry(&t, false, None));
    assert!(!needs_retry(&t, false, Some(HitBy::Check)));
    assert!(!needs_retry(&Target::Job, false, None));
}

#[test]
fn another_attempt_that_passed_the_job_makes_it_flaky() {
    let first = row(7, 1, Some(3), "h", "2026-01-02T00:00:00Z", vec![job("test", "failure")]);
    let second = row(7, 2, Some(3), "h", "2026-01-02T01:00:00Z", vec![job("test", "success")]);
    let other_run = row(8, 1, Some(3), "h", "2026-01-02T02:00:00Z", vec![job("test", "success")]);
    let all = vec![first.clone(), second.clone(), other_run];
    assert!(passed_on_another_attempt(&first, "test", &all));
    assert!(!passed_on_another_attempt(&first, "lint", &all));
    assert!(!passed_on_another_attempt(&first, "test", &all[..1]));
}

#[test]
fn a_later_pass_of_the_same_change_is_the_same_head_or_patch() {
    let failed = row(7, 1, Some(3), "h1", "2026-01-02T00:00:00Z", vec![job("test", "failure")]);
    let same_head = row(9, 1, Some(3), "h1", "2026-01-03T00:00:00Z", vec![job("test", "success")]);
    let rebased = row(10, 1, Some(3), "h2", "2026-01-03T00:00:00Z", vec![job("test", "success")]);
    let earlier = row(6, 1, Some(3), "h1", "2026-01-01T00:00:00Z", vec![job("test", "success")]);
    let ours = Some("p".to_string());
    assert!(passed_with_same_change(&failed, "test", &[same_head.clone()], &ours, &[None]));
    assert!(passed_with_same_change(&failed, "test", &[rebased.clone()], &ours, &[Some("p".into())]));
    assert!(!passed_with_same_change(&failed, "test", &[rebased.clone()], &ours, &[Some("q".into())]));
    assert!(!passed_with_same_change(&failed, "test", &[rebased], &None, &[None]));
    assert!(!passed_with_same_change(&failed, "test", &[earlier], &ours, &[None]));
    let no_pr = row(7, 1, None, "h1", "2026-01-02T00:00:00Z", vec![]);
    assert!(!passed_with_same_change(&no_pr, "test", &[same_head], &ours, &[None]));
}

#[test]
fn rows_in_the_window_are_replayed_in_the_order_they_ran() {
    let w = Window::ending("2026-01-31", 30).unwrap();
    let rows = vec![
        row(1, 1, None, "a", "2026-01-20T00:00:00Z", vec![]),
        row(2, 1, None, "b", "2025-12-01T00:00:00Z", vec![]),
        row(3, 1, None, "c", "2026-01-05T00:00:00Z", vec![]),
        row(4, 1, None, "d", "2026-01-20T00:00:00Z", vec![]),
    ];
    assert_eq!(replay_order(&rows, &w), [2, 0, 3]);
}

#[test]
fn failed_jobs_are_ignored_unwatched_or_kept() {
    let sources = Sources {
        failures: vec![Some(Matcher::new("^test").unwrap())],
        extractors: vec![Extractor::named("vitest", None).unwrap()],
        checks: vec![],
        steps: vec![],
        ids: vec![],
        ignore: vec![Matcher::new("deploy").unwrap()],
    };
    let r = row(
        1,
        1,
        None,
        "h",
        "2026-01-02T00:00:00Z",
        vec![job("deploy", "failure"), job("test-a", "failure"), job("build", "failure"), job("test-b", "success")],
    );
    let s = screen(&r, &sources);
    assert_eq!(s.kept, [1]);
    let recorded: Vec<(String, Outcome)> = s.recorded.iter().map(|f| (f.job.clone(), f.outcome)).collect();
    assert_eq!(recorded, [("deploy".to_string(), Outcome::Ignored), ("build".to_string(), Outcome::Unwatched)]);
    let every = Sources {
        failures: vec![None],
        extractors: vec![Extractor::named("jest", None).unwrap()],
        checks: vec![],
        steps: vec![],
        ids: vec![],
        ignore: vec![],
    };
    assert_eq!(screen(&r, &every).kept, [0, 1, 2]);
    let unavailable = record_all(&r, &[1, 2], Outcome::Unavailable, "head commit not in the clone");
    assert_eq!(unavailable.len(), 2);
    assert_eq!(unavailable[1].job, "build");
    assert_eq!(unavailable[0].detail, "head commit not in the clone");
}

fn failure(job: &str, event: &str, target: Target, outcome: Outcome, hit_by: Option<HitBy>, changed: &[&str]) -> Failure {
    Failure {
        run_id: 1,
        attempt: 1,
        event: event.into(),
        pr: Some(4),
        head_sha: "h".into(),
        job: job.into(),
        target,
        outcome,
        hit_by,
        judged: None,
        detail: String::new(),
        changed: changed.iter().map(|s| s.to_string()).collect(),
    }
}

#[test]
fn a_miss_suggests_the_owner_rule_that_would_have_caught_it() {
    assert_eq!(dir_glob("src/a/b.ts"), "src/a/**");
    assert_eq!(dir_glob("b.ts"), "**");
    let m = miss(&failure("t", "push", Target::Test("web/a.test.ts".into()), Outcome::Miss, None, &["lib/x.ts"]));
    assert_eq!(m.target, "web/a.test.ts");
    assert_eq!(m.fix, "[[tests.owners]] match = \"web/**\", covers = [\"lib/**\"]");
    let c = miss(&failure("t", "push", Target::Check("lint".into()), Outcome::Miss, None, &["x.ts"]));
    assert_eq!((c.target.as_str(), c.fix.as_str()), ("check lint", "add \"**\" to the paths of check lint"));
    let j = miss(&failure("build", "push", Target::Job, Outcome::Miss, None, &[]));
    assert_eq!((j.target.as_str(), j.fix.as_str()), ("job build", "no rule suggested"));
}

#[test]
fn the_tally_counts_each_outcome_and_each_unwatched_job() {
    let fs = vec![
        failure("t", "push", Target::Test("a".into()), Outcome::Hit, Some(HitBy::Selected), &[]),
        failure("t", "merge_group", Target::Test("b".into()), Outcome::Miss, None, &["x"]),
        failure("t", "push", Target::Test("c".into()), Outcome::Unconfirmed, None, &[]),
        failure("deploy", "push", Target::Job, Outcome::Unwatched, None, &[]),
        failure("deploy", "push", Target::Job, Outcome::Unwatched, None, &[]),
        failure("audit", "push", Target::Job, Outcome::Unwatched, None, &[]),
        failure("t", "push", Target::Job, Outcome::Flaky, None, &[]),
    ];
    let t = tally(3, &fs);
    assert_eq!((t.runs, t.hits, t.hits_selected, t.misses.len(), t.unconfirmed, t.flaky), (3, 1, 1, 1, 1, 1));
    let unwatched: Vec<(String, usize)> = t.unwatched.clone();
    assert_eq!(unwatched, [("audit".to_string(), 1), ("deploy".to_string(), 2)]);
    let events: Vec<(String, usize, usize, usize)> =
        t.by_event.iter().map(|(e, c)| (e.clone(), c.hits, c.misses, c.unconfirmed)).collect();
    assert_eq!(events, [("merge_group".to_string(), 0, 1, 0), ("push".to_string(), 1, 0, 1)]);
}

fn sources_for(checks: Vec<(Option<&str>, &str, &str)>) -> Sources {
    Sources {
        failures: vec![Some(Matcher::new("^test").unwrap()), None],
        extractors: vec![Extractor::named("vitest", None).unwrap(), Extractor::named("jest", None).unwrap()],
        checks: checks.iter().map(|c| c.0.map(|p| Matcher::new(p).unwrap())).collect(),
        steps: checks.iter().map(|c| Matcher::new(c.1).unwrap()).collect(),
        ids: checks.iter().map(|c| c.2.to_string()).collect(),
        ignore: vec![],
    }
}

#[test]
fn a_job_names_its_annotated_and_attributed_test_files_then_its_checks_each_once() {
    let mut j = job("test-unit", "failure");
    j.annotations = vec![
        Annotation { path: "src/a.test.ts".into(), title: "t".into() },
        Annotation { path: "README.md".into(), title: "t".into() },
    ];
    j.failed_steps = vec!["Run lint".into()];
    let sources = sources_for(vec![(None, "lint", "lint"), (Some("^build"), "lint", "other")]);
    let tests = vec!["src/a.test.ts".to_string(), "src/b.test.ts".to_string()];
    let attributed = vec![
        vec![Attribution::File("src/b.test.ts".into()), Attribution::File("src/a.test.ts".into())],
        vec![Attribution::Unattributed(vec![]), Attribution::File("src/c.ts".into())],
    ];
    let found = targets(&j, &sources, &tests, &attributed);
    assert_eq!(
        found,
        [
            Target::Test("src/a.test.ts".into()),
            Target::Test("src/b.test.ts".into()),
            Target::Check("lint".into())
        ]
    );
}

#[test]
fn a_job_that_names_nothing_is_its_own_target() {
    let j = job("deploy", "failure");
    let sources = sources_for(vec![(None, "lint", "lint")]);
    let found = targets(&j, &sources, &[], &[vec![], vec![]]);
    assert_eq!(found, [Target::Job]);
}

#[test]
fn judged_targets_record_the_outcome_and_how_a_hit_was_planned() {
    let r = row(7, 2, Some(4), "h", "2026-01-02T00:00:00Z", vec![]);
    let p = plan(false, &["a.test.ts"], &["lint"]);
    let found = vec![Target::Test("a.test.ts".into()), Target::Test("b.test.ts".into()), Target::Check("lint".into())];
    let changed = vec!["src/a.ts".to_string()];
    let out = judge(&r, "test", found, &p, false, true, &changed);
    let got: Vec<(Outcome, Option<HitBy>)> = out.iter().map(|f| (f.outcome, f.hit_by)).collect();
    assert_eq!(
        got,
        [(Outcome::Hit, Some(HitBy::Selected)), (Outcome::Unconfirmed, None), (Outcome::Hit, Some(HitBy::Check))]
    );
    assert_eq!(out[0].run_id, 7);
    assert_eq!(out[0].attempt, 2);
    assert_eq!(out[1].changed, ["src/a.ts"]);
    let flaky = judge(&r, "test", vec![Target::Test("b.test.ts".into()), Target::Job], &p, true, false, &changed);
    assert_eq!(flaky[0].outcome, Outcome::Flaky);
    assert_eq!(flaky[1].outcome, Outcome::Unattributed);
}

#[test]
fn a_log_is_its_lines_joined() {
    let mut j = job("t", "failure");
    j.log = vec!["one".into(), "two".into()];
    assert_eq!(job_log(&j), "one\ntwo");
}

#[test]
fn sources_compile_the_replay_section_or_name_the_first_problem() {
    let mut c = Config::default();
    c.replay.failures = List::Items(vec![FailureSource {
        runner: "unit".into(),
        extractor: "vitest".into(),
        job: Some("^test".into()),
        pattern: None,
    }]);
    c.replay.checks = List::Items(vec![CheckStep { job: None, step: "lint".into(), check: "lint".into() }]);
    let s = Sources::new(&c).unwrap();
    assert_eq!(s.failures.len(), 1);
    assert_eq!(s.ids, ["lint"]);
    c.replay.failures = List::Items(vec![FailureSource {
        runner: "unit".into(),
        extractor: "mocha".into(),
        job: None,
        pattern: None,
    }]);
    assert_eq!(Sources::new(&c).err().unwrap(), "unknown extractor `mocha`; use vitest, jest or regex");
    c.replay.failures = List::Items(vec![]);
    c.replay.ignore = List::Items(vec!["(".into()]);
    assert!(Sources::new(&c).is_err());
}

#[test]
fn the_report_text_gives_the_gate_counts_and_each_miss() {
    let fs = vec![
        failure("t", "push", Target::Test("src/a.test.ts".into()), Outcome::Hit, Some(HitBy::Selected), &[]),
        failure("t", "push", Target::Test("src/b.test.ts".into()), Outcome::Miss, None, &["lib/x.ts"]),
        failure("audit", "push", Target::Job, Outcome::Unwatched, None, &[]),
    ];
    let t = tally(2, &fs);
    assert!(gate_met(&t, 2));
    assert!(!gate_met(&t, 3));
    assert_eq!(
        counts_lines(&t),
        "  hits 1 (selected 1, run_all 0, checks 0)  misses 1\n  flaky 0  unconfirmed 0  unattributed 0  unavailable 0  errors 0  ignored 0\n"
    );
    assert_eq!(unwatched_lines(&t), "  unwatched failed jobs (no rule names them):\n       1  audit\n");
    assert_eq!(
        miss_lines(&t.misses[0]),
        "\n  miss  run 1 attempt 1 (PR 4)  src/b.test.ts\n        changed: lib/x.ts\n        fix: [[tests.owners]] match = \"src/**\", covers = [\"lib/**\"]\n"
    );
}
