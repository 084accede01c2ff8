use fairlead::replay::attribute::{attribute, candidates, Attribution, Repo};
use fairlead::replay::extract::Printed;

fn printed(path: &str, project: Option<&str>, title: Option<&str>) -> Printed {
    Printed {
        path: path.into(),
        project: project.map(Into::into),
        title: title.map(Into::into),
    }
}

fn files() -> Vec<String> {
    [
        "packages/effect/test/Pool.test.ts",
        "packages/sql/test/Pool.test.ts",
        "pkg/a/test/index.ts",
        "pkg/b/test/index.ts",
        "specs/bail-out.test.ts",
    ]
    .iter()
    .map(|s| s.to_string())
    .collect()
}

/// Reads each candidate with `read`, as the replay does.
fn texts(p: &Printed, repo: &Repo, read: impl Fn(&str) -> Option<String>) -> Vec<Option<String>> {
    candidates(p, repo).iter().map(|f| read(f)).collect()
}

#[test]
fn a_project_name_picks_its_package_folder() {
    let files = files();
    let packages = vec![("effect".to_string(), "packages/effect".to_string())];
    let repo = Repo {
        files: &files,
        packages: &packages,
    };
    let p = printed("test/Pool.test.ts", Some("effect"), None);
    let found = attribute(&p, &repo, &texts(&p, &repo, |_| None));
    assert_eq!(
        found,
        Attribution::File("packages/effect/test/Pool.test.ts".into())
    );
}

#[test]
fn a_unique_suffix_matches_and_an_ambiguous_one_needs_the_title() {
    let files = files();
    let repo = Repo {
        files: &files,
        packages: &[],
    };
    let bail = printed("bail-out.test.ts", None, None);
    assert_eq!(
        attribute(&bail, &repo, &texts(&bail, &repo, |_| None)),
        Attribution::File("specs/bail-out.test.ts".into())
    );
    let ambiguous = printed("test/index.ts", None, Some("exit with error on INT signal"));
    assert!(
        matches!(attribute(&ambiguous, &repo, &texts(&ambiguous, &repo, |_| None)), Attribution::Unattributed(c) if c.len() == 2)
    );
    let read = |f: &str| {
        (f == "pkg/b/test/index.ts")
            .then(|| "test('exit with error on INT signal', ...)".to_string())
    };
    assert_eq!(
        attribute(&ambiguous, &repo, &texts(&ambiguous, &repo, read)),
        Attribution::File("pkg/b/test/index.ts".into())
    );
}

#[test]
fn a_leading_dot_slash_is_dropped_and_a_short_title_is_not_read() {
    let files = files();
    let repo = Repo {
        files: &files,
        packages: &[],
    };
    let p = printed("./././specs/bail-out.test.ts", None, None);
    assert_eq!(
        attribute(&p, &repo, &[]),
        Attribution::File("specs/bail-out.test.ts".into())
    );
    let short = printed("test/index.ts", None, Some("INT"));
    let everything = vec![Some("INT".to_string()), None];
    assert!(matches!(attribute(&short, &repo, &everything), Attribution::Unattributed(_)));
}

#[test]
fn a_project_folder_without_a_package_still_places_the_path() {
    let files = files();
    let repo = Repo {
        files: &files,
        packages: &[],
    };
    let p = printed("test/index.ts", Some("pkg/a"), None);
    assert_eq!(
        attribute(&p, &repo, &[]),
        Attribution::File("pkg/a/test/index.ts".into())
    );
}
