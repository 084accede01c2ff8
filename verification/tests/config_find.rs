use fairlead::config::load::{find_config, LoadOptions, Probe};
use fairlead::guard::events::EventLog;
use fairlead::lang::cache::dir_for;

fn probe(dir: &str, found: &[&str], git: bool) -> Probe {
    Probe { dir: dir.into(), found: found.iter().map(|s| s.to_string()).collect(), git }
}

#[test]
fn the_nearest_project_file_wins_and_the_repository_root_stops_the_walk() {
    let walk = vec![probe("/r/a/b", &[], false), probe("/r/a", &["fairlead.toml"], false), probe("/r", &[], true)];
    assert_eq!(find_config(&walk).unwrap(), Some("/r/a/fairlead.toml".to_string()));
    let none = vec![probe("/r/a", &[], false), probe("/r", &[], true), probe("/", &["fairlead.toml"], false)];
    assert_eq!(find_config(&none).unwrap(), None);
    let two = vec![probe("/r", &["fairlead.toml", "fairlead.yaml"], true)];
    let e = find_config(&two).unwrap_err();
    assert_eq!(e.source, "/r");
    assert_eq!(e.message, "more than one config file: fairlead.toml, fairlead.yaml");
}

#[test]
fn ci_is_any_value_but_empty_zero_or_false() {
    let env = |v: &str| vec![("HOME".to_string(), "/h".to_string()), ("CI".to_string(), v.to_string())];
    assert!(LoadOptions::new(vec![], env("true")).ci);
    assert!(LoadOptions::new(vec![], env("1")).ci);
    assert!(!LoadOptions::new(vec![], env("0")).ci);
    assert!(!LoadOptions::new(vec![], env("false")).ci);
    assert!(!LoadOptions::new(vec!["a=b".into()], vec![]).ci);
}

#[test]
fn the_cache_lives_in_the_git_dir_a_worktree_file_names() {
    assert_eq!(dir_for("/r", true, None), Some("/r/.git/fairlead".to_string()));
    assert_eq!(dir_for("/r", false, Some("gitdir: /m/.git/worktrees/w\n")), Some("/m/.git/worktrees/w/fairlead".to_string()));
    assert_eq!(dir_for("/r", false, Some("gitdir: ../m/.git\n")), Some("/r/../m/.git/fairlead".to_string()));
    assert_eq!(dir_for("/r", false, Some("nothing\n")), None);
    assert_eq!(dir_for("/r", false, None), None);
    assert!(EventLog::open("/r", false, None).is_none());
    assert_eq!(EventLog::open("/r", true, None).unwrap().path(), "/r/.git/fairlead/events.jsonl");
    assert_eq!(
        EventLog::open("/r", false, Some("gitdir: /m/.git/worktrees/w\n")).unwrap().path(),
        "/m/.git/worktrees/w/fairlead/events.jsonl"
    );
}
