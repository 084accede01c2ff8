use fairlead::config::{List, Migrations as MigrationConfig, UniquePrefix};
use fairlead::guard::git::Change;
use fairlead::guard::migrations::Migrations;

fn migrations(allow: Vec<Vec<&str>>) -> Migrations {
    Migrations::new(&MigrationConfig {
        files: List::Items(vec!["db/*.sql".to_string()]),
        unique_prefix: Some(UniquePrefix {
            allow: allow
                .into_iter()
                .map(|g| g.into_iter().map(String::from).collect())
                .collect(),
        }),
        ..MigrationConfig::default()
    })
    .unwrap()
}

fn paths(list: &[&str]) -> Vec<String> {
    list.iter().map(|s| s.to_string()).collect()
}

#[test]
fn a_shared_number_is_a_finding_for_each_file_unless_the_group_is_allowed() {
    let m = migrations(vec![vec!["002_a.sql", "002_b.sql"]]);
    let found = m.prefix_findings(&paths(&[
        "db/001_x.sql",
        "db/001_y.sql",
        "db/002_a.sql",
        "db/002_b.sql",
        "db/003.sql",
        "db/notes.sql",
    ]));
    let lines: Vec<String> = found.iter().map(|f| f.to_string()).collect();
    assert_eq!(
        lines,
        [
            "db/001_x.sql:1 migration-prefix: shares its number 001 with 001_y.sql",
            "db/001_y.sql:1 migration-prefix: shares its number 001 with 001_x.sql"
        ]
    );
}

#[test]
fn changing_moving_or_deleting_a_migration_that_existed_is_a_finding() {
    let m = Migrations::new(&MigrationConfig {
        files: List::Items(vec!["db/*.sql".to_string()]),
        immutable: true,
        ..MigrationConfig::default()
    })
    .unwrap();
    let change = |status, before: Option<&str>, path: &str| Change {
        status,
        before: before.map(String::from),
        path: path.into(),
    };
    let changes = [
        change('M', None, "db/001.sql"),
        change('R', Some("db/002.sql"), "db/old/002.sql"),
        change('D', None, "db/003.sql"),
        change('M', None, "db/004.sql"),
        change('A', None, "db/005.sql"),
        change('M', None, "src/a.ts"),
    ];
    let existed: Vec<String> = ["db/001.sql", "db/002.sql", "db/003.sql", "src/a.ts"]
        .iter()
        .map(|s| s.to_string())
        .collect();
    let found: Vec<(String, String)> = m
        .edit_findings(&changes, &existed, "main")
        .into_iter()
        .map(|f| (f.file, f.message))
        .collect();
    assert_eq!(found.len(), 3, "{found:?}");
    assert_eq!(found[1].0, "db/old/002.sql");
    assert_eq!(found[1].1, "moves db/002.sql away from where it existed at main");
    assert!(found[2].1.starts_with("deletes"));
}

#[test]
fn without_unique_prefix_or_immutable_nothing_is_checked() {
    let m = Migrations::new(&MigrationConfig {
        files: List::Items(vec!["db/*.sql".to_string()]),
        base: Some("main".into()),
        ..MigrationConfig::default()
    })
    .unwrap();
    assert!(m.prefix_findings(&paths(&["db/1_a.sql", "db/1_b.sql"])).is_empty());
    assert!(m.edit_findings(&[], &[], "main").is_empty());
    assert!(!m.immutable());
    assert_eq!(m.base(), Some("main"));
    assert!(m.covers("db/1_a.sql"));
    assert!(!m.covers("db/old/1_a.sql"));
    assert!(Migrations::new(&MigrationConfig {
        files: List::Items(vec!["db/[.sql".to_string()]),
        ..MigrationConfig::default()
    })
    .is_err());
}
