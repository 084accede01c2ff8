use fairlead::config::layers::{Entry, Value};
use fairlead::lang::workspace::{clean, member_dirs, package_from, sort_packages, strip_jsonc, workspace_patterns, Package};

#[test]
fn jsonc_comments_and_trailing_commas_become_json() {
    let text = r#"{
  // a comment
  "a": "keep // this", /* block */
  "b": [1, 2, ],
}"#;
    let value: serde_json::Value = serde_json::from_str(&strip_jsonc(text)).unwrap();
    assert_eq!(value["a"], "keep // this");
    assert_eq!(value["b"], serde_json::Value::Array(vec![1.into(), 2.into()]));
}

#[test]
fn escapes_in_strings_are_kept_and_a_comma_before_a_comment_and_brace_goes() {
    assert_eq!(strip_jsonc(r#"{"a": "x\"//y", /* c */ }"#), r#"{"a": "x\"//y"  }"#);
    assert_eq!(strip_jsonc("[1, // one\n]"), "[1 \n]");
    assert_eq!(strip_jsonc("/* open"), "");
}

fn files(list: &[&str]) -> Vec<String> {
    list.iter().map(|s| s.to_string()).collect()
}

#[test]
fn members_are_manifest_folders_the_patterns_take_in() {
    let fs = files(&[
        "package.json",
        "packages/a/package.json",
        "packages/b/package.json",
        "packages/a/src/package.json",
        "tools/x/package.json",
        "packages/a/README.md",
    ]);
    let patterns = files(&["./packages/*/", "!packages/b", "tools/**"]);
    assert_eq!(member_dirs(&fs, &patterns), ["packages/a", "tools/x"]);
    assert!(member_dirs(&fs, &[]).is_empty());
}

#[test]
fn a_package_needs_a_name_and_maps_build_output_when_both_folders_are_set() {
    assert_eq!(package_from("p", None, None, None), None);
    assert_eq!(
        package_from("p", Some("@s/p"), Some("./dist/"), Some("src")),
        Some(Package { name: "@s/p".into(), dir: "p".into(), out_to_source: Some(("dist".into(), "src".into())) })
    );
    assert_eq!(package_from("p", Some("p"), Some("dist"), None).unwrap().out_to_source, None);
    assert_eq!(clean("././a//"), "a");
}

#[test]
fn packages_sort_by_folder() {
    let p = |d: &str| Package { name: d.into(), dir: d.into(), out_to_source: None };
    let sorted = sort_packages(vec![p("b"), p("a/c"), p("a")]);
    let dirs: Vec<&str> = sorted.iter().map(|x| x.dir.as_str()).collect();
    assert_eq!(dirs, ["a", "a/c", "b"]);
}

#[test]
fn discover_keeps_the_named_packages_by_folder() {
    let p = |d: &str| Some(Package { name: d.into(), dir: d.into(), out_to_source: None });
    let found = fairlead::lang::workspace::discover(vec![p("b"), None, p("a")]);
    let dirs: Vec<&str> = found.iter().map(|x| x.dir.as_str()).collect();
    assert_eq!(dirs, ["a", "b"]);
}

#[test]
fn an_including_glob_set_that_does_not_build_takes_in_nothing() {
    let fs: Vec<String> = vec!["packages/a/package.json".into(), "tools/x/package.json".into()];
    let deep = format!("{}x{}", "{a,".repeat(300), "}".repeat(300));
    assert!(member_dirs(&fs, &["packages/*".to_string(), deep.clone()]).is_empty());
    let excluded = format!("!{deep}");
    assert_eq!(member_dirs(&fs, &["packages/*".to_string(), excluded]), ["packages/a"]);
    assert_eq!(member_dirs(&fs, &["packages/*".to_string(), "[".to_string()]), ["packages/a"]);
}

fn obj(entries: Vec<(&str, Value)>) -> Value {
    Value::Object(entries.into_iter().map(|(k, v)| Entry { key: k.to_string(), value: v }).collect())
}

fn strs(items: &[&str]) -> Value {
    Value::Array(items.iter().map(|s| Value::Str(s.to_string())).collect())
}

#[test]
fn workspace_patterns_come_from_the_manifest_then_pnpm() {
    let array = obj(vec![("name", Value::Str("root".into())), ("workspaces", strs(&["packages/*", "apps/*"]))]);
    let pnpm = obj(vec![("packages", strs(&["tools/*", "!tools/old"]))]);
    assert_eq!(
        workspace_patterns(Some(&array), Some(&pnpm)),
        vec!["packages/*", "apps/*", "tools/*", "!tools/old"]
    );
    let object = obj(vec![("workspaces", obj(vec![("packages", strs(&["libs/*"])), ("nohoist", strs(&["x"]))]))]);
    assert_eq!(workspace_patterns(Some(&object), None), vec!["libs/*"]);
    let mixed = obj(vec![("workspaces", Value::Array(vec![Value::Str("a/*".into()), Value::Number("3".into())]))]);
    assert_eq!(workspace_patterns(Some(&mixed), None), vec!["a/*"]);
    assert!(workspace_patterns(Some(&Value::Str("x".into())), Some(&strs(&["y"]))).is_empty());
    assert!(workspace_patterns(None, None).is_empty());
}
