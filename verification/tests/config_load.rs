use fairlead::config::layers::{merge, merge_layers, nested, record, Entry, Value};
use fairlead::config::load::{env_key, env_layers, find_step, local_step, set_layer, ConfigError, Found};

fn s(v: &str) -> Value {
    Value::Str(v.to_string())
}

fn arr(items: Vec<Value>) -> Value {
    Value::Array(items)
}

fn obj(entries: Vec<(&str, Value)>) -> Value {
    Value::Object(entries.into_iter().map(|(k, v)| Entry { key: k.to_string(), value: v }).collect())
}

fn origin<'a>(origins: &'a [(String, String)], key: &str) -> &'a str {
    origins.iter().find(|(k, _)| k == key).map(|(_, v)| v.as_str()).unwrap()
}

#[test]
fn env_names_map_to_dotted_keys_and_others_are_ignored() {
    assert_eq!(
        env_key("FAIRLEAD_TESTS__UNREACHED").as_deref(),
        Some("tests.unreached")
    );
    assert_eq!(
        env_key("FAIRLEAD_PLAN__RUN_ALL").as_deref(),
        Some("plan.run_all")
    );
    assert_eq!(env_key("FAIRLEAD_BYPASS"), None);
    assert_eq!(env_key("OTHER__THING"), None);
}

#[test]
fn lists_append_and_replace_replaces() {
    let mut origins = Vec::new();
    let base = obj(vec![("plan", obj(vec![("run_all", arr(vec![s("a")]))]))]);
    record(&base, "", "default", &mut origins);
    let base = merge(
        base,
        obj(vec![("plan", obj(vec![("run_all", arr(vec![s("b")]))]))]),
        "one",
        "",
        &mut origins,
    );
    assert_eq!(base, obj(vec![("plan", obj(vec![("run_all", arr(vec![s("a"), s("b")]))]))]));
    assert_eq!(origin(&origins, "plan.run_all"), "default + one");
    let base = merge(
        base,
        obj(vec![("plan", obj(vec![("run_all", obj(vec![("replace", arr(vec![s("c")]))]))]))]),
        "two",
        "",
        &mut origins,
    );
    assert_eq!(base, obj(vec![("plan", obj(vec![("run_all", arr(vec![s("c")]))]))]));
    assert_eq!(origin(&origins, "plan.run_all"), "two");
}

#[test]
fn scalars_override_and_record_their_layer() {
    let mut origins = Vec::new();
    let base = obj(vec![("tests", obj(vec![("unreached", s("module"))]))]);
    record(&base, "", "default", &mut origins);
    let base = merge(
        base,
        obj(vec![("tests", obj(vec![("unreached", s("all"))]))]),
        "--set",
        "",
        &mut origins,
    );
    assert_eq!(base, obj(vec![("tests", obj(vec![("unreached", s("all"))]))]));
    assert_eq!(origin(&origins, "tests.unreached"), "--set");
}

#[test]
fn maps_merge_by_key_and_keep_their_keys_in_order() {
    let mut origins = Vec::new();
    let base = obj(vec![("b", s("1")), ("d", s("2"))]);
    let merged = merge(base, obj(vec![("a", s("x")), ("d", s("y"))]), "one", "", &mut origins);
    assert_eq!(merged, obj(vec![("a", s("x")), ("b", s("1")), ("d", s("y"))]));
    let keys: Vec<&str> = origins.iter().map(|(k, _)| k.as_str()).collect();
    assert_eq!(keys, ["a", "d"]);
}

#[test]
fn a_layer_merges_over_the_defaults_in_order() {
    let defaults = obj(vec![("tests", obj(vec![("unreached", s("module"))]))]);
    let layers = vec![
        ("fairlead.toml".to_string(), nested("tests.unreached", s("warn"))),
        ("--set".to_string(), nested("tests.unreached", s("all"))),
    ];
    let (value, origins) = merge_layers(defaults, layers);
    assert_eq!(value, obj(vec![("tests", obj(vec![("unreached", s("all"))]))]));
    assert_eq!(origin(&origins, "tests.unreached"), "--set");
}

#[test]
fn a_dotted_key_nests_its_value() {
    assert_eq!(nested("a.b", s("v")), obj(vec![("a", obj(vec![("b", s("v"))]))]));
    assert_eq!(nested("a", Value::Bool(true)), obj(vec![("a", Value::Bool(true))]));
}

#[test]
fn a_set_is_a_key_and_a_value() {
    let (k, v) = set_layer(" tests.unreached = all ").unwrap();
    assert_eq!((k.as_str(), v.as_str()), ("tests.unreached", "all"));
    let e = set_layer("nothing").unwrap_err();
    assert_eq!(e.to_string(), "--set: expected key=value, got `nothing`");
}

#[test]
fn config_variables_become_sorted_layers() {
    let env = vec![
        ("FAIRLEAD_TESTS__UNREACHED".to_string(), "all".to_string()),
        ("HOME".to_string(), "/root".to_string()),
        ("FAIRLEAD_PLAN__RUN_ALL".to_string(), "[\"a\"]".to_string()),
    ];
    let layers = env_layers(&env);
    assert_eq!(
        layers,
        [
            ("env FAIRLEAD_PLAN__RUN_ALL".to_string(), "plan.run_all".to_string(), "[\"a\"]".to_string()),
            ("env FAIRLEAD_TESTS__UNREACHED".to_string(), "tests.unreached".to_string(), "all".to_string()),
        ]
    );
}

#[test]
fn the_walk_stops_at_one_file_or_the_root_and_two_files_is_an_error() {
    assert_eq!(find_step("a/b", &[], false).unwrap(), Found::Walk);
    assert_eq!(find_step("a", &[], true).unwrap(), Found::Stop(None));
    assert_eq!(
        find_step("a", &["fairlead.toml".to_string()], false).unwrap(),
        Found::Stop(Some("a/fairlead.toml".to_string()))
    );
    let e = find_step("a", &["fairlead.toml".to_string(), "fairlead.yaml".to_string()], true).unwrap_err();
    assert_eq!(e.to_string(), "a: more than one config file: fairlead.toml, fairlead.yaml");
    assert_eq!(local_step("r", &[]).unwrap(), None);
    assert!(local_step("r", &["fairlead.local.toml".to_string(), "fairlead.local.yml".to_string()]).is_err());
}

#[test]
fn an_error_names_its_key_unless_it_is_the_root() {
    let e = ConfigError { source: "fairlead.toml".into(), key: Some("tests.unreached".into()), message: "bad".into() };
    assert_eq!(e.to_string(), "fairlead.toml: tests.unreached: bad");
    let root = ConfigError { source: "x".into(), key: Some(".".into()), message: "bad".into() };
    assert_eq!(root.to_string(), "x: bad");
}
