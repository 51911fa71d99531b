use yaac::{
    merge_sources, parse_toml_source, run_pipeline, EnvironmentSource, ProcessorKind, Value,
};

fn env(pairs: Vec<(&str, &str)>) -> Vec<(String, String)> {
    pairs.into_iter().map(|(k, v)| (k.to_string(), v.to_string())).collect()
}

fn get<'a>(v: &'a Value, key: &str) -> &'a Value {
    match v {
        Value::Table(es) => {
            &es.iter().find(|(k, _)| k == key).expect("key should be present").1
        }
        other => panic!("not a table: {:?}", other),
    }
}

fn construct_tree(
    file_text: &str,
    prefix: &str,
    vars: Vec<(&str, &str)>,
    processors: Vec<ProcessorKind>,
) -> Value {
    let file_tree = parse_toml_source(file_text).expect("well-formed document");
    let env_source = EnvironmentSource::new(prefix.to_string());
    let environment = env(vars);
    let env_tree = env_source.build_tree(&environment).expect("variables should merge");
    let merged = merge_sources(&vec![file_tree, env_tree]).expect("sources should merge");
    run_pipeline(merged, &processors, &environment, 64).expect("placeholders should settle")
}

#[test]
fn should_load_config_from_toml_file() {
    let tree = construct_tree("a = 123", "APP", vec![], vec![]);
    assert_eq!(Value::Integer(123), *get(&tree, "a"));
}

#[test]
fn should_load_config_from_given_environment() {
    let tree = construct_tree("a = 123", "APP", vec![("APP_VALUE", "value here")], vec![]);
    assert_eq!(Value::String("value here".to_string()), *get(&tree, "value"));
}

#[test]
fn should_load_config_from_given_environment_with_prefix() {
    let tree = construct_tree("a = 123", "YAAC", vec![("YAAC_VALUE", "value here")], vec![]);
    assert_eq!(Value::String("value here".to_string()), *get(&tree, "value"));
}

#[test]
fn should_override_config_from_given_environment() {
    let tree = construct_tree(
        "value = \"original\"",
        "YAAC",
        vec![("YAAC_VALUE", "value here")],
        vec![],
    );
    assert_eq!(Value::String("value here".to_string()), *get(&tree, "value"));
}

#[test]
fn should_resolve_placeholder() {
    let tree = construct_tree(
        "hello_key = \"hello\" \nall=\"${hello_key} world\"",
        "APP",
        vec![],
        vec![ProcessorKind::PathVariable],
    );
    assert_eq!(Value::String("hello".to_string()), *get(&tree, "hello_key"));
    assert_eq!(Value::String("hello world".to_string()), *get(&tree, "all"));
}

#[test]
fn should_resolve_environment_placeholder() {
    let tree = construct_tree(
        "value = \"more ${YAAC_VALUE}\"",
        "APP",
        vec![("YAAC_VALUE", "value here")],
        vec![ProcessorKind::EnvironmentVariable],
    );
    assert_eq!(Value::String("more value here".to_string()), *get(&tree, "value"));
}

#[test]
fn should_resolve_processor_recursively() {
    let tree = construct_tree(
        "original=\"123\"\nvalue = \"more ${YAAC_VALUE}\"",
        "APP",
        vec![("YAAC_VALUE", "${original}")],
        vec![ProcessorKind::EnvironmentVariable, ProcessorKind::PathVariable],
    );
    assert_eq!(Value::String("more 123".to_string()), *get(&tree, "value"));
}

#[test]
fn should_load_config_from_hierarchy_files() {}
