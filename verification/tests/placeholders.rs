use yaac::{
    run_pipeline, EnvironmentVariableProcessor, PathVariableProcessor, ProcessorKind, Value,
};

fn table(entries: Vec<(&str, Value)>) -> Value {
    Value::Table(entries.into_iter().map(|(k, v)| (k.to_string(), v)).collect())
}

fn env(pairs: Vec<(&str, &str)>) -> Vec<(String, String)> {
    pairs.into_iter().map(|(k, v)| (k.to_string(), v.to_string())).collect()
}

fn get<'a>(v: &'a Value, key: &str) -> &'a Value {
    match v {
        Value::Table(es) => {
            &es.iter().find(|(k, _)| k == key).expect("key should be present").1
        }
        other => panic!("not a table: {:?}", other),
    }
}

#[test]
fn environment_placeholder_takes_the_variable_value() {
    let tree = table(vec![("v", Value::String("${FOO}".to_string()))]);
    let (out, changed) =
        EnvironmentVariableProcessor.process(&tree, &env(vec![("FOO", "bar")]));
    assert!(changed);
    assert_eq!(Value::String("bar".to_string()), *get(&out, "v"));
}

#[test]
fn unset_environment_placeholder_becomes_empty() {
    let tree = table(vec![("v", Value::String("${FOO}".to_string()))]);
    let (out, changed) = EnvironmentVariableProcessor.process(&tree, &env(vec![]));
    assert!(changed);
    assert_eq!(Value::String("".to_string()), *get(&out, "v"));
}

#[test]
fn a_string_without_placeholders_is_reported_unchanged() {
    let tree = table(vec![("v", Value::String("plain $ {NOT} text".to_string()))]);
    let (out, changed) =
        EnvironmentVariableProcessor.process(&tree, &env(vec![("NOT", "x")]));
    assert!(!changed);
    assert_eq!(tree, out);
}

#[test]
fn malformed_environment_names_are_left_alone() {
    let tree = table(vec![
        ("a", Value::String("${A__B}".to_string())),
        ("b", Value::String("${_A}".to_string())),
        ("c", Value::String("${}".to_string())),
        ("d", Value::String("${A_}".to_string())),
        ("e", Value::String("${lower}".to_string())),
    ]);
    let (out, changed) = EnvironmentVariableProcessor.process(
        &tree,
        &env(vec![("A__B", "x"), ("_A", "x"), ("A_", "x")]),
    );
    assert!(!changed);
    assert_eq!(tree, out);
}

#[test]
fn environment_placeholders_inside_arrays_and_nested_tables_resolve() {
    let tree = table(vec![(
        "list",
        Value::Array(vec![
            Value::String("${ONE}".to_string()),
            table(vec![("deep", Value::String("${TWO_X}".to_string()))]),
            Value::Integer(9),
        ]),
    )]);
    let (out, changed) = EnvironmentVariableProcessor.process(
        &tree,
        &env(vec![("ONE", "1"), ("TWO_X", "2")]),
    );
    assert!(changed);
    let list = get(&out, "list");
    match list {
        Value::Array(items) => {
            assert_eq!(Value::String("1".to_string()), items[0]);
            assert_eq!(Value::String("2".to_string()), *get(&items[1], "deep"));
            assert_eq!(Value::Integer(9), items[2]);
        }
        other => panic!("not an array: {:?}", other),
    }
}

#[test]
fn path_placeholder_reads_from_the_tree_root() {
    let tree = table(vec![
        ("hello_key", Value::String("hello".to_string())),
        ("all", Value::String("${hello_key} world".to_string())),
    ]);
    let (out, changed) = PathVariableProcessor.process(&tree);
    assert!(changed);
    assert_eq!(Value::String("hello".to_string()), *get(&out, "hello_key"));
    assert_eq!(Value::String("hello world".to_string()), *get(&out, "all"));
}

#[test]
fn dotted_path_placeholder_descends_nested_tables() {
    let tree = table(vec![
        ("nested", table(vec![("inner_key", Value::String("deep".to_string()))])),
        ("v", Value::String("got ${nested.inner_key}".to_string())),
    ]);
    let (out, _) = PathVariableProcessor.process(&tree);
    assert_eq!(Value::String("got deep".to_string()), *get(&out, "v"));
}

#[test]
fn absent_or_non_string_paths_become_empty() {
    let tree = table(vec![
        ("num", Value::Integer(3)),
        ("v", Value::String("a${missing}b${num}c".to_string())),
    ]);
    let (out, changed) = PathVariableProcessor.process(&tree);
    assert!(changed);
    assert_eq!(Value::String("abc".to_string()), *get(&out, "v"));
}

#[test]
fn chained_placeholders_reach_a_fixed_point_in_either_order() {
    for processors in [
        vec![ProcessorKind::EnvironmentVariable, ProcessorKind::PathVariable],
        vec![ProcessorKind::PathVariable, ProcessorKind::EnvironmentVariable],
    ] {
        let tree = table(vec![
            ("a", Value::String("1".to_string())),
            ("b", Value::String("${a} and ${ENV_VAR}".to_string())),
        ]);
        let out = run_pipeline(tree, &processors, &env(vec![("ENV_VAR", "2")]), 16)
            .expect("the chain should reach a fixed point");
        assert_eq!(Value::String("1 and 2".to_string()), *get(&out, "b"));
    }
}

#[test]
fn a_growing_placeholder_cycle_is_reported() {
    let tree = table(vec![
        ("a", Value::String("${b}x".to_string())),
        ("b", Value::String("${a}".to_string())),
    ]);
    let processors = vec![ProcessorKind::PathVariable];
    let err = run_pipeline(tree, &processors, &env(vec![]), 8);
    assert!(err.is_err());
}

#[test]
fn a_tree_without_placeholders_passes_through_the_pipeline() {
    let tree = table(vec![("a", Value::String("plain".to_string()))]);
    let processors = vec![ProcessorKind::EnvironmentVariable, ProcessorKind::PathVariable];
    let out = run_pipeline(tree, &processors, &env(vec![]), 4).expect("nothing to resolve");
    assert_eq!(Value::String("plain".to_string()), *get(&out, "a"));
}
