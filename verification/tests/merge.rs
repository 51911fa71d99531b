use yaac::utils::merge_two_value;
use yaac::{Error, Value};

fn table(entries: Vec<(&str, Value)>) -> Value {
    Value::Table(entries.into_iter().map(|(k, v)| (k.to_string(), v)).collect())
}

fn get<'a>(v: &'a Value, key: &str) -> &'a Value {
    match v {
        Value::Table(es) => {
            &es.iter().find(|(k, _)| k == key).expect("key should be present").1
        }
        other => panic!("not a table: {:?}", other),
    }
}

#[test]
fn merging_a_tree_with_itself_returns_it_unchanged() {
    let tree = table(vec![
        ("a", Value::Integer(1)),
        ("b", Value::String("x".to_string())),
        (
            "c",
            Value::Array(vec![Value::Boolean(true), table(vec![("d", Value::Integer(2))])]),
        ),
    ]);
    let copy = table(vec![
        ("a", Value::Integer(1)),
        ("b", Value::String("x".to_string())),
        (
            "c",
            Value::Array(vec![Value::Boolean(true), table(vec![("d", Value::Integer(2))])]),
        ),
    ]);
    let expected = table(vec![
        ("a", Value::Integer(1)),
        ("b", Value::String("x".to_string())),
        (
            "c",
            Value::Array(vec![Value::Boolean(true), table(vec![("d", Value::Integer(2))])]),
        ),
    ]);
    let merged = merge_two_value(tree, copy, "$").expect("identical trees should merge");
    assert_eq!(expected, merged);
}

#[test]
fn later_scalar_wins_at_the_same_key() {
    let base = table(vec![("k", Value::String("v1".to_string())), ("other", Value::Integer(7))]);
    let append = table(vec![("k", Value::String("v2".to_string()))]);
    let merged = merge_two_value(base, append, "$").expect("same-kind scalars should merge");
    assert_eq!(Value::String("v2".to_string()), *get(&merged, "k"));
    assert_eq!(Value::Integer(7), *get(&merged, "other"));
}

#[test]
fn arrays_merge_element_wise_and_keep_the_longer_tail() {
    let base = Value::Array(vec![Value::Integer(1), Value::Integer(2)]);
    let append = Value::Array(vec![Value::Integer(10), Value::Integer(20), Value::Integer(30)]);
    let merged = merge_two_value(base, append, "$").expect("arrays of integers should merge");
    assert_eq!(
        Value::Array(vec![Value::Integer(10), Value::Integer(20), Value::Integer(30)]),
        merged
    );

    let base = Value::Array(vec![Value::Integer(1), Value::Integer(2), Value::Integer(3)]);
    let append = Value::Array(vec![Value::Integer(10)]);
    let merged = merge_two_value(base, append, "$").expect("arrays of integers should merge");
    assert_eq!(
        Value::Array(vec![Value::Integer(10), Value::Integer(2), Value::Integer(3)]),
        merged
    );
}

#[test]
fn mismatched_kinds_conflict_with_the_dotted_path() {
    let base = table(vec![("k", Value::String("x".to_string()))]);
    let append = table(vec![("k", Value::Integer(5))]);
    let err = merge_two_value(base, append, "$").expect_err("kinds differ at k");
    assert_eq!("$.k", err.path);
    assert_eq!("string", err.existed_type);
    assert_eq!("integer", err.appended_type);
    assert_eq!(
        "merge fail, path=$.k, existed type=string appended type=integer",
        err.message()
    );
}

#[test]
fn conflicts_inside_arrays_name_the_index() {
    let base = Value::Array(vec![Value::Integer(1), Value::String("x".to_string())]);
    let append = Value::Array(vec![Value::Integer(2), Value::Integer(5)]);
    let err = merge_two_value(base, append, "$").expect_err("kinds differ at index 1");
    assert_eq!("$.[1]", err.path);
    assert_eq!("string", err.existed_type);
    assert_eq!("integer", err.appended_type);
}

#[test]
fn nested_tables_merge_key_by_key() {
    let base = table(vec![(
        "outer",
        table(vec![("kept", Value::Integer(1)), ("replaced", Value::Integer(2))]),
    )]);
    let append = table(vec![(
        "outer",
        table(vec![("replaced", Value::Integer(20)), ("added", Value::Integer(30))]),
    )]);
    let merged = merge_two_value(base, append, "$").expect("nested tables should merge");
    let outer = get(&merged, "outer");
    assert_eq!(Value::Integer(1), *get(outer, "kept"));
    assert_eq!(Value::Integer(20), *get(outer, "replaced"));
    assert_eq!(Value::Integer(30), *get(outer, "added"));
}

#[test]
fn error_new_keeps_its_parts() {
    let err = Error::new("$.a".to_string(), "boolean", "float");
    assert_eq!("$.a", err.path);
    assert_eq!("boolean", err.existed_type);
    assert_eq!("float", err.appended_type);
}
