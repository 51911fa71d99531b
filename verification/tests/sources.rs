use yaac::utils::build_toml_value;
use yaac::{merge_sources, parse_toml_source, EnvironmentSource, FileSource, Value};

fn env(pairs: Vec<(&str, &str)>) -> Vec<(String, String)> {
    pairs.into_iter().map(|(k, v)| (k.to_string(), v.to_string())).collect()
}

fn get<'a>(v: &'a Value, key: &str) -> &'a Value {
    match v {
        Value::Table(es) => {
            &es.iter().find(|(k, _)| k == key).expect("key should be present").1
        }
        other => panic!("not a table: {:?}", other),
    }
}

#[test]
fn parse_reads_integers_strings_and_nesting() {
    let tree = parse_toml_source("a = 123").expect("well-formed document");
    assert_eq!(Value::Integer(123), *get(&tree, "a"));

    let tree = parse_toml_source("s = \"text\"\n[outer]\ninner = true")
        .expect("well-formed document");
    assert_eq!(Value::String("text".to_string()), *get(&tree, "s"));
    assert_eq!(Value::Boolean(true), *get(get(&tree, "outer"), "inner"));

    let tree = parse_toml_source("list = [1, 2]").expect("well-formed document");
    assert_eq!(
        Value::Array(vec![Value::Integer(1), Value::Integer(2)]),
        *get(&tree, "list")
    );
}

#[test]
fn parse_carries_floats_as_bits_and_datetimes_as_text() {
    let tree = parse_toml_source("f = 1.5").expect("well-formed document");
    assert_eq!(Value::Float((1.5f64).to_bits()), *get(&tree, "f"));

    let tree = parse_toml_source("d = 1979-05-27").expect("well-formed document");
    assert_eq!(Value::Datetime("1979-05-27".to_string()), *get(&tree, "d"));
}

#[test]
fn parse_rejects_malformed_documents() {
    assert!(parse_toml_source("a = ").is_none());
    assert!(parse_toml_source("= 3").is_none());
}

#[test]
fn parse_rejects_a_document_that_denotes_no_table() {
    // A quoted top-level key equal to the parser's internal datetime marker
    // makes the parsed value a bare datetime rather than a table.
    assert!(parse_toml_source("\"$__toml_private_datetime\" = \"1979-05-27\"").is_none());
}

#[test]
fn build_toml_value_nests_on_underscores() {
    let built = build_toml_value("nested_key".to_string(), "val".to_string());
    assert_eq!(Value::String("val".to_string()), *get(get(&built, "nested"), "key"));

    let flat = build_toml_value("single".to_string(), "v".to_string());
    assert_eq!(Value::String("v".to_string()), *get(&flat, "single"));
}

#[test]
fn build_toml_value_keeps_empty_segments() {
    let built = build_toml_value("a__b".to_string(), "v".to_string());
    let middle = get(&built, "a");
    assert_eq!(Value::String("v".to_string()), *get(get(middle, ""), "b"));
}

#[test]
fn duplicate_returns_an_equal_tree() {
    let tree = parse_toml_source("a = 1\n[t]\nb = [true, \"s\"]").expect("well-formed");
    assert_eq!(tree, tree.duplicate());
}

#[test]
fn environment_source_shapes_prefixed_variables() {
    let source = EnvironmentSource::new("APP".to_string());
    let tree = source
        .build_tree(&env(vec![("APP_NESTED_KEY", "val"), ("OTHER_X", "ignored")]))
        .expect("one variable cannot conflict");
    assert_eq!(Value::String("val".to_string()), *get(get(&tree, "nested"), "key"));
    assert!(matches!(&tree, Value::Table(es) if es.len() == 1));
}

#[test]
fn environment_source_lowercases_the_stripped_name() {
    let source = EnvironmentSource::new("YAAC".to_string());
    let tree = source
        .build_tree(&env(vec![("YAAC_VALUE", "value here")]))
        .expect("one variable cannot conflict");
    assert_eq!(Value::String("value here".to_string()), *get(&tree, "value"));
}

#[test]
fn environment_source_skips_bare_or_foreign_names() {
    let source = EnvironmentSource::new("APP".to_string());
    let tree = source
        .build_tree(&env(vec![("APP_", "empty rest"), ("APP", "bare"), ("APPX_Y", "other")]))
        .expect("nothing to merge");
    assert_eq!(Value::Table(vec![]), tree);
}

#[test]
fn merge_sources_folds_in_load_order() {
    let first = parse_toml_source("value = \"original\"\nkept = 1").expect("well-formed");
    let second = parse_toml_source("value = \"value here\"").expect("well-formed");
    let merged = merge_sources(&vec![first, second]).expect("same kinds merge");
    assert_eq!(Value::String("value here".to_string()), *get(&merged, "value"));
    assert_eq!(Value::Integer(1), *get(&merged, "kept"));
}

#[test]
fn merge_sources_with_no_sources_gives_an_empty_table() {
    let merged = merge_sources(&vec![]).expect("nothing can conflict");
    assert_eq!(Value::Table(vec![]), merged);
}

#[test]
fn merge_sources_reports_the_first_conflict() {
    let first = parse_toml_source("k = \"x\"").expect("well-formed");
    let second = parse_toml_source("k = 5").expect("well-formed");
    let err = merge_sources(&vec![first, second]).expect_err("kinds differ at k");
    assert_eq!("$.k", err.path);
    assert_eq!("string", err.existed_type);
    assert_eq!("integer", err.appended_type);
}

#[test]
fn file_source_keeps_its_path() {
    let source = FileSource::new("application.toml".to_string());
    assert_eq!("application.toml", source.path);
}
