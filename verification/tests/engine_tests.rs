//! End-to-end comparisons of parsed JSON documents.

use deepdiff::{DeepDiff, Diff, Value};

fn parse(text: &str) -> serde_json::Value {
    serde_json::from_str(text).expect("well-formed JSON")
}

#[test]
fn test_simple_comparison() {
    let json1 = parse(r#"{"a": 1, "b": "hello", "c": true, "d": [1, 2, 3]}"#);
    let json2 = parse(r#"{"a": 1, "b": "world", "c": false, "d": [1, 2, 3, 4]}"#);

    let deep_diff = DeepDiff::new();
    let diffs = deep_diff.compare_json(&json1, &json2);

    assert_eq!(diffs.len(), 3);
    assert!(diffs.contains(&Diff::Changed(
        "b".to_string(),
        Value::String("hello".to_string()),
        Value::String("world".to_string())
    )));
    assert!(diffs.contains(&Diff::Changed("c".to_string(), Value::Bool(true), Value::Bool(false))));
    assert!(diffs.contains(&Diff::Added("d[3]".to_string(), Value::Int(4))));
}

#[test]
fn test_nested_comparison() {
    let json1 = parse(
        r#"{"a": {"x": 1, "y": {"z": "nested"}},
            "b": [{"age": 30, "name": "Alice"}, {"age": 25, "name": "Bob"}]}"#,
    );
    let json2 = parse(
        r#"{"a": {"x": 2, "y": {"z": "deeply nested"}},
            "b": [{"age": 31, "name": "Alice"}, {"age": 35, "name": "Charlie"}]}"#,
    );

    let deep_diff = DeepDiff::new();
    let diffs = deep_diff.compare_json(&json1, &json2);

    assert_eq!(diffs.len(), 5);
    assert!(diffs.contains(&Diff::Changed("a.x".to_string(), Value::Int(1), Value::Int(2))));
    assert!(diffs.contains(&Diff::Changed(
        "a.y.z".to_string(),
        Value::String("nested".to_string()),
        Value::String("deeply nested".to_string())
    )));
    assert!(diffs.contains(&Diff::Changed("b[0].age".to_string(), Value::Int(30), Value::Int(31))));
    assert!(diffs.contains(&Diff::Changed("b[1].age".to_string(), Value::Int(25), Value::Int(35))));
    assert!(diffs.contains(&Diff::Changed(
        "b[1].name".to_string(),
        Value::String("Bob".to_string()),
        Value::String("Charlie".to_string())
    )));
}

#[test]
fn test_array_order() {
    let json1 = parse(r#"{"diff_numbers": [2, 1], "same_numbers": [3, 1, 2]}"#);
    let json2 = parse(r#"{"diff_numbers": [1, 2, 3], "same_numbers": [1, 2, 3]}"#);

    let deep_diff = DeepDiff::new().ignore_order(true);
    let diffs = deep_diff.compare_json(&json1, &json2);
    println!("{:?}", diffs);
    assert_eq!(diffs.len(), 1);
    assert!(diffs.contains(&Diff::Added("diff_numbers".to_string(), Value::Int(3))));
}

#[test]
fn test_float_comparison() {
    let json1 = parse(r#"{"c": [3.14159, 2.71828], "d": {"x": 99.1}}"#);
    let json2 = parse(r#"{"c": [3.14159, 2.21], "d": {"x": 0.11}}"#);

    let deep_diff = DeepDiff::new().float_tolerance(0.1f64.to_bits(), true);
    let diffs = deep_diff.compare_json(&json1, &json2);

    assert_eq!(diffs.len(), 2);
    assert!(diffs.contains(&Diff::Changed(
        "c[1]".to_string(),
        Value::Float(2.71828f64.to_bits()),
        Value::Float(2.21f64.to_bits())
    )));
    assert!(diffs.contains(&Diff::Changed(
        "d.x".to_string(),
        Value::Float(99.1f64.to_bits()),
        Value::Float(0.11f64.to_bits())
    )));
}

#[test]
fn test_float_comparison_absolute() {
    let json1 = parse(r#"{"c": [3.14159, 2.71828], "d": {"x": 99.1}}"#);
    let json2 = parse(r#"{"c": [3.14159, 2.21], "d": {"x": 0.11}}"#);

    let deep_diff = DeepDiff::new().float_tolerance(1.0f64.to_bits(), false);
    let diffs = deep_diff.compare_json(&json1, &json2);

    assert_eq!(diffs.len(), 1);
    assert!(diffs.contains(&Diff::Changed(
        "d.x".to_string(),
        Value::Float(99.1f64.to_bits()),
        Value::Float(0.11f64.to_bits())
    )));
}

#[test]
fn test_null_normalization() {
    let json1 = parse(r#"{"a": null}"#);
    let json2 = parse(r#"{"a": "null"}"#);

    let deep_diff = DeepDiff::new();
    let diffs = deep_diff.compare_json(&json1, &json2);
    assert_eq!(diffs.len(), 0);

    let json3 = parse(r#"{"a": 1}"#);
    let diffs2 = deep_diff.compare_json(&json1, &json3);
    assert_eq!(
        diffs2,
        vec![Diff::Changed("a".to_string(), Value::String("null".to_string()), Value::Int(1))]
    );
}

#[test]
fn test_number_classification() {
    let json1 = parse(r#"{"n": 1}"#);
    let json2 = parse(r#"{"n": 1.0}"#);

    let deep_diff = DeepDiff::new();
    let diffs = deep_diff.compare_json(&json1, &json2);
    assert_eq!(
        diffs,
        vec![Diff::Changed("n".to_string(), Value::Int(1), Value::Float(1.0f64.to_bits()))]
    );
}

#[test]
fn test_large_json_performance() {
    let size: i64 = 500_000;

    let mut obj1 = serde_json::Map::new();
    let mut obj2 = serde_json::Map::new();

    for i in 0..size {
        let key = format!("key{}", i);
        let text = format!(
            "{{\"id\": {}, \"value\": \"This is a test string number {}\", \
             \"nested\": {{\"a\": {}, \"b\": [{}, {}, {}]}}}}",
            i,
            i,
            i * 2,
            i,
            i + 1,
            i + 2
        );
        let value: serde_json::Value = serde_json::from_str(&text).expect("well-formed JSON");
        obj1.insert(key.clone(), value.clone());
        obj2.insert(key, value);
    }

    obj2.insert("key0".to_string(), parse("{\"modified\": true}"));
    obj2.remove("key1");

    let json1 = serde_json::Value::Object(obj1);
    let json2 = serde_json::Value::Object(obj2);

    let diff_tool = DeepDiff::new();
    let diffs = diff_tool.compare_json(&json1, &json2);
    println!("Number of diffs: {}", diffs.len());
    assert_eq!(diffs.len(), 5);
}
