//! Scenarios over directly built value trees: one concrete case for each
//! documented behavior of the engine.

use deepdiff::{DeepDiff, Diff, Value};

fn dict(entries: Vec<(&str, Value)>) -> Value {
    let mut owned: Vec<(String, Value)> = Vec::new();
    for (k, v) in entries {
        owned.push((k.to_string(), v));
    }
    Value::Dict(owned)
}

#[test]
fn scenario_changed_value() {
    let a = dict(vec![("a", Value::Int(1))]);
    let b = dict(vec![("a", Value::Int(2))]);
    let diffs = DeepDiff::new().compare(&a, &b);
    assert_eq!(diffs, vec![Diff::Changed("a".to_string(), Value::Int(1), Value::Int(2))]);
}

#[test]
fn scenario_removed_then_added() {
    let a = dict(vec![("a", Value::Int(1))]);
    let b = dict(vec![("b", Value::Int(1))]);
    let diffs = DeepDiff::new().compare(&a, &b);
    assert_eq!(
        diffs,
        vec![
            Diff::Removed("a".to_string(), Value::Int(1)),
            Diff::Added("b".to_string(), Value::Int(1)),
        ]
    );
}

#[test]
fn scenario_ordered_array_shrinks() {
    let a = Value::Array(vec![Value::Int(1), Value::Int(2), Value::Int(3)]);
    let b = Value::Array(vec![Value::Int(1), Value::Int(2)]);
    let diffs = DeepDiff::new().compare(&a, &b);
    assert_eq!(diffs, vec![Diff::Removed("[2]".to_string(), Value::Int(3))]);
}

#[test]
fn scenario_unordered_array_permutation() {
    let a = Value::Array(vec![Value::Int(1), Value::Int(2), Value::Int(3)]);
    let b = Value::Array(vec![Value::Int(3), Value::Int(2), Value::Int(1)]);
    let diffs = DeepDiff::new().ignore_order(true).compare(&a, &b);
    assert_eq!(diffs, vec![]);
}

#[test]
fn scenario_absolute_tolerance() {
    let engine = DeepDiff::new().float_tolerance(1.0f64.to_bits(), false);

    let a = dict(vec![("d", dict(vec![("x", Value::Float(99.1f64.to_bits()))]))]);
    let b = dict(vec![("d", dict(vec![("x", Value::Float(0.11f64.to_bits()))]))]);
    let diffs = engine.compare(&a, &b);
    assert_eq!(
        diffs,
        vec![Diff::Changed(
            "d.x".to_string(),
            Value::Float(99.1f64.to_bits()),
            Value::Float(0.11f64.to_bits())
        )]
    );

    let c1 = Value::Array(vec![Value::Float(3.14159f64.to_bits()), Value::Float(2.71828f64.to_bits())]);
    let c2 = Value::Array(vec![Value::Float(3.14159f64.to_bits()), Value::Float(2.21f64.to_bits())]);
    assert_eq!(engine.compare(&c1, &c2), vec![]);

    let percent = DeepDiff::new().float_tolerance(0.1f64.to_bits(), true);
    assert_eq!(
        percent.compare(&c1, &c2),
        vec![Diff::Changed(
            "[1]".to_string(),
            Value::Float(2.71828f64.to_bits()),
            Value::Float(2.21f64.to_bits())
        )]
    );
}

#[test]
fn scenario_zero_floats_percent_tolerance() {
    let engine = DeepDiff::new().float_tolerance(0.5f64.to_bits(), true);

    // Bit-identical zeros count as equal under a relative bound.
    let z1 = Value::Float(0.0f64.to_bits());
    let z2 = Value::Float(0.0f64.to_bits());
    assert_eq!(engine.compare(&z1, &z2), vec![]);

    // Zeros of opposite sign do not.
    let neg = Value::Float((-0.0f64).to_bits());
    assert_eq!(
        engine.compare(&z1, &neg),
        vec![Diff::Changed(
            "".to_string(),
            Value::Float(0.0f64.to_bits()),
            Value::Float((-0.0f64).to_bits())
        )]
    );
}

#[test]
fn identical_trees_with_nan_report_nothing() {
    let v = dict(vec![
        ("a", Value::Float(f64::NAN.to_bits())),
        ("b", Value::Array(vec![Value::Float(f64::NAN.to_bits()), Value::Int(3)])),
    ]);
    let w = dict(vec![
        ("a", Value::Float(f64::NAN.to_bits())),
        ("b", Value::Array(vec![Value::Float(f64::NAN.to_bits()), Value::Int(3)])),
    ]);
    assert_eq!(DeepDiff::new().compare(&v, &w), vec![]);
}

#[test]
fn duality_of_removed_and_added() {
    let a = dict(vec![
        ("only_a", Value::Int(1)),
        ("shared", Value::Int(2)),
    ]);
    let b = dict(vec![
        ("only_b", Value::Bool(true)),
        ("shared", Value::Int(5)),
    ]);
    let engine = DeepDiff::new();
    let forward = engine.compare(&a, &b);
    let backward = engine.compare(&b, &a);

    assert!(forward.contains(&Diff::Removed("only_a".to_string(), Value::Int(1))));
    assert!(backward.contains(&Diff::Added("only_a".to_string(), Value::Int(1))));
    assert!(forward.contains(&Diff::Added("only_b".to_string(), Value::Bool(true))));
    assert!(backward.contains(&Diff::Removed("only_b".to_string(), Value::Bool(true))));
    assert!(forward.contains(&Diff::Changed("shared".to_string(), Value::Int(2), Value::Int(5))));
    assert!(backward.contains(&Diff::Changed("shared".to_string(), Value::Int(5), Value::Int(2))));
}

#[test]
fn repeated_runs_are_identical() {
    let a = dict(vec![
        ("k", Value::Array(vec![Value::Int(1), Value::String("s".to_string())])),
        ("m", Value::Bool(false)),
    ]);
    let b = dict(vec![
        ("k", Value::Array(vec![Value::Int(2), Value::String("s".to_string())])),
        ("n", Value::Bool(true)),
    ]);
    let engine = DeepDiff::new();
    let first = engine.compare(&a, &b);
    let second = engine.compare(&a, &b);
    assert_eq!(first, second);
}

#[test]
fn removed_precede_added_in_key_order() {
    let a = dict(vec![
        ("a", Value::Int(1)),
        ("c", Value::Int(3)),
        ("e", Value::Int(5)),
    ]);
    let b = dict(vec![
        ("b", Value::Int(2)),
        ("d", Value::Int(4)),
    ]);
    let diffs = DeepDiff::new().compare(&a, &b);
    assert_eq!(
        diffs,
        vec![
            Diff::Removed("a".to_string(), Value::Int(1)),
            Diff::Removed("c".to_string(), Value::Int(3)),
            Diff::Removed("e".to_string(), Value::Int(5)),
            Diff::Added("b".to_string(), Value::Int(2)),
            Diff::Added("d".to_string(), Value::Int(4)),
        ]
    );
}

#[test]
fn multi_digit_index_paths() {
    let mut long: Vec<Value> = Vec::new();
    let mut short: Vec<Value> = Vec::new();
    for i in 0..12 {
        long.push(Value::Int(i));
        if i < 11 {
            short.push(Value::Int(i));
        }
    }
    let diffs = DeepDiff::new().compare(&Value::Array(long), &Value::Array(short));
    assert_eq!(diffs, vec![Diff::Removed("[11]".to_string(), Value::Int(11))]);
}

#[test]
fn mismatched_kinds_report_change_at_root() {
    let a = Value::Int(7);
    let b = Value::String("7".to_string());
    let diffs = DeepDiff::new().compare(&a, &b);
    assert_eq!(
        diffs,
        vec![Diff::Changed("".to_string(), Value::Int(7), Value::String("7".to_string()))]
    );
}

#[test]
fn nan_equals_nan_without_tolerance() {
    let a = Value::Float(f64::NAN.to_bits());
    let b = Value::Float(f64::NAN.to_bits());
    assert_eq!(DeepDiff::new().compare(&a, &b), vec![]);

    // Under a configured tolerance the IEEE comparisons take over and a
    // NaN pair is reported.
    let tolerant = DeepDiff::new().float_tolerance(1.0f64.to_bits(), false);
    assert_eq!(tolerant.compare(&a, &b).len(), 1);
}

#[test]
fn unsorted_dict_level_still_compares() {
    // A level built out of key order exercises the scan-based lookup
    // fallback instead of the binary search over ascending keys.
    let a = Value::Dict(vec![
        ("b".to_string(), Value::Int(1)),
        ("a".to_string(), Value::Int(2)),
    ]);
    let b = Value::Dict(vec![
        ("b".to_string(), Value::Int(1)),
        ("a".to_string(), Value::Int(3)),
    ]);
    let diffs = DeepDiff::new().compare(&a, &b);
    assert_eq!(diffs, vec![Diff::Changed("a".to_string(), Value::Int(2), Value::Int(3))]);
}
