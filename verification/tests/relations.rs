use json_utils::equiv::{value_eq_exact, value_eq_folded, value_eq_shape};
use json_utils::value::Value;

fn text(s: &str) -> Value {
    Value::Text(s.to_string())
}

fn entry(k: &str, v: Value) -> (String, Value) {
    (k.to_string(), v)
}

#[test]
fn exact_ignores_object_entry_order() {
    let a = Value::Object(vec![
        entry("x", Value::Number(1)),
        entry("y", Value::Number(2)),
    ]);
    let b = Value::Object(vec![
        entry("y", Value::Number(2)),
        entry("x", Value::Number(1)),
    ]);
    assert!(value_eq_exact(&a, &b));
    let c = Value::Object(vec![
        entry("x", Value::Number(1)),
        entry("y", Value::Number(3)),
    ]);
    assert!(!value_eq_exact(&a, &c));
}

#[test]
fn exact_compares_text_byte_for_byte() {
    assert!(!value_eq_exact(&text("A"), &text("a")));
    assert!(value_eq_exact(&text("a"), &text("a")));
}

#[test]
fn folded_compares_text_case_insensitively() {
    assert!(value_eq_folded(&text("Abc"), &text("aBC")));
    assert!(!value_eq_folded(&text("abc"), &text("abd")));
}

#[test]
fn folded_is_order_sensitive_for_objects() {
    let a = Value::Object(vec![
        entry("x", Value::Number(1)),
        entry("y", Value::Number(2)),
    ]);
    let b = Value::Object(vec![
        entry("y", Value::Number(2)),
        entry("x", Value::Number(1)),
    ]);
    assert!(!value_eq_folded(&a, &b));
    assert!(value_eq_folded(&a, &a));
}

#[test]
fn folded_recurses_into_arrays() {
    let a = Value::Array(vec![text("A"), Value::Number(1)]);
    let b = Value::Array(vec![text("a"), Value::Number(1)]);
    assert!(value_eq_folded(&a, &b));
    let c = Value::Array(vec![Value::Number(1), text("a")]);
    assert!(!value_eq_folded(&a, &c));
}

#[test]
fn shape_compares_key_sequences_only() {
    let a = Value::Object(vec![
        entry("x", Value::Number(1)),
        entry("y", text("anything")),
    ]);
    let b = Value::Object(vec![
        entry("x", Value::Null),
        entry("y", Value::Array(vec![])),
    ]);
    assert!(value_eq_shape(&a, &b));
    let c = Value::Object(vec![
        entry("y", Value::Number(1)),
        entry("x", text("anything")),
    ]);
    assert!(!value_eq_shape(&a, &c));
}

#[test]
fn shape_falls_back_to_exact_elsewhere() {
    assert!(value_eq_shape(&Value::Number(4), &Value::Number(4)));
    assert!(!value_eq_shape(&Value::Number(4), &Value::Number(5)));
    assert!(!value_eq_shape(&text("A"), &text("a")));
    let arr1 = Value::Array(vec![Value::Number(1)]);
    let arr2 = Value::Array(vec![Value::Number(2)]);
    assert!(!value_eq_shape(&arr1, &arr2));
    assert!(value_eq_shape(&arr1, &arr1));
}
