use json_utils::api::JsonUtils;
use json_utils::merge::merge_similar_objects;
use json_utils::prune::remove_nulls;
use json_utils::value::Value;

fn text(s: &str) -> Value {
    Value::Text(s.to_string())
}

fn entry(k: &str, v: Value) -> (String, Value) {
    (k.to_string(), v)
}

fn record() -> Value {
    Value::Object(vec![
        entry("k1", Value::Null),
        entry("k2", text("v")),
        entry("k3", Value::Object(vec![])),
        entry("k4", Value::Array(vec![])),
        entry(
            "k5",
            Value::Array(vec![
                Value::Number(1),
                Value::Number(2),
                Value::Number(3),
                Value::Number(3),
            ]),
        ),
    ])
}

#[test]
fn prune_nulls_keeps_empties() {
    let mut val = record();
    val.skip_null();
    let expected = Value::Object(vec![
        entry("k2", text("v")),
        entry("k3", Value::Object(vec![])),
        entry("k4", Value::Array(vec![])),
        entry(
            "k5",
            Value::Array(vec![
                Value::Number(1),
                Value::Number(2),
                Value::Number(3),
                Value::Number(3),
            ]),
        ),
    ]);
    assert_eq!(expected, val);
}

#[test]
fn prune_nulls_and_empty_drops_empties() {
    let mut val = record();
    val.skip_null_and_empty();
    let expected = Value::Object(vec![
        entry("k2", text("v")),
        entry(
            "k5",
            Value::Array(vec![
                Value::Number(1),
                Value::Number(2),
                Value::Number(3),
                Value::Number(3),
            ]),
        ),
    ]);
    assert_eq!(expected, val);
}

#[test]
fn prune_then_dedup_scenario() {
    let mut val = record();
    val.skip_null_and_empty();
    val.dedup();
    let expected = Value::Object(vec![
        entry("k2", text("v")),
        entry(
            "k5",
            Value::Array(vec![Value::Number(1), Value::Number(2), Value::Number(3)]),
        ),
    ]);
    assert_eq!(expected, val);
}

#[test]
fn prune_judges_emptiness_after_children() {
    // A container that holds nothing but removable children is itself
    // removed when empties are being pruned: the pass is bottom-up.
    let mut val = Value::Object(vec![entry("a", Value::Array(vec![Value::Null]))]);
    let rem = remove_nulls(&mut val, true);
    assert_eq!(val, Value::Object(vec![]));
    assert!(rem);

    // Without empties, the emptied array survives.
    let mut val = Value::Object(vec![entry("a", Value::Array(vec![Value::Null]))]);
    let rem = remove_nulls(&mut val, false);
    assert_eq!(
        val,
        Value::Object(vec![entry("a", Value::Array(vec![]))])
    );
    assert!(!rem);
}

#[test]
fn prune_is_idempotent_on_example() {
    let mut once = record();
    once.skip_null_and_empty();
    let mut twice = once.deep_clone();
    twice.skip_null_and_empty();
    assert_eq!(once, twice);
}

#[test]
fn dedup_folds_case() {
    // "A" and "a" are case-folded equivalent: the first occurrence wins. If
    // case folding changed nothing, both elements would survive.
    let mut val = Value::Array(vec![text("A"), text("a"), text("b")]);
    val.dedup();
    assert_eq!(val, Value::Array(vec![text("A"), text("b")]));
}

#[test]
fn dedup_keeps_first_occurrence_order() {
    let mut val = Value::Array(vec![
        Value::Number(2),
        Value::Number(1),
        Value::Number(2),
        Value::Number(3),
        Value::Number(1),
    ]);
    val.dedup();
    assert_eq!(
        val,
        Value::Array(vec![Value::Number(2), Value::Number(1), Value::Number(3)])
    );
}

#[test]
fn dedup_compares_object_entries_in_order() {
    // Under case-folded content equivalence, objects with the same entries in
    // different orders are not equivalent: both survive.
    let a = Value::Object(vec![
        entry("x", Value::Number(1)),
        entry("y", Value::Number(2)),
    ]);
    let b = Value::Object(vec![
        entry("y", Value::Number(2)),
        entry("x", Value::Number(1)),
    ]);
    let mut val = Value::Array(vec![a.deep_clone(), b.deep_clone()]);
    val.dedup();
    assert_eq!(val, Value::Array(vec![a, b]));
}

#[test]
fn merge_similar_objects_rejects_shape_mismatch() {
    let a = Value::Object(vec![entry("x", Value::Number(1))]);
    let b = Value::Object(vec![entry("y", Value::Number(1))]);
    assert!(merge_similar_objects(&a, &b).is_err());
    assert!(merge_similar_objects(&a, &Value::Number(1)).is_err());
    assert!(merge_similar_objects(&Value::Null, &Value::Null).is_err());
    // Same key set in another order is a different shape.
    let c = Value::Object(vec![
        entry("x", Value::Number(1)),
        entry("y", Value::Number(2)),
    ]);
    let d = Value::Object(vec![
        entry("y", Value::Number(2)),
        entry("x", Value::Number(1)),
    ]);
    assert!(merge_similar_objects(&c, &d).is_err());
}

#[test]
fn merge_keeps_left_schema() {
    // Keys exclusive to the right operand never reach the result; with the
    // same shape, field values combine.
    let a = Value::Object(vec![
        entry("x", Value::Number(1)),
        entry("y", Value::Number(2)),
    ]);
    let b = Value::Object(vec![
        entry("x", Value::Number(1)),
        entry("y", Value::Number(5)),
    ]);
    let merged = merge_similar_objects(&a, &b).unwrap();
    assert_eq!(
        merged,
        Value::Object(vec![
            entry("x", Value::Number(1)),
            entry(
                "y",
                Value::Array(vec![Value::Number(2), Value::Number(5)])
            ),
        ])
    );
}

#[test]
fn merge_field_array_absorbs_scalar() {
    // A left-hand array absorbs a differing right-hand scalar, but keeps an
    // already contained one.
    let a = Value::Object(vec![entry(
        "x",
        Value::Array(vec![Value::Number(1), Value::Number(2)]),
    )]);
    let b = Value::Object(vec![entry("x", Value::Number(3))]);
    let merged = merge_similar_objects(&a, &b).unwrap();
    assert_eq!(
        merged,
        Value::Object(vec![entry(
            "x",
            Value::Array(vec![Value::Number(1), Value::Number(2), Value::Number(3)])
        )])
    );
    let c = Value::Object(vec![entry("x", Value::Number(2))]);
    let merged2 = merge_similar_objects(&a, &c).unwrap();
    assert_eq!(merged2, a);
}

#[test]
fn merge_field_unequal_arrays_nest() {
    let a = Value::Object(vec![entry("x", Value::Array(vec![Value::Number(1)]))]);
    let b = Value::Object(vec![entry("x", Value::Array(vec![Value::Number(2)]))]);
    let merged = merge_similar_objects(&a, &b).unwrap();
    assert_eq!(
        merged,
        Value::Object(vec![entry(
            "x",
            Value::Array(vec![
                Value::Array(vec![Value::Number(1)]),
                Value::Array(vec![Value::Number(2)]),
            ])
        )])
    );
}

#[test]
fn merge_similar_collapses_non_objects_exactly() {
    // Non-object elements behave like plain set insertion under exact
    // equality: equal scalars collapse, different ones stay.
    let mut val = Value::Array(vec![
        Value::Number(1),
        Value::Number(1),
        Value::Number(2),
        text("a"),
        text("a"),
    ]);
    val.merge_similar();
    assert_eq!(
        val,
        Value::Array(vec![Value::Number(1), Value::Number(2), text("a")])
    );
}

#[test]
fn merge_similar_recurses_through_objects() {
    // Arrays nested in object values are merged too.
    let mut val = Value::Object(vec![entry(
        "inner",
        Value::Array(vec![
            Value::Object(vec![entry("k", text("p"))]),
            Value::Object(vec![entry("k", text("q"))]),
        ]),
    )]);
    val.merge_similar();
    assert_eq!(
        val,
        Value::Object(vec![entry(
            "inner",
            Value::Array(vec![Value::Object(vec![entry(
                "k",
                Value::Array(vec![text("p"), text("q")])
            )])])
        )])
    );
}

#[test]
fn extend_files_array_under_items() {
    let mut val = Value::Object(vec![entry("k", Value::Number(1))]);
    val.extend(Value::Array(vec![Value::Number(7)]));
    assert_eq!(
        val,
        Value::Object(vec![
            entry("k", Value::Number(1)),
            entry("items", Value::Array(vec![Value::Number(7)])),
        ])
    );
}

#[test]
fn extend_appends_array_elements() {
    let mut val = Value::Array(vec![Value::Number(1)]);
    val.extend(Value::Array(vec![Value::Number(2), Value::Number(3)]));
    assert_eq!(
        val,
        Value::Array(vec![Value::Number(1), Value::Number(2), Value::Number(3)])
    );
}

#[test]
fn extend_replaces_existing_key_in_place() {
    let mut val = Value::Object(vec![
        entry("a", Value::Number(1)),
        entry("b", Value::Number(2)),
    ]);
    val.extend(Value::Object(vec![entry("a", Value::Number(9))]));
    assert_eq!(
        val,
        Value::Object(vec![
            entry("a", Value::Number(9)),
            entry("b", Value::Number(2)),
        ])
    );
}

#[test]
fn extend_leaves_scalars_alone() {
    let mut val = text("x");
    val.extend(Value::Object(vec![entry("a", Value::Number(1))]));
    assert_eq!(val, text("x"));
}

#[test]
fn top_level_null_reports_removable() {
    let mut val = Value::Null;
    let rem = remove_nulls(&mut val, false);
    assert!(rem);
    assert_eq!(val, Value::Null);
}

#[test]
fn skip_null_is_idempotent_on_example() {
    let mut once = record();
    once.skip_null();
    let mut twice = once.deep_clone();
    twice.skip_null();
    assert_eq!(once, twice);
}

#[test]
fn dedup_is_idempotent_on_example() {
    let mut once = Value::Array(vec![
        text("A"),
        text("a"),
        Value::Array(vec![Value::Number(1), Value::Number(1)]),
        Value::Array(vec![Value::Number(1)]),
    ]);
    once.dedup();
    let mut twice = once.deep_clone();
    twice.dedup();
    assert_eq!(
        once,
        Value::Array(vec![text("A"), Value::Array(vec![Value::Number(1)])])
    );
    assert_eq!(once, twice);
}
