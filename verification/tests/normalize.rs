use json_utils::api::JsonUtils;
use json_utils::merge::merge_similar_objects;
use json_utils::value::Value;

fn text(s: &str) -> Value {
    Value::Text(s.to_string())
}

fn entry(k: &str, v: Value) -> (String, Value) {
    (k.to_string(), v)
}

/// The shared input: three records, the last two identical.
fn data() -> Value {
    Value::Array(vec![
        Value::Object(vec![
            entry("key1", Value::Null),
            entry("key2", text("there is a value")),
            entry("key3", Value::Object(vec![])),
            entry("key4", Value::Array(vec![])),
            entry(
                "key5",
                Value::Array(vec![
                    Value::Number(1),
                    Value::Number(2),
                    Value::Number(3),
                    Value::Number(3),
                ]),
            ),
        ]),
        Value::Object(vec![
            entry("key1", text("value in here")),
            entry("key2", Value::Null),
        ]),
        Value::Object(vec![
            entry("key1", text("value in here")),
            entry("key2", Value::Null),
        ]),
    ])
}

#[test]
fn test_skip_null() {
    let mut val = data();
    let result = Value::Array(vec![
        Value::Object(vec![
            entry("key2", text("there is a value")),
            entry("key3", Value::Object(vec![])),
            entry("key4", Value::Array(vec![])),
            entry(
                "key5",
                Value::Array(vec![
                    Value::Number(1),
                    Value::Number(2),
                    Value::Number(3),
                    Value::Number(3),
                ]),
            ),
        ]),
        Value::Object(vec![entry("key1", text("value in here"))]),
        Value::Object(vec![entry("key1", text("value in here"))]),
    ]);
    val.skip_null();
    assert_eq!(result, val)
}

#[test]
fn test_skip_null_and_empty() {
    let mut val = data();
    let result = Value::Array(vec![
        Value::Object(vec![
            entry("key2", text("there is a value")),
            entry(
                "key5",
                Value::Array(vec![
                    Value::Number(1),
                    Value::Number(2),
                    Value::Number(3),
                    Value::Number(3),
                ]),
            ),
        ]),
        Value::Object(vec![entry("key1", text("value in here"))]),
        Value::Object(vec![entry("key1", text("value in here"))]),
    ]);
    val.skip_null_and_empty();
    assert_eq!(result, val)
}

#[test]
fn test_dedup() {
    let mut val = data();
    let result = Value::Array(vec![
        Value::Object(vec![
            entry("key1", Value::Null),
            entry("key2", text("there is a value")),
            entry("key3", Value::Object(vec![])),
            entry("key4", Value::Array(vec![])),
            entry(
                "key5",
                Value::Array(vec![Value::Number(1), Value::Number(2), Value::Number(3)]),
            ),
        ]),
        Value::Object(vec![
            entry("key1", text("value in here")),
            entry("key2", Value::Null),
        ]),
    ]);
    val.dedup();
    assert_eq!(result, val)
}

#[test]
fn test_skip_null_and_empty_and_dedup() {
    let mut val = data();
    let result = Value::Array(vec![
        Value::Object(vec![
            entry("key2", text("there is a value")),
            entry(
                "key5",
                Value::Array(vec![Value::Number(1), Value::Number(2), Value::Number(3)]),
            ),
        ]),
        Value::Object(vec![entry("key1", text("value in here"))]),
    ]);
    val.skip_null_and_empty();
    val.dedup();
    assert_eq!(result, val)
}

#[test]
fn test_merge_similar_objects() {
    let src1 = Value::Object(vec![
        entry("key1", text("value in here")),
        entry("key2", Value::Null),
    ]);
    let src2 = Value::Object(vec![
        entry("key1", text("value in here")),
        entry("key2", text("asas")),
    ]);
    let src11 = Value::Object(vec![
        entry("key1", text("value in here")),
        entry("key2", Value::Null),
    ]);
    let ress1 = Value::Object(vec![
        entry("key1", text("value in here")),
        entry("key2", Value::Array(vec![Value::Null, text("asas")])),
    ]);
    let res1 = merge_similar_objects(&src1, &src11).unwrap();
    assert_eq!(res1, src1);
    let res2 = merge_similar_objects(&src1, &src2).unwrap();
    assert_eq!(res2, ress1);
}

#[test]
fn test_merge_similar() {
    let mut src1 = Value::Array(vec![
        Value::Object(vec![
            entry("key1", text("value in here")),
            entry("key2", text("asas")),
        ]),
        Value::Object(vec![
            entry("key1", text("value in here")),
            entry("key2", text("asas")),
        ]),
    ]);
    let res1 = Value::Array(vec![Value::Object(vec![
        entry("key1", text("value in here")),
        entry("key2", text("asas")),
    ])]);
    src1.merge_similar();
    assert_eq!(res1, src1);

    let mut src1 = Value::Array(vec![
        Value::Object(vec![
            entry("key1", text("value in here")),
            entry("key2", text("asas1")),
        ]),
        Value::Object(vec![
            entry("key1", text("value in here")),
            entry("key2", text("asas2")),
        ]),
    ]);
    let res1 = Value::Array(vec![Value::Object(vec![
        entry("key1", text("value in here")),
        entry("key2", Value::Array(vec![text("asas1"), text("asas2")])),
    ])]);
    src1.merge_similar();
    assert_eq!(res1, src1);
}

fn car(model: &str, make: &str, year: i128) -> Value {
    Value::Object(vec![
        entry("model", text(model)),
        entry("make", text(make)),
        entry("year", Value::Number(year)),
    ])
}

#[test]
fn test_extend() {
    // Extending an array with an object appends the object.
    let src1 = Value::Array(vec![
        car("car model", "car make", 2019),
        car("car model2", "car make2", 2020),
        car("car model3", "car make3", 2017),
    ]);
    let src2 = car("car model3", "car make3", 2017);
    let mut src3 = Value::Array(vec![
        car("car model", "car make", 2019),
        car("car model2", "car make2", 2020),
    ]);
    src3.extend(src2);
    assert_eq!(src3, src1);

    // Extending an object with an object absorbs the new entries.
    let mut src4 = Value::Object(vec![
        entry("model", text("car model")),
        entry("make", text("car make")),
    ]);
    let src5 = Value::Object(vec![
        entry("model", text("car model")),
        entry("make", text("car make")),
        entry("year", Value::Number(2019)),
    ]);
    src4.extend(Value::Object(vec![entry("year", Value::Number(2019))]));
    assert_eq!(src4, src5);
}
