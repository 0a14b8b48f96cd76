use jsontool::value::{deep_eq, Value};

fn to_serde(v: &Value) -> serde_json::Value {
    match v {
        Value::Null => serde_json::Value::Null,
        Value::Bool(b) => serde_json::Value::Bool(*b),
        Value::Int(i) => serde_json::Value::Number((*i).into()),
        Value::Str(s) => serde_json::Value::String(s.clone()),
        Value::Arr(items) => serde_json::Value::Array(items.iter().map(to_serde).collect()),
        Value::Obj(entries) => {
            let mut map = serde_json::Map::new();
            for (k, val) in entries {
                map.insert(k.clone(), to_serde(val));
            }
            serde_json::Value::Object(map)
        }
    }
}

fn from_serde(v: &serde_json::Value) -> Value {
    match v {
        serde_json::Value::Null => Value::Null,
        serde_json::Value::Bool(b) => Value::Bool(*b),
        serde_json::Value::Number(n) => Value::Int(n.as_i64().expect("integer")),
        serde_json::Value::String(s) => Value::Str(s.clone()),
        serde_json::Value::Array(items) => Value::Arr(items.iter().map(from_serde).collect()),
        serde_json::Value::Object(map) => {
            Value::Obj(map.iter().map(|(k, val)| (k.clone(), from_serde(val))).collect())
        }
    }
}

fn round_trip(v: &Value) -> Value {
    let text = serde_json::to_string_pretty(&to_serde(v)).expect("serialize");
    let parsed: serde_json::Value = serde_json::from_str(&text).expect("parse");
    from_serde(&parsed)
}

#[test]
fn round_trip_scalars() {
    for v in [
        Value::Null,
        Value::Bool(true),
        Value::Bool(false),
        Value::Int(0),
        Value::Int(-42),
        Value::Int(i64::MAX),
        Value::Str(String::new()),
        Value::Str("with \"quotes\" and \\ and /".to_string()),
    ] {
        assert!(deep_eq(&round_trip(&v), &v));
    }
}

#[test]
fn round_trip_nested_tree() {
    let v = Value::Obj(vec![
        ("empty".to_string(), Value::Obj(vec![])),
        (
            "list".to_string(),
            Value::Arr(vec![
                Value::Int(1),
                Value::Str("two".to_string()),
                Value::Arr(vec![Value::Null]),
                Value::Obj(vec![("deep".to_string(), Value::Bool(false))]),
            ]),
        ),
    ]);
    assert!(deep_eq(&round_trip(&v), &v));
}
