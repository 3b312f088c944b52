use jatch::utils;
use jatch::{Number, Object, Patch, Path, Value};

fn num(n: u64) -> Value {
    Value::Number(Number::PosInt(n))
}

fn text(s: &str) -> Value {
    Value::String(s.to_string())
}

fn obj(entries: Vec<(&str, Value)>) -> Value {
    Value::Object(Object::from_entries(
        entries.into_iter().map(|(k, v)| (k.to_string(), v)).collect(),
    ))
}

fn document(value: &serde_json::Value) -> Value {
    match value {
        serde_json::Value::Null => Value::Null,
        serde_json::Value::Bool(b) => Value::Bool(*b),
        serde_json::Value::Number(n) => {
            if let Some(u) = n.as_u64() {
                Value::Number(Number::PosInt(u))
            } else if let Some(i) = n.as_i64() {
                Value::Number(Number::NegInt(i))
            } else {
                Value::Number(Number::Float(n.as_f64().unwrap().to_bits()))
            }
        }
        serde_json::Value::String(s) => Value::String(s.clone()),
        serde_json::Value::Array(items) => Value::Array(items.iter().map(document).collect()),
        serde_json::Value::Object(members) => Value::Object(Object::from_entries(
            members.iter().map(|(k, v)| (k.clone(), document(v))).collect(),
        )),
    }
}

fn from_str(json: &str) -> Option<Patch> {
    let parsed: serde_json::Value = serde_json::from_str(json).unwrap();
    Patch::from_value(&document(&parsed))
}

#[test]
fn should_deserialize_patches() {
    assert_eq!(
        from_str(r#"{"op": "add", "path": "/foo", "value": "hello"}"#).unwrap(),
        utils::add("/foo", text("hello")).unwrap(),
    );

    assert_eq!(
        from_str(r#"{"op": "remove", "path": "/foo"}"#).unwrap(),
        utils::remove("/foo").unwrap(),
    );

    assert_eq!(
        from_str(r#"{"op": "replace", "path": "/foo", "value": 123}"#).unwrap(),
        utils::replace("/foo", num(123)).unwrap(),
    );

    assert_eq!(
        from_str(r#"{"op": "copy", "from": "/foo", "path": "/to"}"#).unwrap(),
        utils::copy("/foo", "/to").unwrap(),
    );

    assert_eq!(
        from_str(r#"{"op": "move", "from": "/foo", "path": "/to"}"#).unwrap(),
        utils::move_value("/foo", "/to").unwrap()
    );

    assert_eq!(
        from_str(r#"{"op": "test", "path": "/foo", "value": true}"#).unwrap(),
        utils::test("/foo", Value::Bool(true)).unwrap(),
    );
}

#[test]
fn malformed_patches_are_rejected() {
    assert_eq!(from_str(r#"[]"#), None);
    assert_eq!(from_str(r#""add""#), None);
    assert_eq!(from_str(r#"{"path": "/foo", "value": 1}"#), None);
    assert_eq!(from_str(r#"{"op": "insert", "path": "/foo", "value": 1}"#), None);
    assert_eq!(from_str(r#"{"op": 1, "path": "/foo", "value": 1}"#), None);
    assert_eq!(from_str(r#"{"op": "add", "value": 1}"#), None);
    assert_eq!(from_str(r#"{"op": "add", "path": "/foo"}"#), None);
    assert_eq!(from_str(r#"{"op": "add", "path": "foo", "value": 1}"#), None);
    assert_eq!(from_str(r#"{"op": "add", "path": 7, "value": 1}"#), None);
    assert_eq!(from_str(r#"{"op": "move", "path": "/foo"}"#), None);
    assert_eq!(from_str(r#"{"op": "copy", "path": "/foo", "from": "bar"}"#), None);
    assert_eq!(from_str(r#"{"op": "copy", "path": "/foo", "from": null}"#), None);
    assert_eq!(from_str(r#"{"op": "ADD", "path": "/foo", "value": 1}"#), None);
}

#[test]
fn members_that_the_operation_does_not_ask_for_do_not_count() {
    assert_eq!(
        from_str(r#"{"op": "remove", "path": "/a", "value": 1, "from": "x", "note": []}"#),
        Some(Patch::Remove { path: Path::new("/a").unwrap() })
    );
    assert_eq!(
        from_str(r#"{"value": null, "path": "", "op": "test"}"#),
        Some(Patch::Test { path: Path::root(), value: Value::Null })
    );
}

#[test]
fn patches_have_their_json_form() {
    assert_eq!(
        utils::add("/a~1b/~0", num(1)).unwrap().to_value(),
        obj(vec![("op", text("add")), ("path", text("/a~1b/~0")), ("value", num(1))])
    );
    assert_eq!(
        utils::remove("").unwrap().to_value(),
        obj(vec![("op", text("remove")), ("path", text(""))])
    );
    assert_eq!(
        utils::replace("/x", Value::Null).unwrap().to_value(),
        obj(vec![("op", text("replace")), ("path", text("/x")), ("value", Value::Null)])
    );
    assert_eq!(
        utils::copy("/from", "/to").unwrap().to_value(),
        obj(vec![("op", text("copy")), ("path", text("/to")), ("from", text("/from"))])
    );
    assert_eq!(
        utils::move_value("/from", "/to").unwrap().to_value(),
        obj(vec![("op", text("move")), ("path", text("/to")), ("from", text("/from"))])
    );
    assert_eq!(
        utils::test("/", text("t")).unwrap().to_value(),
        obj(vec![("op", text("test")), ("path", text("/")), ("value", text("t"))])
    );
}

#[test]
fn json_form_reads_back_as_the_patch() {
    let patches = vec![
        utils::add("/a/-", obj(vec![("k", num(1))])).unwrap(),
        utils::remove("/a~0").unwrap(),
        utils::replace("", num(2)).unwrap(),
        utils::copy("/x/y", "/z").unwrap(),
        utils::move_value("/~1", "//").unwrap(),
        utils::test("/t", Value::Array(vec![])).unwrap(),
    ];
    for patch in patches {
        assert_eq!(Patch::from_value(&patch.to_value()), Some(patch.clone()));
    }
}
