use jatch::{Number, Object, Value};

fn num(n: u64) -> Value {
    Value::Number(Number::PosInt(n))
}

#[test]
fn object_keeps_its_members_in_key_order() {
    let mut o = Object::new();
    for key in ["pear", "apple", "fig", "apple2", "", "b\u{e9}", "bz"] {
        o.insert(key.to_string(), num(key.len() as u64));
    }
    let keys: Vec<String> = (0..o.len()).map(|i| o.key_at(i).clone()).collect();
    let mut sorted = keys.clone();
    sorted.sort();
    assert_eq!(keys, sorted);
    assert_eq!(keys, vec!["", "apple", "apple2", "bz", "b\u{e9}", "fig", "pear"]);
    assert_eq!(o.value_at(1), &num(5));
}

#[test]
fn object_insert_overwrites() {
    let mut o = Object::new();
    o.insert("a".to_string(), num(1));
    o.insert("b".to_string(), num(2));
    o.insert("a".to_string(), num(3));
    assert_eq!(o.len(), 2);
    assert_eq!(o.get("a"), Some(&num(3)));
    assert_eq!(o.get("b"), Some(&num(2)));
    assert_eq!(o.get("c"), None);
    assert!(o.contains_key("a"));
    assert!(!o.contains_key("ab"));
}

#[test]
fn object_remove_returns_the_value() {
    let mut o = Object::from_entries(vec![
        ("b".to_string(), num(2)),
        ("a".to_string(), num(1)),
        ("b".to_string(), num(3)),
    ]);
    assert_eq!(o.len(), 2);
    assert_eq!(o.remove("b"), Some(num(3)));
    assert_eq!(o.remove("b"), None);
    assert_eq!(o.len(), 1);
    assert_eq!(o, Object::from_entries(vec![("a".to_string(), num(1))]));
}

#[test]
fn values_compare_by_content() {
    let a = Value::Array(vec![num(1), Value::String("x".to_string())]);
    let b = a.clone();
    assert_eq!(a, b);
    assert_ne!(a, Value::Array(vec![num(1)]));
    assert_ne!(num(1), Value::Number(Number::NegInt(-1)));
    assert_ne!(Value::Null, Value::Bool(false));
    let o1 = Value::Object(Object::from_entries(vec![
        ("x".to_string(), num(1)),
        ("y".to_string(), num(2)),
    ]));
    let o2 = Value::Object(Object::from_entries(vec![
        ("y".to_string(), num(2)),
        ("x".to_string(), num(1)),
    ]));
    assert_eq!(o1, o2);
}

#[test]
fn number_from_i64_keeps_negative_integers_apart() {
    assert_eq!(Number::from_i64(7), Number::PosInt(7));
    assert_eq!(Number::from_i64(0), Number::PosInt(0));
    assert_eq!(Number::from_i64(-7), Number::NegInt(-7));
}
