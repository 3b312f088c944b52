use jatch::{apply, diff, Number, Object, Patch, Path, Value};

fn num(n: u64) -> Value {
    Value::Number(Number::PosInt(n))
}

fn text(s: &str) -> Value {
    Value::String(s.to_string())
}

fn arr(items: Vec<Value>) -> Value {
    Value::Array(items)
}

fn obj(entries: Vec<(&str, Value)>) -> Value {
    Value::Object(Object::from_entries(
        entries.into_iter().map(|(k, v)| (k.to_string(), v)).collect(),
    ))
}

fn nested(depth: usize, inner: Vec<Value>) -> Value {
    let mut value = arr(inner);
    for _ in 0..depth {
        value = arr(vec![value]);
    }
    value
}

fn test_round_trip(before: Value, after: Value) {
    let patches = diff(before.clone(), after.clone());
    let computed_after = apply(before, patches).unwrap();
    assert_eq!(after, computed_after)
}

fn example_jsons() -> Vec<Value> {
    vec![
        num(123),
        text("hello"),
        Value::Bool(true),
        Value::Null,
        obj(vec![("hello", text("world")), ("deeper", arr(vec![num(1), num(2), num(3)]))]),
        obj(vec![("hello", text("world")), ("deeper", obj(vec![("a", text("b"))]))]),
        arr(vec![num(1), num(2), num(3), num(4), num(5)]),
        arr(vec![num(2), num(1), num(4), num(3), num(5)]),
        arr(vec![num(1), num(2), obj(vec![("hello", text("world"))])]),
        nested(6, vec![num(1)]),
        nested(6, vec![num(1), num(2)]),
        arr(vec![arr(vec![arr(vec![num(1)]), obj(vec![("1", text("2"))])])]),
        obj(vec![
            ("name", text("foobar")),
            ("age", num(12)),
            ("pets", arr(vec![text("tom"), text("dick"), text("harry")])),
        ]),
    ]
}

#[test]
fn run_tests() {
    let jsons = example_jsons();
    let pairs = jsons
        .iter()
        .flat_map(|before| jsons.iter().map(move |after| (before.clone(), after.clone())));
    for (before, after) in pairs {
        println!("comparing: {:?} and {:?}", before, after);
        test_round_trip(before, after);
    }
}

#[test]
fn identical_values_should_not_generate_patches() {
    for value in example_jsons() {
        assert_eq!(diff(value.clone(), value.clone()), vec![]);
    }
}

#[test]
fn simple_examples() {
    let add_hello = Patch::Add {
        path: Path::new("/hello").unwrap(),
        value: text("world"),
    };
    let add_foo = Patch::Add {
        path: Path::new("/foo").unwrap(),
        value: text("bar"),
    };
    let remove_hello = Patch::Remove {
        path: Path::new("/hello").unwrap(),
    };
    let remove_foo = Patch::Remove {
        path: Path::new("/foo").unwrap(),
    };

    assert_eq!(
        diff(obj(vec![]), obj(vec![("hello", text("world"))])),
        vec![add_hello.clone()]
    );
    assert_eq!(
        diff(obj(vec![]), obj(vec![("hello", text("world")), ("foo", text("bar"))])),
        vec![add_foo, add_hello],
    );
    assert_eq!(
        diff(
            obj(vec![("hello", text("world")), ("foo", text("bar"))]),
            obj(vec![("hello", text("world"))])
        ),
        vec![remove_foo.clone()],
    );
    assert_eq!(
        diff(
            obj(vec![("hello", text("world")), ("foo", text("bar"))]),
            obj(vec![("foo", text("bar"))])
        ),
        vec![remove_hello.clone()],
    );
    assert_eq!(
        diff(obj(vec![("hello", text("world")), ("foo", text("bar"))]), obj(vec![])),
        vec![remove_foo, remove_hello],
    );
}

#[test]
fn should_replace_where_appropriate() {
    let before = obj(vec![("hello", text("world"))]);
    let after = obj(vec![("hello", text("bar"))]);
    let patches = diff(before, after);
    assert_eq!(
        patches,
        vec![Patch::Replace {
            path: Path::new("/hello").unwrap(),
            value: text("bar"),
        }]
    )
}

#[test]
fn object_diff_removes_then_adds_then_descends() {
    let before = obj(vec![("a", num(1)), ("b", arr(vec![num(1)])), ("c", num(3))]);
    let after = obj(vec![("b", arr(vec![num(2)])), ("d", num(4)), ("e", num(5))]);
    assert_eq!(
        diff(before, after),
        vec![
            Patch::Remove { path: Path::new("/a").unwrap() },
            Patch::Remove { path: Path::new("/c").unwrap() },
            Patch::Add { path: Path::new("/d").unwrap(), value: num(4) },
            Patch::Add { path: Path::new("/e").unwrap(), value: num(5) },
            Patch::Replace { path: Path::new("/b/0").unwrap(), value: num(2) },
        ]
    );
}

#[test]
fn array_diff_goes_by_position() {
    let before = arr(vec![num(1), num(2), num(3)]);
    let after = arr(vec![num(0), num(1), num(2), num(3), num(4)]);
    assert_eq!(
        diff(before, after),
        vec![
            Patch::Replace { path: Path::new("/0").unwrap(), value: num(0) },
            Patch::Replace { path: Path::new("/1").unwrap(), value: num(1) },
            Patch::Replace { path: Path::new("/2").unwrap(), value: num(2) },
            Patch::Add { path: Path::new("/3").unwrap(), value: num(3) },
            Patch::Add { path: Path::new("/4").unwrap(), value: num(4) },
        ]
    );
}

#[test]
fn array_diff_removes_at_the_new_length() {
    let before = arr(vec![num(1), num(2), num(3), num(4), num(5)]);
    let after = arr(vec![num(1), num(7)]);
    assert_eq!(
        diff(before, after),
        vec![
            Patch::Replace { path: Path::new("/1").unwrap(), value: num(7) },
            Patch::Remove { path: Path::new("/2").unwrap() },
            Patch::Remove { path: Path::new("/2").unwrap() },
            Patch::Remove { path: Path::new("/2").unwrap() },
        ]
    );
}

#[test]
fn array_diff_writes_indices_in_decimal() {
    let before = arr((0..9).map(num).collect());
    let after = arr((0..12).map(num).collect());
    assert_eq!(
        diff(before, after),
        vec![
            Patch::Add { path: Path::new("/9").unwrap(), value: num(9) },
            Patch::Add { path: Path::new("/10").unwrap(), value: num(10) },
            Patch::Add { path: Path::new("/11").unwrap(), value: num(11) },
        ]
    );
}

#[test]
fn kinds_that_differ_give_one_replace() {
    assert_eq!(
        diff(arr(vec![num(1)]), obj(vec![("a", num(1))])),
        vec![Patch::Replace { path: Path::root(), value: obj(vec![("a", num(1))]) }]
    );
    assert_eq!(
        diff(num(1), Value::Number(Number::Float(1.0f64.to_bits()))),
        vec![Patch::Replace {
            path: Path::root(),
            value: Value::Number(Number::Float(1.0f64.to_bits())),
        }]
    );
    assert_eq!(diff(Value::Number(Number::from_i64(5)), num(5)), vec![]);
    assert_eq!(
        diff(Value::Number(Number::from_i64(-5)), num(5)),
        vec![Patch::Replace { path: Path::root(), value: num(5) }]
    );
}

#[test]
fn keys_with_slashes_are_joined_as_path_text() {
    let before = obj(vec![]);
    let after = obj(vec![("a/b", num(1))]);
    let patches = diff(before.clone(), after);
    assert_eq!(
        patches,
        vec![Patch::Add { path: Path::new("/a/b").unwrap(), value: num(1) }]
    );
    assert!(apply(before, patches).is_err());
}

#[test]
fn keys_with_escapes_are_decoded_when_joined() {
    let before = obj(vec![]);
    let after = obj(vec![("~0", num(1))]);
    let patches = diff(before.clone(), after.clone());
    assert_eq!(
        patches,
        vec![Patch::Add { path: Path::root().join("~"), value: num(1) }]
    );
    assert_eq!(apply(before, patches).unwrap(), obj(vec![("~", num(1))]));
}

#[test]
fn round_trip_with_nested_changes() {
    test_round_trip(
        obj(vec![
            ("keep", arr(vec![obj(vec![("x", num(1))]), num(2)])),
            ("drop", Value::Null),
            ("k~", text("tilde")),
        ]),
        obj(vec![
            ("keep", arr(vec![obj(vec![("x", num(2)), ("y", arr(vec![]))])])),
            ("new", arr(vec![arr(vec![])])),
            ("k~", text("tilde 2")),
        ]),
    );
}
