use jatch::patch::apply::add;
use jatch::{walk, Error, Number, Object, Path, Value};

fn num(n: u64) -> Value {
    Value::Number(Number::PosInt(n))
}

fn text(s: &str) -> Value {
    Value::String(s.to_string())
}

fn arr(items: Vec<Value>) -> Value {
    Value::Array(items)
}

fn obj(entries: Vec<(&str, Value)>) -> Value {
    Value::Object(Object::from_entries(
        entries.into_iter().map(|(k, v)| (k.to_string(), v)).collect(),
    ))
}

fn at<'a>(doc: &'a Value, path: &str) -> &'a Value {
    walk(doc, Path::new(path).unwrap()).unwrap()
}

#[test]
fn test_add_object() {
    let root = obj(vec![("hello", text("123")), ("world", num(123))]);
    let value_to_add = text("added");
    let path = Path::new("/new").unwrap();
    let new = add::add(root, value_to_add, path).unwrap();
    assert_eq!(at(&new, "/new"), &text("added"));

    let new_again = add::add(new, num(234), Path::new("/hello").unwrap()).unwrap();
    assert_eq!(at(&new_again, "/hello"), &num(234));
}

#[test]
fn test_deeply_nested_add() {
    let root = obj(vec![(
        "a",
        obj(vec![(
            "b",
            obj(vec![("c", obj(vec![("a", num(1)), ("b", num(1)), ("c", num(1))]))]),
        )]),
    )]);
    let value_to_add = num(2);
    let path = Path::new("/a/b/c/d").unwrap();
    let new = add::add(root, value_to_add, path).unwrap();
    let deep_object = at(&new, "/a/b/c");
    assert_eq!(at(deep_object, "/d"), &num(2));
}

#[test]
fn add_into_array_by_index() {
    let root = arr(vec![num(1), num(2), num(3)]);
    let value = num(4);
    let root = add::add(root, value, Path::new("/0").unwrap()).unwrap();
    assert_eq!(root, arr(vec![num(4), num(1), num(2), num(3)]));
}

#[test]
fn add_into_array_with_hyphen() {
    let root = arr(vec![num(1), num(2), num(3)]);
    let value = num(4);
    let root = add::add(root, value, Path::new("/-").unwrap()).unwrap();
    assert_eq!(root, arr(vec![num(1), num(2), num(3), num(4)]));
}

#[test]
fn deep_nesting_array_object() {
    let root = obj(vec![(
        "a",
        arr(vec![
            num(1),
            num(2),
            obj(vec![(
                "b",
                arr(vec![
                    num(3),
                    num(4),
                    obj(vec![
                        ("c", text("hello")),
                        ("arr", arr(vec![num(1), num(2), num(3)])),
                    ]),
                ]),
            )]),
        ]),
    )]);
    let new = add::add(root, num(123), Path::new("/a/2/b/2/arr/-").unwrap()).unwrap();
    let deep_array = at(&new, "/a/2/b/2/arr");
    assert_eq!(deep_array, &arr(vec![num(1), num(2), num(3), num(123)]));
}

#[test]
fn add_at_the_root_replaces_the_document() {
    let root = obj(vec![("a", num(1))]);
    assert_eq!(add::add(root, num(7), Path::root()).unwrap(), num(7));
}

#[test]
fn add_keeps_the_whole_document() {
    let root = obj(vec![("b", num(2)), ("a", arr(vec![num(1)]))]);
    let new = add::add(root, text("x"), Path::new("/a/0").unwrap()).unwrap();
    assert_eq!(new, obj(vec![("a", arr(vec![text("x"), num(1)])), ("b", num(2))]));
    let new = add::add(new, Value::Null, Path::new("/b").unwrap()).unwrap();
    assert_eq!(new, obj(vec![("a", arr(vec![text("x"), num(1)])), ("b", Value::Null)]));
}

#[test]
fn add_does_not_create_missing_parents() {
    let root = obj(vec![("a", obj(vec![]))]);
    assert_eq!(
        add::add(root, num(1), Path::new("/b/c").unwrap()),
        Err(Error::PathDoesntExist)
    );
    let root = arr(vec![num(1)]);
    assert_eq!(
        add::add(root, num(1), Path::new("/1/c").unwrap()),
        Err(Error::PathDoesntExist)
    );
    assert_eq!(
        add::add(num(5), num(1), Path::new("/a").unwrap()),
        Err(Error::PathDoesntExist)
    );
}

#[test]
fn add_past_the_end_of_an_array_fails() {
    let root = arr(vec![num(1), num(2), num(3)]);
    assert_eq!(
        add::add(root, num(4), Path::new("/4").unwrap()),
        Err(Error::PathDoesntExist)
    );
    let root = arr(vec![num(1), num(2), num(3)]);
    assert_eq!(
        add::add(root, num(4), Path::new("/3").unwrap()).unwrap(),
        arr(vec![num(1), num(2), num(3), num(4)])
    );
    let root = arr(vec![num(1), num(2), num(3)]);
    assert_eq!(
        add::add(root, num(4), Path::new("/x").unwrap()),
        Err(Error::InvalidPath("Expected array index, got 'x'".to_string()))
    );
}

#[test]
fn add_through_the_append_position_fails() {
    let root = arr(vec![arr(vec![])]);
    assert_eq!(
        add::add(root, num(4), Path::new("/-/0").unwrap()),
        Err(Error::PathDoesntExist)
    );
}
