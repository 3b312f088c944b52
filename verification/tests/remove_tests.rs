use jatch::patch::apply::remove::remove;
use jatch::patch::apply::replace::replace;
use jatch::{Error, Number, Object, Path, Value};

fn num(n: u64) -> Value {
    Value::Number(Number::PosInt(n))
}

fn arr(items: Vec<Value>) -> Value {
    Value::Array(items)
}

fn obj(entries: Vec<(&str, Value)>) -> Value {
    Value::Object(Object::from_entries(
        entries.into_iter().map(|(k, v)| (k.to_string(), v)).collect(),
    ))
}

#[test]
fn remove_from_array() {
    let root = arr(vec![num(1), num(2), num(3)]);
    let without_first = remove(root, Path::new("/0").unwrap()).unwrap();
    assert_eq!(without_first, arr(vec![num(2), num(3)]));

    let error = remove(without_first, Path::new("/-").unwrap()).unwrap_err();
    assert_eq!(error, Error::PathDoesntExist);
}

#[test]
fn remove_from_object() {
    let root = obj(vec![("a", num(1)), ("b", num(2))]);
    let without_a = remove(root, Path::new("/a").unwrap()).unwrap();
    assert_eq!(without_a, obj(vec![("b", num(2))]));

    let error = remove(without_a, Path::new("/b/c").unwrap()).unwrap_err();
    assert_eq!(error, Error::PathDoesntExist);
}

#[test]
fn remove_from_deep_array() {
    let root = arr(vec![
        num(1),
        num(2),
        arr(vec![num(3), num(4), arr(vec![num(4), num(5), num(6)])]),
    ]);
    let without_6 = remove(root, Path::new("/2/2/2").unwrap()).unwrap();
    assert_eq!(
        without_6,
        arr(vec![
            num(1),
            num(2),
            arr(vec![num(3), num(4), arr(vec![num(4), num(5)])]),
        ])
    )
}

#[test]
fn remove_from_deep_object() {
    let root = obj(vec![(
        "a",
        obj(vec![("b", obj(vec![("c", obj(vec![("d", num(1)), ("e", num(2))]))]))]),
    )]);
    let without_e = remove(root, Path::new("/a/b/c/e").unwrap()).unwrap();
    assert_eq!(
        without_e,
        obj(vec![(
            "a",
            obj(vec![("b", obj(vec![("c", obj(vec![("d", num(1))]))]))]),
        )])
    );
}

#[test]
fn remove_at_the_root_changes_nothing() {
    let root = obj(vec![("a", num(1))]);
    assert_eq!(remove(root, Path::root()).unwrap(), obj(vec![("a", num(1))]));
    assert_eq!(remove(num(3), Path::root()).unwrap(), num(3));
}

#[test]
fn remove_of_an_absent_key_changes_nothing() {
    let root = obj(vec![("a", num(1))]);
    assert_eq!(
        remove(root, Path::new("/zz").unwrap()).unwrap(),
        obj(vec![("a", num(1))])
    );
}

#[test]
fn remove_beyond_the_end_of_an_array_fails() {
    let root = arr(vec![num(1)]);
    assert_eq!(remove(root, Path::new("/1").unwrap()), Err(Error::PathDoesntExist));
    let root = arr(vec![num(1)]);
    assert_eq!(remove(root, Path::new("/1/0").unwrap()), Err(Error::PathDoesntExist));
    assert_eq!(remove(num(1), Path::new("/a").unwrap()), Err(Error::PathDoesntExist));
    let root = arr(vec![num(1)]);
    assert_eq!(
        remove(root, Path::new("/a").unwrap()),
        Err(Error::InvalidPath("Expected array index, got 'a'".to_string()))
    );
}

#[test]
fn repeated_remove_at_one_index_drains_the_tail() {
    let mut doc = obj(vec![("a", arr(vec![num(1), num(2), num(3), num(4), num(5)]))]);
    let expected = [
        vec![num(1), num(2), num(4), num(5)],
        vec![num(1), num(2), num(5)],
        vec![num(1), num(2)],
    ];
    for left in expected {
        doc = remove(doc, Path::new("/a/2").unwrap()).unwrap();
        assert_eq!(doc, obj(vec![("a", arr(left))]));
    }
    assert_eq!(remove(doc, Path::new("/a/2").unwrap()), Err(Error::PathDoesntExist));
}

#[test]
fn replace_puts_the_value_in_place() {
    let root = obj(vec![("a", arr(vec![num(1), num(2), num(3)])), ("b", num(0))]);
    let root = replace(root, num(9), Path::new("/a/1").unwrap()).unwrap();
    assert_eq!(
        root,
        obj(vec![("a", arr(vec![num(1), num(9), num(3)])), ("b", num(0))])
    );
    let root = replace(root, Value::Null, Path::new("/b").unwrap()).unwrap();
    assert_eq!(
        root,
        obj(vec![("a", arr(vec![num(1), num(9), num(3)])), ("b", Value::Null)])
    );
    let root = replace(root, num(1), Path::root()).unwrap();
    assert_eq!(root, num(1));
}

#[test]
fn replace_needs_the_target_in_an_array() {
    let root = arr(vec![num(1)]);
    assert_eq!(
        replace(root, num(9), Path::new("/1").unwrap()),
        Err(Error::PathDoesntExist)
    );
    let root = obj(vec![]);
    assert_eq!(
        replace(root, num(9), Path::new("/a/b").unwrap()),
        Err(Error::PathDoesntExist)
    );
}
