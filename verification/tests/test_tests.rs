use jatch::utils;
use jatch::{apply, apply_single, Error, Number, Object, Patch, Path, Value};

fn num(n: u64) -> Value {
    Value::Number(Number::PosInt(n))
}

fn text(s: &str) -> Value {
    Value::String(s.to_string())
}

fn arr(items: Vec<Value>) -> Value {
    Value::Array(items)
}

fn obj(entries: Vec<(&str, Value)>) -> Value {
    Value::Object(Object::from_entries(
        entries.into_iter().map(|(k, v)| (k.to_string(), v)).collect(),
    ))
}

fn sample() -> Value {
    obj(vec![
        ("a", obj(vec![("b", num(123)), ("c", num(234))])),
        ("b", arr(vec![num(1)])),
    ])
}

#[test]
fn test_test_success() {
    let test = utils::test("/a/b", num(123)).unwrap();
    let root = sample();
    apply_single(root, test).unwrap();
}

#[test]
fn test_test_failure_incorrect_value() {
    let test = utils::test("/a/c", num(123)).unwrap();
    let root = sample();

    assert!(matches!(apply_single(root, test), Err(Error::FailedTest)));
}

#[test]
fn test_test_failure_missing_path() {
    let test = utils::test("/missing", num(123)).unwrap();
    let root = sample();

    assert!(matches!(apply_single(root, test), Err(Error::PathDoesntExist)));
}

#[test]
fn test_leaves_the_document_as_it_is() {
    let patch = utils::test("/b/0", num(1)).unwrap();
    assert_eq!(apply_single(sample(), patch).unwrap(), sample());
}

#[test]
fn helpers_build_the_patches() {
    assert_eq!(
        utils::add("/foo", text("hello")).unwrap(),
        Patch::Add { path: Path::new("/foo").unwrap(), value: text("hello") }
    );
    assert_eq!(
        utils::remove("/foo").unwrap(),
        Patch::Remove { path: Path::new("/foo").unwrap() }
    );
    assert_eq!(
        utils::replace("/foo", num(123)).unwrap(),
        Patch::Replace { path: Path::new("/foo").unwrap(), value: num(123) }
    );
    assert_eq!(
        utils::copy("/foo", "/to").unwrap(),
        Patch::Copy { from: Path::new("/foo").unwrap(), path: Path::new("/to").unwrap() }
    );
    assert_eq!(
        utils::move_value("/foo", "/to").unwrap(),
        Patch::Move { from: Path::new("/foo").unwrap(), path: Path::new("/to").unwrap() }
    );
    assert_eq!(
        utils::test("/foo", Value::Bool(true)).unwrap(),
        Patch::Test { path: Path::new("/foo").unwrap(), value: Value::Bool(true) }
    );
}

#[test]
fn helpers_reject_invalid_paths() {
    assert_eq!(utils::add("foo", num(1)), Err(Error::InvalidPath("foo".to_string())));
    assert_eq!(utils::remove("foo"), Err(Error::InvalidPath("foo".to_string())));
    assert_eq!(utils::replace("foo", num(1)), Err(Error::InvalidPath("foo".to_string())));
    assert_eq!(utils::test("foo", num(1)), Err(Error::InvalidPath("foo".to_string())));
    assert_eq!(utils::copy("a", "/b"), Err(Error::InvalidPath("a".to_string())));
    assert_eq!(utils::copy("/a", "b"), Err(Error::InvalidPath("b".to_string())));
    assert_eq!(utils::copy("a", "b"), Err(Error::InvalidPath("b".to_string())));
    assert_eq!(utils::move_value("a", "b"), Err(Error::InvalidPath("b".to_string())));
    assert_eq!(utils::move_value("a", "/b"), Err(Error::InvalidPath("a".to_string())));
}

#[test]
fn apply_runs_the_patches_in_order() {
    let root = obj(vec![("foo", text("bar"))]);
    let patches = vec![utils::add("/hello", text("world")).unwrap(), utils::remove("/foo").unwrap()];
    assert_eq!(apply(root, patches).unwrap(), obj(vec![("hello", text("world"))]));
}

#[test]
fn apply_stops_at_the_first_failure() {
    let root = obj(vec![("foo", text("bar"))]);
    let patches = vec![
        utils::add("/a", num(1)).unwrap(),
        utils::test("/a", num(2)).unwrap(),
        utils::remove("/missing/x").unwrap(),
    ];
    assert_eq!(apply(root, patches), Err(Error::FailedTest));
    let root = obj(vec![("foo", text("bar"))]);
    assert_eq!(apply(root, vec![]).unwrap(), obj(vec![("foo", text("bar"))]));
}

#[test]
fn move_to_the_same_path_changes_nothing() {
    let patch = utils::move_value("/a/b", "/a/b").unwrap();
    assert_eq!(apply_single(sample(), patch).unwrap(), sample());
    let patch = utils::move_value("/nowhere/at/all", "/nowhere/at/all").unwrap();
    assert_eq!(apply_single(sample(), patch).unwrap(), sample());
}

#[test]
fn move_takes_the_value_along() {
    let patch = utils::move_value("/a/b", "/b/0").unwrap();
    assert_eq!(
        apply_single(sample(), patch).unwrap(),
        obj(vec![
            ("a", obj(vec![("c", num(234))])),
            ("b", arr(vec![num(123), num(1)])),
        ])
    );
    let patch = utils::move_value("/x", "/y").unwrap();
    assert_eq!(apply_single(sample(), patch), Err(Error::PathDoesntExist));
    let patch = utils::move_value("/a", "/q/r").unwrap();
    assert_eq!(apply_single(sample(), patch), Err(Error::PathDoesntExist));
}

#[test]
fn move_resolves_the_target_after_the_removal() {
    let root = arr(vec![num(1), num(2), num(3)]);
    let patch = utils::move_value("/0", "/2").unwrap();
    assert_eq!(apply_single(root, patch).unwrap(), arr(vec![num(2), num(3), num(1)]));
}

#[test]
fn copy_keeps_the_source() {
    let patch = utils::copy("/a/c", "/b/-").unwrap();
    assert_eq!(
        apply_single(sample(), patch).unwrap(),
        obj(vec![
            ("a", obj(vec![("b", num(123)), ("c", num(234))])),
            ("b", arr(vec![num(1), num(234)])),
        ])
    );
    let patch = utils::copy("/x", "/y").unwrap();
    assert_eq!(apply_single(sample(), patch), Err(Error::PathDoesntExist));
}

#[test]
fn replace_through_apply_single() {
    let patch = utils::replace("/a/b", text("x")).unwrap();
    assert_eq!(
        apply_single(sample(), patch).unwrap(),
        obj(vec![
            ("a", obj(vec![("b", text("x")), ("c", num(234))])),
            ("b", arr(vec![num(1)])),
        ])
    );
}
