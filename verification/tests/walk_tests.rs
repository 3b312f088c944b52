use jatch::patch::walk::parse_array_index;
use jatch::{walk, Error, Number, Object, Path, Value};

fn num(n: u64) -> Value {
    Value::Number(Number::PosInt(n))
}

fn text(s: &str) -> Value {
    Value::String(s.to_string())
}

fn obj(entries: Vec<(&str, Value)>) -> Value {
    Value::Object(Object::from_entries(
        entries.into_iter().map(|(k, v)| (k.to_string(), v)).collect(),
    ))
}

fn default_json() -> Value {
    obj(vec![
        ("a", text("abc")),
        ("b", num(123)),
        ("c", Value::Bool(true)),
        ("d", Value::Null),
        ("e", Value::Array(vec![num(1), num(2), num(3)])),
        ("f", obj(vec![("a", text("abc")), ("b", num(123))])),
    ])
}

#[test]
fn should_parse_array_indices() {
    let v = vec![1, 2, 3, 4, 5];
    assert_eq!(parse_array_index(&v, "0").unwrap(), 0);
    assert_eq!(parse_array_index(&v, "1").unwrap(), 1);
    assert_eq!(parse_array_index(&v, "2").unwrap(), 2);
    assert_eq!(parse_array_index(&v, "-").unwrap(), 5);
}

#[test]
fn should_walk_json() {
    assert_eq!(
        walk(&default_json(), Path::new("/a").unwrap()).unwrap(),
        &text("abc")
    );
    assert_eq!(
        walk(&default_json(), Path::new("/b").unwrap()).unwrap(),
        &num(123)
    );
    assert_eq!(
        walk(&default_json(), Path::new("/c").unwrap()).unwrap(),
        &Value::Bool(true)
    );
    assert_eq!(
        walk(&default_json(), Path::new("/d").unwrap()).unwrap(),
        &Value::Null
    );
    assert_eq!(
        walk(&default_json(), Path::new("/e").unwrap()).unwrap(),
        &Value::Array(vec![num(1), num(2), num(3)])
    );
    assert_eq!(
        walk(&default_json(), Path::new("/e/0").unwrap()).unwrap(),
        &num(1)
    );
    assert_eq!(
        walk(&default_json(), Path::new("/e/2").unwrap()).unwrap(),
        &num(3)
    );
    assert_eq!(
        walk(&default_json(), Path::new("/f").unwrap()).unwrap(),
        &obj(vec![("a", text("abc")), ("b", num(123))])
    );
    assert_eq!(
        walk(&default_json(), Path::new("/f/a").unwrap()).unwrap(),
        &text("abc")
    );
    assert_eq!(
        walk(&default_json(), Path::new("/f/b").unwrap()).unwrap(),
        &num(123)
    );
    assert_eq!(
        walk(&default_json(), Path::new("/x/z").unwrap()),
        Err(Error::PathDoesntExist)
    );
    assert_eq!(
        walk(&default_json(), Path::new("/e/-").unwrap()),
        Err(Error::PathDoesntExist)
    );
    assert_eq!(
        walk(&default_json(), Path::root()).unwrap(),
        &default_json()
    )
}

#[test]
fn array_index_follows_the_standard_parser() {
    let v = vec![0u8; 3];
    let samples = [
        "", "0", "00", "007", "+", "+0", "+12", "++1", "-", "-0", "-1", "--", "1-", " 1", "1 ",
        "1a", "a", "12345", "18446744073709551615", "18446744073709551616",
        "4294967295", "4294967296", "99999999999999999999999", "\u{663}", "1\u{e9}",
        "+18446744073709551615", "000000000000000000000000000001",
    ];
    for s in samples {
        let expected = match s.parse::<usize>() {
            Ok(i) => Ok(i),
            Err(_) => {
                if s == "-" {
                    Ok(3)
                } else {
                    Err(Error::InvalidPath(format!(
                        "Expected array index, got '{}'",
                        s
                    )))
                }
            }
        };
        assert_eq!(parse_array_index(&v, s), expected);
    }
}

#[test]
fn segment_that_is_no_index_is_an_invalid_path() {
    let doc = Value::Array(vec![num(1)]);
    assert_eq!(
        walk(&doc, Path::new("/x").unwrap()),
        Err(Error::InvalidPath(
            "Expected array index, got 'x'".to_string()
        ))
    );
    assert_eq!(
        walk(&doc, Path::new("/").unwrap()),
        Err(Error::InvalidPath("Expected array index, got ''".to_string()))
    );
}

#[test]
fn walk_fails_beyond_the_end_and_below_a_scalar() {
    let doc = Value::Array(vec![num(1), text("a")]);
    assert_eq!(walk(&doc, Path::new("/2").unwrap()), Err(Error::PathDoesntExist));
    assert_eq!(walk(&doc, Path::new("/1/0").unwrap()), Err(Error::PathDoesntExist));
    assert_eq!(walk(&doc, Path::new("/0/a").unwrap()), Err(Error::PathDoesntExist));
    assert_eq!(walk(&Value::Null, Path::new("/a").unwrap()), Err(Error::PathDoesntExist));
    assert_eq!(walk(&doc, Path::new("/+1").unwrap()).unwrap(), &text("a"));
    assert_eq!(walk(&doc, Path::new("/01").unwrap()).unwrap(), &text("a"));
}

#[test]
fn walk_finds_keys_with_escaped_characters() {
    let doc = obj(vec![("a/b", num(1)), ("~", num(2)), ("", num(3))]);
    assert_eq!(walk(&doc, Path::new("/a~1b").unwrap()).unwrap(), &num(1));
    assert_eq!(walk(&doc, Path::new("/~0").unwrap()).unwrap(), &num(2));
    assert_eq!(walk(&doc, Path::new("/").unwrap()).unwrap(), &num(3));
    assert_eq!(walk(&doc, Path::new("/a/b").unwrap()), Err(Error::PathDoesntExist));
}
