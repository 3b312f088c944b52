use jatch::{Error, Path};

fn parts(text: &str) -> Vec<String> {
    Path::new(text).unwrap().segments()
}

#[test]
fn should_split_paths_by_slash() {
    assert_eq!(parts("/foo"), vec!["foo"]);
    assert_eq!(parts("/foo/bar"), vec!["foo", "bar"]);
    assert_eq!(parts("/"), vec![""]);
    assert_eq!(parts("//foo"), vec!["", "foo"]);
    assert_eq!(parts(""), Vec::<String>::new());
}

#[test]
fn should_escape_properly() {
    assert_eq!(parts("/~0"), vec!["~"]);
    assert_eq!(parts("/~1"), vec!["/"]);
    assert_eq!(parts("/~01"), vec!["~1"]);
}

#[test]
fn root_should_equal_empty_string() {
    assert_eq!(Path::new("").unwrap(), Path::root());
}

#[test]
fn escape_unescape_round_trip() {
    let paths = vec!["", "/", "/~0", "/~1", "/~01", "/hello/~0asdf~1/world"];
    for path in paths {
        assert_eq!(path, &Path::new(path).unwrap().to_escaped());
    }
}

#[test]
fn text_without_leading_slash_is_invalid() {
    assert_eq!(Path::new("foo"), Err(Error::InvalidPath("foo".to_string())));
    assert_eq!(Path::new("~/"), Err(Error::InvalidPath("~/".to_string())));
}

#[test]
fn trailing_and_doubled_slashes_give_empty_segments() {
    assert_eq!(parts("/a/"), vec!["a", ""]);
    assert_eq!(parts("/a//b"), vec!["a", "", "b"]);
    assert_eq!(parts("///"), vec!["", "", ""]);
}

#[test]
fn decoding_replaces_slashes_before_tildes() {
    assert_eq!(Path::escape("~01"), "~1");
    assert_eq!(Path::escape("~10"), "/0");
    assert_eq!(Path::escape("a~1b~0c"), "a/b~c");
    assert_eq!(Path::escape("~"), "~");
    assert_eq!(Path::escape("~2"), "~2");
    assert_eq!(Path::escape(""), "");
}

#[test]
fn encoding_replaces_tildes_before_slashes() {
    let path = Path::root().join("a~1b").join("~0");
    assert_eq!(path.segments(), vec!["a/b", "~"]);
    assert_eq!(path.to_escaped(), "/a~1b/~0");
}

#[test]
fn join_reads_its_argument_as_path_text() {
    let path = Path::new("/a").unwrap().join("b/c");
    assert_eq!(path.segments(), vec!["a", "b", "c"]);
    let path = Path::root().join("");
    assert_eq!(path.segments(), vec![""]);
    assert_eq!(path.to_escaped(), "/");
}

#[test]
fn split_head_detaches_the_first_segment() {
    assert!(Path::root().split_head().is_none());
    let (head, tail) = Path::new("/a/b/c").unwrap().split_head().unwrap();
    assert_eq!(head, "a");
    assert_eq!(tail, Path::new("/b/c").unwrap());
    assert_eq!(tail.len(), 2);
    assert!(!tail.is_empty());
    let (head, tail) = Path::new("/").unwrap().split_head().unwrap();
    assert_eq!(head, "");
    assert!(tail.is_empty());
}

#[test]
fn text_of_a_parsed_path_with_stray_tilde_differs() {
    assert_eq!(Path::new("/~").unwrap().to_escaped(), "/~0");
    assert_eq!(Path::new("/a~2").unwrap().to_escaped(), "/a~02");
}

#[test]
fn parsing_the_text_of_a_path_gives_it_back() {
    let path = Path::root().join("~0~1").join("").join("x");
    assert_eq!(Path::new(&path.to_escaped()).unwrap(), path);
}

#[test]
fn paths_handle_characters_beyond_ascii() {
    assert_eq!(parts("/h\u{e9}llo/\u{4e16}\u{754c}"), vec!["h\u{e9}llo", "\u{4e16}\u{754c}"]);
    assert_eq!(
        Path::new("/h\u{e9}~1llo").unwrap().to_escaped(),
        "/h\u{e9}~1llo"
    );
}
