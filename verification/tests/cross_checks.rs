use jatch::{apply, diff, Error, Number, Object, Path, Value};

struct Dice(u64);

impl Dice {
    fn roll(&mut self, sides: u64) -> u64 {
        self.0 = self
            .0
            .wrapping_mul(6364136223846793005)
            .wrapping_add(1442695040888963407);
        (self.0 >> 33) % sides
    }
}

fn parse_with_std(text: &str) -> Result<Vec<String>, Error> {
    if text.is_empty() {
        return Ok(vec![]);
    }
    if !text.starts_with('/') {
        return Err(Error::InvalidPath(text.to_string()));
    }
    Ok(text
        .split('/')
        .skip(1)
        .map(|s| s.replace("~1", "/").replace("~0", "~"))
        .collect())
}

fn text_with_std(parts: &[String]) -> String {
    parts
        .iter()
        .map(|s| format!("/{}", s.replace('~', "~0").replace('/', "~1")))
        .collect()
}

fn random_text(dice: &mut Dice) -> String {
    let alphabet = ['/', '~', '0', '1', 'a', '-', '\u{e9}', '2'];
    let len = dice.roll(9);
    (0..len).map(|_| alphabet[dice.roll(8) as usize]).collect()
}

#[test]
fn parsing_agrees_with_split_and_replace() {
    let mut dice = Dice(7);
    for _ in 0..3000 {
        let text = random_text(&mut dice);
        let parsed = Path::new(&text).map(|path| path.segments());
        assert_eq!(parsed, parse_with_std(&text), "for {:?}", text);
    }
    for text in ["~~1", "/~~1", "/~01~10", "/~0~1~", "/~1~0~1~0", "/~~0", "/~", "//~1/"] {
        let parsed = Path::new(text).map(|path| path.segments());
        assert_eq!(parsed, parse_with_std(text), "for {:?}", text);
    }
}

#[test]
fn text_agrees_with_replace_and_join() {
    let mut dice = Dice(11);
    for _ in 0..2000 {
        let count = dice.roll(4);
        let mut path = Path::root();
        let mut parts: Vec<String> = Vec::new();
        for _ in 0..count {
            let text = random_text(&mut dice);
            for part in parse_with_std(&format!("/{}", text)).unwrap() {
                parts.push(part);
            }
            path = path.join(&text);
        }
        assert_eq!(path.segments(), parts);
        assert_eq!(path.to_escaped(), text_with_std(&parts));
        assert_eq!(Path::new(&path.to_escaped()).unwrap(), path);
    }
}

#[test]
fn well_escaped_text_comes_back() {
    let mut dice = Dice(13);
    let tokens = ["/", "~0", "~1", "a", "0", "1", "-", "\u{4e16}"];
    for _ in 0..2000 {
        let len = dice.roll(8);
        let mut text = String::from("/");
        for _ in 0..len {
            text.push_str(tokens[dice.roll(8) as usize]);
        }
        assert_eq!(Path::new(&text).unwrap().to_escaped(), text);
    }
}

fn random_key(dice: &mut Dice) -> String {
    let alphabet = ["a", "b", "c", "", "~x", "k-", "0", "12", "\u{e9}", " "];
    let len = 1 + dice.roll(2);
    (0..len).map(|_| alphabet[dice.roll(10) as usize]).collect()
}

fn random_document(dice: &mut Dice, depth: u64) -> Value {
    let kinds = if depth == 0 { 5 } else { 7 };
    match dice.roll(kinds) {
        0 => Value::Null,
        1 => Value::Bool(dice.roll(2) == 0),
        2 => Value::Number(Number::PosInt(dice.roll(3))),
        3 => Value::Number(Number::from_i64(-(dice.roll(3) as i64))),
        4 => Value::String(random_key(dice)),
        5 => {
            let len = dice.roll(4);
            Value::Array((0..len).map(|_| random_document(dice, depth - 1)).collect())
        }
        _ => {
            let len = dice.roll(4);
            Value::Object(Object::from_entries(
                (0..len)
                    .map(|_| (random_key(dice), random_document(dice, depth - 1)))
                    .collect(),
            ))
        }
    }
}

#[test]
fn diff_then_apply_gives_the_second_document() {
    let mut dice = Dice(17);
    for _ in 0..1500 {
        let before = random_document(&mut dice, 3);
        let after = random_document(&mut dice, 3);
        let patches = diff(before.clone(), after.clone());
        assert_eq!(
            apply(before.clone(), patches),
            Ok(after.clone()),
            "from {:?} to {:?}",
            before,
            after
        );
        assert_eq!(diff(after.clone(), after), vec![]);
    }
}

#[test]
fn arrays_of_many_elements_round_trip() {
    let before = Value::Array((0..25).map(|n| Value::Number(Number::PosInt(n))).collect());
    let after = Value::Array((5..130).map(|n| Value::Number(Number::PosInt(n))).collect());
    let there = diff(before.clone(), after.clone());
    assert_eq!(apply(before.clone(), there), Ok(after.clone()));
    let back = diff(after.clone(), before.clone());
    assert_eq!(back.len(), 25 + 100);
    assert_eq!(apply(after, back), Ok(before));
}

#[test]
fn object_agrees_with_the_map_of_serde_json() {
    let mut dice = Dice(23);
    let keys = ["", "a", "b", "ab", "a/b", "~", "~0", "Z", "10", "9", "\u{e9}", "\u{4e16}", "a\u{0}"];
    let mut ours = Object::new();
    let mut theirs = serde_json::Map::new();
    for _ in 0..4000 {
        let key = keys[dice.roll(keys.len() as u64) as usize];
        match dice.roll(4) {
            0 | 1 => {
                let n = dice.roll(100);
                ours.insert(key.to_string(), Value::Number(Number::PosInt(n)));
                theirs.insert(key.to_string(), serde_json::Value::from(n));
            }
            2 => {
                let removed = ours.remove(key);
                let expected = theirs.remove(key);
                assert_eq!(
                    removed,
                    expected.map(|v| Value::Number(Number::PosInt(v.as_u64().unwrap())))
                );
            }
            _ => {
                assert_eq!(ours.contains_key(key), theirs.contains_key(key));
                assert_eq!(
                    ours.get(key).cloned(),
                    theirs
                        .get(key)
                        .map(|v| Value::Number(Number::PosInt(v.as_u64().unwrap())))
                );
            }
        }
        assert_eq!(ours.len(), theirs.len());
        let our_keys: Vec<&String> = (0..ours.len()).map(|i| ours.key_at(i)).collect();
        let their_keys: Vec<&String> = theirs.keys().collect();
        assert_eq!(our_keys, their_keys);
    }
}
