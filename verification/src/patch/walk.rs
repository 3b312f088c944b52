//! Reading the value at a location of a document.

use vstd::prelude::*;
use vstd::string::*;
use crate::errors::{Error, ErrorView};
use crate::path::Path;
use crate::text::{chars_of, key_equal, parse_decimal, parse_index};
use crate::value::{members_get, Json, Value};

verus! {

/// The text of the error for a segment `s` that is no array index.
pub open spec fn index_message(s: Seq<char>) -> Seq<char> {
    "Expected array index, got '"@ + s + "'"@
}

/// The position in an array of `len` elements that the segment `s` denotes:
/// the index that `s` spells in decimal, `len` itself (one past the last
/// element) for `-`, and `InvalidPath` for any other text.
pub open spec fn array_index(len: nat, s: Seq<char>) -> Result<nat, ErrorView> {
    match parse_decimal(s) {
        Some(i) => Ok(i as nat),
        None => if s == seq!['-'] {
            Ok(len)
        } else {
            Err(ErrorView::InvalidPath(index_message(s)))
        },
    }
}

/// The value at `path` in `doc`. Each segment is looked up as a key where
/// the value reached is an object and as a position where it is an array;
/// `PathDoesntExist` where the key or the element is missing, or where the
/// value reached is neither.
pub open spec fn json_at(doc: Json, path: Seq<Seq<char>>) -> Result<Json, ErrorView>
    decreases path.len(),
{
    if path.len() == 0 {
        Ok(doc)
    } else {
        let head = path[0];
        let tail = path.skip(1);
        match doc {
            Json::Object(members) => match members_get(members, head) {
                Some(inner) => json_at(inner, tail),
                None => Err(ErrorView::PathDoesntExist),
            },
            Json::Array(items) => match array_index(items.len(), head) {
                Ok(i) => if i < items.len() {
                    json_at(items[i as int], tail)
                } else {
                    Err(ErrorView::PathDoesntExist)
                },
                Err(e) => Err(e),
            },
            _ => Err(ErrorView::PathDoesntExist),
        }
    }
}

/// The position in `vec` that the segment `s` denotes.
pub fn parse_array_index<T>(vec: &[T], s: &str) -> (index: Result<usize, Error>)
    ensures
        match index {
            Ok(i) => array_index(vec@.len(), s@) == Ok::<nat, ErrorView>(i as nat),
            Err(e) => array_index(vec@.len(), s@) == Err::<nat, ErrorView>(e@),
        },
{
    let chars = chars_of(s);
    proof {
        reveal_strlit("-");
        assert("-"@ =~= seq!['-']);
    }
    match parse_index(&chars) {
        Some(i) => Ok(i),
        None => {
            if key_equal(s, "-") {
                Ok(vec.len())
            } else {
                let mut message = String::from_str("Expected array index, got '");
                message.append(s);
                message.append("'");
                Err(Error::InvalidPath(message))
            }
        },
    }
}

/// Reads the value at `path` in `value`.
pub fn walk(value: &Value, path: Path) -> (found: Result<&Value, Error>)
    ensures
        match found {
            Ok(v) => json_at(value@, path@) == Ok::<Json, ErrorView>(v@),
            Err(e) => json_at(value@, path@) == Err::<Json, ErrorView>(e@),
        },
        value@.wf() ==> (found matches Ok(v) ==> v@.wf()),
    decreases path@.len(),
{
    proof {
        if value@.wf() && json_at(value@, path@) is Ok {
            crate::laws::place::lemma_at_wf(value@, path@);
        }
    }
    match path.split_head() {
        None => Ok(value),
        Some((head, tail)) => match value {
            Value::Object(map) => match map.get(head.as_str()) {
                Some(inner) => walk(inner, tail),
                None => Err(Error::PathDoesntExist),
            },
            Value::Array(vec) => {
                proof {
                    crate::value::lemma_values_view(vec@);
                }
                match parse_array_index(vec.as_slice(), head.as_str()) {
                    Ok(index) => {
                        if index < vec.len() {
                            walk(&vec[index], tail)
                        } else {
                            Err(Error::PathDoesntExist)
                        }
                    },
                    Err(e) => Err(e),
                }
            },
            _ => Err(Error::PathDoesntExist),
        },
    }
}

} // verus!
