use vstd::prelude::*;
use crate::errors::{Error, ErrorView};
use crate::patch::walk::{array_index, parse_array_index};
use crate::path::Path;
use crate::value::{lemma_values_view, members_get, members_insert, members_remove, Json, Value};

verus! {

/// `doc` with `value` added at `path`. At the root the document becomes
/// `value`. In an object the last segment is bound to `value`, whether the
/// key was there or not; in an array `value` is inserted before the element
/// at the position that the last segment denotes, which may be one past the
/// end. On the way there each key and each element must exist: the value
/// under it is taken out, added to, and put back.
pub open spec fn json_add(doc: Json, value: Json, path: Seq<Seq<char>>) -> Result<Json, ErrorView>
    decreases path.len(),
{
    if path.len() == 0 {
        Ok(value)
    } else {
        let head = path[0];
        let tail = path.skip(1);
        match doc {
            Json::Object(members) => if tail.len() == 0 {
                Ok(Json::Object(members_insert(members, head, value)))
            } else {
                match members_get(members, head) {
                    Some(inner) => match json_add(inner, value, tail) {
                        Ok(changed) => Ok(
                            Json::Object(
                                members_insert(members_remove(members, head), head, changed),
                            ),
                        ),
                        Err(e) => Err(e),
                    },
                    None => Err(ErrorView::PathDoesntExist),
                }
            },
            Json::Array(items) => match array_index(items.len(), head) {
                Ok(i) => if tail.len() == 0 {
                    if i <= items.len() {
                        Ok(Json::Array(items.insert(i as int, value)))
                    } else {
                        Err(ErrorView::PathDoesntExist)
                    }
                } else if i < items.len() {
                    match json_add(items[i as int], value, tail) {
                        Ok(changed) => Ok(Json::Array(items.update(i as int, changed))),
                        Err(e) => Err(e),
                    }
                } else {
                    Err(ErrorView::PathDoesntExist)
                },
                Err(e) => Err(e),
            },
            _ => Err(ErrorView::PathDoesntExist),
        }
    }
}

/// Adds `value` at `path` in `root`.
pub fn add(root: Value, value: Value, path: Path) -> (done: Result<Value, Error>)
    ensures
        match done {
            Ok(doc) => json_add(root@, value@, path@) == Ok::<Json, ErrorView>(doc@),
            Err(e) => json_add(root@, value@, path@) == Err::<Json, ErrorView>(e@),
        },
        root@.wf() && value@.wf() ==> (done matches Ok(doc) ==> doc@.wf()),
    decreases path@.len(),
{
    proof {
        if root@.wf() && value@.wf() && json_add(root@, value@, path@) is Ok {
            crate::laws::well_formed::lemma_add_wf(root@, value@, path@);
        }
    }
    match path.split_head() {
        None => Ok(value),
        Some((head, tail)) => match root {
            Value::Object(map) => {
                let mut map = map;
                if tail.is_empty() {
                    map.insert(head, value);
                    Ok(Value::Object(map))
                } else {
                    match map.remove(head.as_str()) {
                        Some(inner) => match self::add(inner, value, tail) {
                            Ok(changed) => {
                                map.insert(head, changed);
                                Ok(Value::Object(map))
                            },
                            Err(e) => Err(e),
                        },
                        None => Err(Error::PathDoesntExist),
                    }
                }
            },
            Value::Array(vec) => {
                let mut vec = vec;
                let ghost items = vec@;
                proof {
                    lemma_values_view(items);
                }
                match parse_array_index(vec.as_slice(), head.as_str()) {
                    Ok(index) => {
                        if tail.is_empty() {
                            if index <= vec.len() {
                                vec.insert(index, value);
                                proof {
                                    lemma_values_view(vec@);
                                    assert(crate::value::values_view(vec@)
                                        =~= crate::value::values_view(items).insert(
                                        index as int,
                                        value@,
                                    ));
                                }
                                Ok(Value::Array(vec))
                            } else {
                                Err(Error::PathDoesntExist)
                            }
                        } else if index < vec.len() {
                            let inner = vec.remove(index);
                            match self::add(inner, value, tail) {
                                Ok(changed) => {
                                    vec.insert(index, changed);
                                    proof {
                                        lemma_values_view(vec@);
                                        assert(crate::value::values_view(vec@)
                                            =~= crate::value::values_view(items).update(
                                            index as int,
                                            changed@,
                                        ));
                                    }
                                    Ok(Value::Array(vec))
                                },
                                Err(e) => Err(e),
                            }
                        } else {
                            Err(Error::PathDoesntExist)
                        }
                    },
                    Err(e) => Err(e),
                }
            },
            _ => Err(Error::PathDoesntExist),
        },
    }
}

} // verus!
