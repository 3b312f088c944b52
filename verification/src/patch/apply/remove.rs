use vstd::prelude::*;
use crate::errors::{Error, ErrorView};
use crate::patch::walk::{array_index, parse_array_index};
use crate::path::Path;
use crate::value::{lemma_values_view, members_get, members_insert, members_remove, Json, Value};

verus! {

/// `doc` without the value at `path`. At the root nothing is removed. In an
/// object the member that the last segment names is taken out, and nothing
/// changes where no member has that key; in an array the element at the
/// position that the last segment denotes is taken out and must exist. On
/// the way there each key and each element must exist.
pub open spec fn json_remove(doc: Json, path: Seq<Seq<char>>) -> Result<Json, ErrorView>
    decreases path.len(),
{
    if path.len() == 0 {
        Ok(doc)
    } else {
        let head = path[0];
        let tail = path.skip(1);
        match doc {
            Json::Object(members) => if tail.len() == 0 {
                Ok(Json::Object(members_remove(members, head)))
            } else {
                match members_get(members, head) {
                    Some(inner) => match json_remove(inner, tail) {
                        Ok(changed) => Ok(
                            Json::Object(
                                members_insert(members_remove(members, head), head, changed),
                            ),
                        ),
                        Err(e) => Err(e),
                    },
                    None => Err(ErrorView::PathDoesntExist),
                }
            },
            Json::Array(items) => match array_index(items.len(), head) {
                Ok(i) => if i < items.len() {
                    if tail.len() == 0 {
                        Ok(Json::Array(items.remove(i as int)))
                    } else {
                        match json_remove(items[i as int], tail) {
                            Ok(changed) => Ok(Json::Array(items.update(i as int, changed))),
                            Err(e) => Err(e),
                        }
                    }
                } else {
                    Err(ErrorView::PathDoesntExist)
                },
                Err(e) => Err(e),
            },
            _ => Err(ErrorView::PathDoesntExist),
        }
    }
}

/// Removes the value at `path` from `root`.
pub fn remove(root: Value, path: Path) -> (done: Result<Value, Error>)
    ensures
        match done {
            Ok(doc) => json_remove(root@, path@) == Ok::<Json, ErrorView>(doc@),
            Err(e) => json_remove(root@, path@) == Err::<Json, ErrorView>(e@),
        },
        root@.wf() ==> (done matches Ok(doc) ==> doc@.wf()),
    decreases path@.len(),
{
    proof {
        if root@.wf() && json_remove(root@, path@) is Ok {
            crate::laws::well_formed::lemma_remove_keeps_wf(root@, path@);
        }
    }
    match path.split_head() {
        None => Ok(root),
        Some((head, tail)) => match root {
            Value::Object(map) => {
                let mut map = map;
                if tail.is_empty() {
                    map.remove(head.as_str());
                    Ok(Value::Object(map))
                } else {
                    match map.remove(head.as_str()) {
                        Some(inner) => match remove(inner, tail) {
                            Ok(changed) => {
                                map.insert(head, changed);
                                Ok(Value::Object(map))
                            },
                            Err(e) => Err(e),
                        },
                        None => Err(Error::PathDoesntExist),
                    }
                }
            },
            Value::Array(vec) => {
                let mut vec = vec;
                let ghost items = vec@;
                proof {
                    lemma_values_view(items);
                }
                match parse_array_index(vec.as_slice(), head.as_str()) {
                    Ok(index) => {
                        if index < vec.len() {
                            let inner = vec.remove(index);
                            if tail.is_empty() {
                                proof {
                                    lemma_values_view(vec@);
                                    assert(crate::value::values_view(vec@)
                                        =~= crate::value::values_view(items).remove(index as int));
                                }
                                Ok(Value::Array(vec))
                            } else {
                                match remove(inner, tail) {
                                    Ok(changed) => {
                                        vec.insert(index, changed);
                                        proof {
                                            lemma_values_view(vec@);
                                            assert(crate::value::values_view(vec@)
                                                =~= crate::value::values_view(items).update(
                                                index as int,
                                                changed@,
                                            ));
                                        }
                                        Ok(Value::Array(vec))
                                    },
                                    Err(e) => Err(e),
                                }
                            }
                        } else {
                            Err(Error::PathDoesntExist)
                        }
                    },
                    Err(e) => Err(e),
                }
            },
            _ => Err(Error::PathDoesntExist),
        },
    }
}

} // verus!
