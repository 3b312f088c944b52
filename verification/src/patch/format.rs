//! The JSON form of a patch: an object with the member `op`, the member
//! `path`, and `value` or `from` as the operation asks.

use vstd::prelude::*;
use vstd::string::*;
use crate::laws::members::{lemma_get_after_insert, lemma_insert_sorted};
use crate::patch::{Patch, PatchView};
use crate::path::{lemma_parse_of_text, parse_path, path_text, Path};
use crate::text::key_equal;
use crate::value::{
    entries_view, lemma_entries_view, members_from, members_get, members_sorted, Json, Object,
    Value,
};

verus! {

/// The name of the operation of a patch.
pub open spec fn op_name(patch: PatchView) -> Seq<char> {
    match patch {
        PatchView::Add { .. } => "add"@,
        PatchView::Remove { .. } => "remove"@,
        PatchView::Replace { .. } => "replace"@,
        PatchView::Copy { .. } => "copy"@,
        PatchView::Move { .. } => "move"@,
        PatchView::Test { .. } => "test"@,
    }
}

/// The members of the JSON form of a patch, in the order in which they are
/// bound: `op`, `path`, then `value` or `from`.
pub open spec fn patch_entries(patch: PatchView) -> Seq<(Seq<char>, Json)> {
    let op = ("op"@, Json::String(op_name(patch)));
    match patch {
        PatchView::Add { path, value } => seq![
            op,
            ("path"@, Json::String(path_text(path))),
            ("value"@, value),
        ],
        PatchView::Remove { path } => seq![op, ("path"@, Json::String(path_text(path)))],
        PatchView::Replace { path, value } => seq![
            op,
            ("path"@, Json::String(path_text(path))),
            ("value"@, value),
        ],
        PatchView::Copy { from, path } => seq![
            op,
            ("path"@, Json::String(path_text(path))),
            ("from"@, Json::String(path_text(from))),
        ],
        PatchView::Move { from, path } => seq![
            op,
            ("path"@, Json::String(path_text(path))),
            ("from"@, Json::String(path_text(from))),
        ],
        PatchView::Test { path, value } => seq![
            op,
            ("path"@, Json::String(path_text(path))),
            ("value"@, value),
        ],
    }
}

/// The JSON form of a patch.
pub open spec fn patch_json(patch: PatchView) -> Json {
    Json::Object(members_from(patch_entries(patch)))
}

/// The pointer that the member `key` of `members` spells, if it is a string
/// that is the text of a pointer.
pub open spec fn member_path(members: Seq<(Seq<char>, Json)>, key: Seq<char>) -> Option<
    Seq<Seq<char>>,
> {
    match members_get(members, key) {
        Some(Json::String(text)) => match parse_path(text) {
            Ok(path) => Some(path),
            Err(_) => None,
        },
        _ => None,
    }
}

/// The patch that a document is the JSON form of: the document is an
/// object; its member `op` is one of the six names; its member `path` is
/// the text of a pointer; for `add`, `replace` and `test` it has a member
/// `value`, and for `copy` and `move` a member `from` that is the text of a
/// pointer. Other members do not count.
pub open spec fn json_patch(doc: Json) -> Option<PatchView> {
    match doc {
        Json::Object(members) => match (members_get(members, "op"@), member_path(members, "path"@)) {
            (Some(Json::String(op)), Some(path)) => {
                if op == "add"@ {
                    match members_get(members, "value"@) {
                        Some(value) => Some(PatchView::Add { path, value }),
                        None => None,
                    }
                } else if op == "remove"@ {
                    Some(PatchView::Remove { path })
                } else if op == "replace"@ {
                    match members_get(members, "value"@) {
                        Some(value) => Some(PatchView::Replace { path, value }),
                        None => None,
                    }
                } else if op == "copy"@ {
                    match member_path(members, "from"@) {
                        Some(from) => Some(PatchView::Copy { from, path }),
                        None => None,
                    }
                } else if op == "move"@ {
                    match member_path(members, "from"@) {
                        Some(from) => Some(PatchView::Move { from, path }),
                        None => None,
                    }
                } else if op == "test"@ {
                    match members_get(members, "value"@) {
                        Some(value) => Some(PatchView::Test { path, value }),
                        None => None,
                    }
                } else {
                    None
                }
            },
            _ => None,
        },
        _ => None,
    }
}

/// The pointer that the member `key` of `members` spells.
fn path_member(members: &Object, key: &str) -> (path: Option<Path>)
    ensures
        match path {
            Some(p) => member_path(members@, key@) == Some(p@),
            None => member_path(members@, key@) is None,
        },
{
    match members.get(key) {
        Some(value) => match value {
            Value::String(text) => match Path::new(text.as_str()) {
                Ok(path) => Some(path),
                Err(_) => None,
            },
            _ => None,
        },
        None => None,
    }
}

/// A copy of the member `value` of `members`.
fn value_member(members: &Object) -> (value: Option<Value>)
    ensures
        match value {
            Some(v) => members_get(members@, "value"@) == Some(v@),
            None => members_get(members@, "value"@) is None,
        },
{
    match members.get("value") {
        Some(value) => Some(value.clone()),
        None => None,
    }
}

impl Patch {
    /// The JSON form of this patch.
    pub fn to_value(&self) -> (doc: Value)
        ensures
            doc@ == patch_json(self@),
    {
        let mut entries: Vec<(String, Value)> = Vec::new();
        let op = match self {
            Patch::Add { .. } => "add",
            Patch::Remove { .. } => "remove",
            Patch::Replace { .. } => "replace",
            Patch::Copy { .. } => "copy",
            Patch::Move { .. } => "move",
            Patch::Test { .. } => "test",
        };
        entries.push((String::from_str("op"), Value::String(String::from_str(op))));
        match self {
            Patch::Add { path, value } => {
                entries.push((String::from_str("path"), Value::String(path.to_escaped())));
                entries.push((String::from_str("value"), value.clone()));
            },
            Patch::Remove { path } => {
                entries.push((String::from_str("path"), Value::String(path.to_escaped())));
            },
            Patch::Replace { path, value } => {
                entries.push((String::from_str("path"), Value::String(path.to_escaped())));
                entries.push((String::from_str("value"), value.clone()));
            },
            Patch::Copy { from, path } => {
                entries.push((String::from_str("path"), Value::String(path.to_escaped())));
                entries.push((String::from_str("from"), Value::String(from.to_escaped())));
            },
            Patch::Move { from, path } => {
                entries.push((String::from_str("path"), Value::String(path.to_escaped())));
                entries.push((String::from_str("from"), Value::String(from.to_escaped())));
            },
            Patch::Test { path, value } => {
                entries.push((String::from_str("path"), Value::String(path.to_escaped())));
                entries.push((String::from_str("value"), value.clone()));
            },
        }
        proof {
            lemma_entries_view(entries@);
            assert(entries_view(entries@) =~= patch_entries(self@));
        }
        Value::Object(Object::from_entries(entries))
    }

    /// The patch that `value` is the JSON form of, if it is one.
    pub fn from_value(value: &Value) -> (patch: Option<Patch>)
        ensures
            match patch {
                Some(p) => json_patch(value@) == Some(p@),
                None => json_patch(value@) is None,
            },
    {
        let members = match value {
            Value::Object(members) => members,
            _ => {
                return None;
            },
        };
        let op = match members.get("op") {
            Some(name) => match name {
                Value::String(op) => op,
                _ => {
                    return None;
                },
            },
            None => {
                return None;
            },
        };
        let path = match path_member(members, "path") {
            Some(path) => path,
            None => {
                return None;
            },
        };
        if key_equal(op.as_str(), "add") {
            match value_member(members) {
                Some(value) => Some(Patch::Add { path, value }),
                None => None,
            }
        } else if key_equal(op.as_str(), "remove") {
            Some(Patch::Remove { path })
        } else if key_equal(op.as_str(), "replace") {
            match value_member(members) {
                Some(value) => Some(Patch::Replace { path, value }),
                None => None,
            }
        } else if key_equal(op.as_str(), "copy") {
            match path_member(members, "from") {
                Some(from) => Some(Patch::Copy { from, path }),
                None => None,
            }
        } else if key_equal(op.as_str(), "move") {
            match path_member(members, "from") {
                Some(from) => Some(Patch::Move { from, path }),
                None => None,
            }
        } else if key_equal(op.as_str(), "test") {
            match value_member(members) {
                Some(value) => Some(Patch::Test { path, value }),
                None => None,
            }
        } else {
            None
        }
    }
}

/// Members bound one after the other are sorted.
pub proof fn lemma_members_from_sorted(entries: Seq<(Seq<char>, Json)>)
    ensures
        members_sorted(members_from(entries)),
    decreases entries.len(),
{
    if entries.len() > 0 {
        lemma_members_from_sorted(entries.drop_last());
        lemma_insert_sorted(
            members_from(entries.drop_last()),
            entries.last().0,
            entries.last().1,
        );
    }
}

/// After one more member is bound, its key finds its value and every
/// other key finds what it found before.
pub proof fn lemma_get_members_from(
    entries: Seq<(Seq<char>, Json)>,
    key: Seq<char>,
    value: Json,
    other: Seq<char>,
)
    ensures
        members_get(members_from(entries.push((key, value))), other) == (if other == key {
            Some(value)
        } else {
            members_get(members_from(entries), other)
        }),
{
    let more = entries.push((key, value));
    assert(more.drop_last() =~= entries);
    assert(more.last() == (key, value));
    lemma_members_from_sorted(entries);
    lemma_get_after_insert(members_from(entries), key, value, other);
}

/// The names of the members and of the operations differ from one
/// another.
proof fn lemma_names_differ()
    ensures
        "op"@ != "path"@,
        "op"@ != "value"@,
        "op"@ != "from"@,
        "path"@ != "value"@,
        "path"@ != "from"@,
        "value"@ != "from"@,
        "add"@ != "remove"@,
        "add"@ != "replace"@,
        "add"@ != "copy"@,
        "add"@ != "move"@,
        "add"@ != "test"@,
        "remove"@ != "replace"@,
        "remove"@ != "copy"@,
        "remove"@ != "move"@,
        "remove"@ != "test"@,
        "replace"@ != "copy"@,
        "replace"@ != "move"@,
        "replace"@ != "test"@,
        "copy"@ != "move"@,
        "copy"@ != "test"@,
        "move"@ != "test"@,
{
    reveal_strlit("op");
    reveal_strlit("path");
    reveal_strlit("value");
    reveal_strlit("from");
    reveal_strlit("add");
    reveal_strlit("remove");
    reveal_strlit("replace");
    reveal_strlit("copy");
    reveal_strlit("move");
    reveal_strlit("test");
    assert("op"@.len() == 2);
    assert("path"@.len() == 4);
    assert("value"@.len() == 5);
    assert("from"@.len() == 4);
    assert("add"@.len() == 3);
    assert("remove"@.len() == 6);
    assert("replace"@.len() == 7);
    assert("copy"@.len() == 4);
    assert("move"@.len() == 4);
    assert("test"@.len() == 4);
    assert("remove"@[2] != "replace"@[2]);
    assert("path"@[0] != "from"@[0]);
    assert("copy"@[0] != "move"@[0]);
    assert("copy"@[0] != "test"@[0]);
    assert("move"@[0] != "test"@[0]);
}

/// What the members of the JSON form of a patch hold under a key.
proof fn lemma_patch_members(patch: PatchView, key: Seq<char>)
    ensures
        members_get(members_from(patch_entries(patch)), key) == (if key == "op"@ {
            Some(Json::String(op_name(patch)))
        } else if key == "path"@ {
            Some(
                Json::String(
                    path_text(
                        match patch {
                            PatchView::Add { path, .. } => path,
                            PatchView::Remove { path } => path,
                            PatchView::Replace { path, .. } => path,
                            PatchView::Copy { path, .. } => path,
                            PatchView::Move { path, .. } => path,
                            PatchView::Test { path, .. } => path,
                        },
                    ),
                ),
            )
        } else if key == "value"@ {
            match patch {
                PatchView::Add { value, .. } => Some(value),
                PatchView::Replace { value, .. } => Some(value),
                PatchView::Test { value, .. } => Some(value),
                _ => None,
            }
        } else if key == "from"@ {
            match patch {
                PatchView::Copy { from, .. } => Some(Json::String(path_text(from))),
                PatchView::Move { from, .. } => Some(Json::String(path_text(from))),
                _ => None,
            }
        } else {
            None
        }),
{
    lemma_names_differ();
    let entries = patch_entries(patch);
    let none = Seq::<(Seq<char>, Json)>::empty();
    let one = none.push(entries[0]);
    let two = one.push(entries[1]);
    assert(members_get(members_from(none), key) is None);
    lemma_get_members_from(none, entries[0].0, entries[0].1, key);
    lemma_get_members_from(one, entries[1].0, entries[1].1, key);
    if entries.len() == 2 {
        assert(entries =~= two);
    } else {
        let three = two.push(entries[2]);
        lemma_get_members_from(two, entries[2].0, entries[2].1, key);
        assert(entries =~= three);
    }
}

/// The JSON form of a patch is the form of that patch and of no other.
pub proof fn lemma_patch_of_json(patch: PatchView)
    ensures
        json_patch(patch_json(patch)) == Some(patch),
{
    lemma_names_differ();
    lemma_patch_members(patch, "op"@);
    lemma_patch_members(patch, "path"@);
    lemma_patch_members(patch, "value"@);
    lemma_patch_members(patch, "from"@);
    match patch {
        PatchView::Add { path, .. } => {
            lemma_parse_of_text(path);
        },
        PatchView::Remove { path } => {
            lemma_parse_of_text(path);
        },
        PatchView::Replace { path, .. } => {
            lemma_parse_of_text(path);
        },
        PatchView::Copy { from, path } => {
            lemma_parse_of_text(path);
            lemma_parse_of_text(from);
        },
        PatchView::Move { from, path } => {
            lemma_parse_of_text(path);
            lemma_parse_of_text(from);
        },
        PatchView::Test { path, .. } => {
            lemma_parse_of_text(path);
        },
    }
}

} // verus!
