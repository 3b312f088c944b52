//! Laws of a place in a document: what is found there, and what adding,
//! removing and replacing there make of the document.

use vstd::prelude::*;
use crate::errors::ErrorView;
use crate::laws::members::{
    lemma_get_after_insert, lemma_index_of_member, lemma_insert_after_remove, lemma_insert_sorted,
    lemma_members_equal, lemma_remove_sorted,
};
use crate::patch::apply::add::json_add;
use crate::patch::apply::remove::json_remove;
use crate::patch::apply::replace::json_replace;
use crate::patch::walk::{array_index, json_at};
use crate::value::{
    lemma_member_index_bounds, lemma_member_place_bounds, member_index, member_place,
    members_get, members_insert, members_remove, members_sorted, Json,
};

verus! {

/// `doc` with `value` in the place of what stands at `path`; `doc` itself
/// where `path` leads nowhere in it.
pub open spec fn json_put(doc: Json, path: Seq<Seq<char>>, value: Json) -> Json
    decreases path.len(),
{
    if path.len() == 0 {
        value
    } else {
        let head = path[0];
        let tail = path.skip(1);
        match doc {
            Json::Object(members) => match members_get(members, head) {
                Some(inner) => Json::Object(
                    members_insert(members, head, json_put(inner, tail, value)),
                ),
                None => doc,
            },
            Json::Array(items) => match array_index(items.len(), head) {
                Ok(i) => if i < items.len() {
                    Json::Array(items.update(i as int, json_put(items[i as int], tail, value)))
                } else {
                    doc
                },
                Err(_) => doc,
            },
            _ => doc,
        }
    }
}

/// An array is well formed exactly where its elements are.
pub proof fn lemma_array_wf(items: Seq<Json>)
    ensures
        Json::Array(items).wf() <==> forall|i: int|
            0 <= i < items.len() ==> (#[trigger] items[i]).wf(),
{
    let doc = Json::Array(items);
    assert(doc->Array_0 == items);
}

/// An object is well formed exactly where its members are sorted and their
/// values well formed.
pub proof fn lemma_object_wf(members: Seq<(Seq<char>, Json)>)
    ensures
        Json::Object(members).wf() <==> members_sorted(members) && forall|i: int|
            0 <= i < members.len() ==> (#[trigger] members[i]).1.wf(),
{
    let doc = Json::Object(members);
    assert(doc->Object_0 == members);
}

/// The value that a key finds in the members of a well-formed object is
/// well formed.
pub proof fn lemma_member_wf(members: Seq<(Seq<char>, Json)>, key: Seq<char>)
    requires
        Json::Object(members).wf(),
        members_get(members, key) is Some,
    ensures
        members_get(members, key)->Some_0.wf(),
{
    lemma_member_index_bounds(members, key);
    let i = member_index(members, key);
    assert(members[i].1.wf());
}

/// Binding a key to a well-formed value keeps an object well formed.
pub proof fn lemma_insert_wf(members: Seq<(Seq<char>, Json)>, key: Seq<char>, value: Json)
    requires
        Json::Object(members).wf(),
        value.wf(),
    ensures
        Json::Object(members_insert(members, key, value)).wf(),
{
    lemma_insert_sorted(members, key, value);
    lemma_member_place_bounds(members, key);
    let place = member_place(members, key);
    let bound = members_insert(members, key, value);
    assert forall|i: int| 0 <= i < bound.len() implies (#[trigger] bound[i]).1.wf() by {
        if place < members.len() && members[place].0 == key {
            if i != place {
                assert(bound[i] == members[i]);
            }
        } else {
            if i < place {
                assert(bound[i] == members[i]);
            } else if i > place {
                assert(bound[i] == members[i - 1]);
            }
        }
    }
}

/// Taking a key out keeps an object well formed.
pub proof fn lemma_remove_wf(members: Seq<(Seq<char>, Json)>, key: Seq<char>)
    requires
        Json::Object(members).wf(),
    ensures
        Json::Object(members_remove(members, key)).wf(),
{
    lemma_remove_sorted(members, key);
    lemma_member_index_bounds(members, key);
    let gone = member_index(members, key);
    let left = members_remove(members, key);
    assert forall|i: int| 0 <= i < left.len() implies (#[trigger] left[i]).1.wf() by {
        if gone < members.len() {
            if i < gone {
                assert(left[i] == members[i]);
            } else {
                assert(left[i] == members[i + 1]);
            }
        }
    }
}

/// Binding a key to the value that it has changes nothing in sorted
/// members.
pub proof fn lemma_insert_same(members: Seq<(Seq<char>, Json)>, key: Seq<char>)
    requires
        members_sorted(members),
        members_get(members, key) is Some,
    ensures
        members_insert(members, key, members_get(members, key)->Some_0) == members,
{
    lemma_member_index_bounds(members, key);
    let i = member_index(members, key);
    lemma_index_of_member(members, i);
    assert(members.update(i, (key, members[i].1)) =~= members);
}

/// Binding a key twice is binding it to the second value, in sorted
/// members.
pub proof fn lemma_insert_twice(
    members: Seq<(Seq<char>, Json)>,
    key: Seq<char>,
    first: Json,
    second: Json,
)
    requires
        members_sorted(members),
    ensures
        members_insert(members_insert(members, key, first), key, second) == members_insert(
            members,
            key,
            second,
        ),
{
    let once = members_insert(members, key, first);
    lemma_insert_sorted(members, key, first);
    lemma_insert_sorted(once, key, second);
    lemma_insert_sorted(members, key, second);
    let a = members_insert(once, key, second);
    let b = members_insert(members, key, second);
    assert forall|other: Seq<char>| members_get(a, other) == members_get(b, other) by {
        lemma_get_after_insert(members, key, first, other);
        lemma_get_after_insert(once, key, second, other);
        lemma_get_after_insert(members, key, second, other);
    }
    lemma_members_equal(a, b);
}

/// What is found in a well-formed document is well formed.
pub proof fn lemma_at_wf(doc: Json, path: Seq<Seq<char>>)
    requires
        doc.wf(),
        json_at(doc, path) is Ok,
    ensures
        json_at(doc, path)->Ok_0.wf(),
    decreases path.len(),
{
    if path.len() > 0 {
        let head = path[0];
        let tail = path.skip(1);
        match doc {
            Json::Object(members) => {
                lemma_member_wf(members, head);
                lemma_at_wf(members_get(members, head)->Some_0, tail);
            },
            Json::Array(items) => {
                let i = array_index(items.len(), head)->Ok_0 as int;
                assert(items[i].wf());
                lemma_at_wf(items[i], tail);
            },
            _ => {},
        }
    }
}

/// Putting a well-formed value into a well-formed document gives a
/// well-formed document.
pub proof fn lemma_put_wf(doc: Json, path: Seq<Seq<char>>, value: Json)
    requires
        doc.wf(),
        value.wf(),
    ensures
        json_put(doc, path, value).wf(),
    decreases path.len(),
{
    if path.len() > 0 {
        let head = path[0];
        let tail = path.skip(1);
        match doc {
            Json::Object(members) => {
                if members_get(members, head) is Some {
                    lemma_member_wf(members, head);
                    let inner = members_get(members, head)->Some_0;
                    lemma_put_wf(inner, tail, value);
                    lemma_insert_wf(members, head, json_put(inner, tail, value));
                }
            },
            Json::Array(items) => {
                if array_index(items.len(), head) is Ok && array_index(items.len(), head)->Ok_0
                    < items.len() {
                    let i = array_index(items.len(), head)->Ok_0 as int;
                    assert(items[i].wf());
                    lemma_put_wf(items[i], tail, value);
                    let changed = items.update(i, json_put(items[i], tail, value));
                    assert forall|k: int| 0 <= k < changed.len() implies (
                    #[trigger] changed[k]).wf() by {
                        if k != i {
                            assert(items[k].wf());
                        }
                    }
                }
            },
            _ => {},
        }
    }
}

/// Looking up a path in two steps: what stands at `first + rest` is what
/// stands at `rest` in what stands at `first`.
pub proof fn lemma_at_concat(doc: Json, first: Seq<Seq<char>>, rest: Seq<Seq<char>>)
    ensures
        json_at(doc, first + rest) == (match json_at(doc, first) {
            Ok(found) => json_at(found, rest),
            Err(e) => Err(e),
        }),
    decreases first.len(),
{
    if first.len() == 0 {
        assert(first + rest =~= rest);
    } else {
        let whole = first + rest;
        assert(whole[0] == first[0]);
        assert(whole.skip(1) =~= first.skip(1) + rest);
        match doc {
            Json::Object(members) => {
                if members_get(members, first[0]) is Some {
                    lemma_at_concat(members_get(members, first[0])->Some_0, first.skip(1), rest);
                }
            },
            Json::Array(items) => {
                if array_index(items.len(), first[0]) is Ok && array_index(
                    items.len(),
                    first[0],
                )->Ok_0 < items.len() {
                    let i = array_index(items.len(), first[0])->Ok_0 as int;
                    lemma_at_concat(items[i], first.skip(1), rest);
                }
            },
            _ => {},
        }
    }
}

/// What was put at a place is found there.
pub proof fn lemma_at_put(doc: Json, path: Seq<Seq<char>>, value: Json)
    requires
        doc.wf(),
        json_at(doc, path) is Ok,
    ensures
        json_at(json_put(doc, path, value), path) == Ok::<Json, ErrorView>(value),
    decreases path.len(),
{
    if path.len() > 0 {
        let head = path[0];
        let tail = path.skip(1);
        match doc {
            Json::Object(members) => {
                lemma_member_wf(members, head);
                let inner = members_get(members, head)->Some_0;
                lemma_at_put(inner, tail, value);
                lemma_get_after_insert(members, head, json_put(inner, tail, value), head);
            },
            Json::Array(items) => {
                let i = array_index(items.len(), head)->Ok_0 as int;
                assert(items[i].wf());
                lemma_at_put(items[i], tail, value);
            },
            _ => {},
        }
    }
}

/// Putting there what stands there changes nothing.
pub proof fn lemma_put_same(doc: Json, path: Seq<Seq<char>>)
    requires
        doc.wf(),
        json_at(doc, path) is Ok,
    ensures
        json_put(doc, path, json_at(doc, path)->Ok_0) == doc,
    decreases path.len(),
{
    if path.len() > 0 {
        let head = path[0];
        let tail = path.skip(1);
        match doc {
            Json::Object(members) => {
                lemma_member_wf(members, head);
                let inner = members_get(members, head)->Some_0;
                lemma_put_same(inner, tail);
                lemma_insert_same(members, head);
            },
            Json::Array(items) => {
                let i = array_index(items.len(), head)->Ok_0 as int;
                assert(items[i].wf());
                lemma_put_same(items[i], tail);
                assert(items.update(i, items[i]) =~= items);
            },
            _ => {},
        }
    }
}

/// Of two values put at one place the second stays.
pub proof fn lemma_put_put(doc: Json, path: Seq<Seq<char>>, first: Json, second: Json)
    requires
        doc.wf(),
        json_at(doc, path) is Ok,
    ensures
        json_put(json_put(doc, path, first), path, second) == json_put(doc, path, second),
    decreases path.len(),
{
    if path.len() > 0 {
        let head = path[0];
        let tail = path.skip(1);
        match doc {
            Json::Object(members) => {
                lemma_member_wf(members, head);
                let inner = members_get(members, head)->Some_0;
                lemma_put_put(inner, tail, first, second);
                lemma_get_after_insert(members, head, json_put(inner, tail, first), head);
                lemma_insert_twice(
                    members,
                    head,
                    json_put(inner, tail, first),
                    json_put(inner, tail, second),
                );
            },
            Json::Array(items) => {
                let i = array_index(items.len(), head)->Ok_0 as int;
                assert(items[i].wf());
                lemma_put_put(items[i], tail, first, second);
                let once = items.update(i, json_put(items[i], tail, first));
                assert(once.update(i, json_put(items[i], tail, second)) =~= items.update(
                    i,
                    json_put(items[i], tail, second),
                ));
            },
            _ => {},
        }
    }
}

/// Putting at a path in two steps: to put `value` at `first + rest` is to
/// put at `first` what stands there with `value` put at `rest`.
pub proof fn lemma_put_concat(
    doc: Json,
    first: Seq<Seq<char>>,
    rest: Seq<Seq<char>>,
    value: Json,
)
    requires
        json_at(doc, first) is Ok,
    ensures
        json_put(doc, first + rest, value) == json_put(
            doc,
            first,
            json_put(json_at(doc, first)->Ok_0, rest, value),
        ),
    decreases first.len(),
{
    if first.len() == 0 {
        assert(first + rest =~= rest);
    } else {
        let whole = first + rest;
        assert(whole[0] == first[0]);
        assert(whole.skip(1) =~= first.skip(1) + rest);
        match doc {
            Json::Object(members) => {
                lemma_put_concat(
                    members_get(members, first[0])->Some_0,
                    first.skip(1),
                    rest,
                    value,
                );
            },
            Json::Array(items) => {
                let i = array_index(items.len(), first[0])->Ok_0 as int;
                lemma_put_concat(items[i], first.skip(1), rest, value);
            },
            _ => {},
        }
    }
}

/// An addition below a place is an addition in what stands there: where
/// adding at the non-empty path `rest` turns what stands at `first` into
/// `changed`, adding at `first + rest` puts `changed` at `first`.
pub proof fn lemma_add_below(
    doc: Json,
    first: Seq<Seq<char>>,
    rest: Seq<Seq<char>>,
    value: Json,
    changed: Json,
)
    requires
        doc.wf(),
        json_at(doc, first) is Ok,
        rest.len() > 0,
        json_add(json_at(doc, first)->Ok_0, value, rest) == Ok::<Json, ErrorView>(changed),
    ensures
        json_add(doc, value, first + rest) == Ok::<Json, ErrorView>(
            json_put(doc, first, changed),
        ),
    decreases first.len(),
{
    if first.len() == 0 {
        assert(first + rest =~= rest);
    } else {
        let whole = first + rest;
        assert(whole[0] == first[0]);
        assert(whole.skip(1) =~= first.skip(1) + rest);
        match doc {
            Json::Object(members) => {
                lemma_member_wf(members, first[0]);
                let inner = members_get(members, first[0])->Some_0;
                lemma_add_below(inner, first.skip(1), rest, value, changed);
                lemma_insert_after_remove(
                    members,
                    first[0],
                    json_put(inner, first.skip(1), changed),
                );
            },
            Json::Array(items) => {
                let i = array_index(items.len(), first[0])->Ok_0 as int;
                assert(items[i].wf());
                lemma_add_below(items[i], first.skip(1), rest, value, changed);
            },
            _ => {},
        }
    }
}

/// A removal below a place is a removal in what stands there.
pub proof fn lemma_remove_below(
    doc: Json,
    first: Seq<Seq<char>>,
    rest: Seq<Seq<char>>,
    changed: Json,
)
    requires
        doc.wf(),
        json_at(doc, first) is Ok,
        rest.len() > 0,
        json_remove(json_at(doc, first)->Ok_0, rest) == Ok::<Json, ErrorView>(changed),
    ensures
        json_remove(doc, first + rest) == Ok::<Json, ErrorView>(json_put(doc, first, changed)),
    decreases first.len(),
{
    if first.len() == 0 {
        assert(first + rest =~= rest);
    } else {
        let whole = first + rest;
        assert(whole[0] == first[0]);
        assert(whole.skip(1) =~= first.skip(1) + rest);
        match doc {
            Json::Object(members) => {
                lemma_member_wf(members, first[0]);
                let inner = members_get(members, first[0])->Some_0;
                lemma_remove_below(inner, first.skip(1), rest, changed);
                lemma_insert_after_remove(
                    members,
                    first[0],
                    json_put(inner, first.skip(1), changed),
                );
            },
            Json::Array(items) => {
                let i = array_index(items.len(), first[0])->Ok_0 as int;
                assert(items[i].wf());
                lemma_remove_below(items[i], first.skip(1), rest, changed);
            },
            _ => {},
        }
    }
}

/// Replacing what stands at a place puts the new value there.
pub proof fn lemma_replace_at(doc: Json, path: Seq<Seq<char>>, value: Json)
    requires
        doc.wf(),
        json_at(doc, path) is Ok,
    ensures
        json_replace(doc, value, path) == Ok::<Json, ErrorView>(json_put(doc, path, value)),
    decreases path.len(),
{
    if path.len() > 0 {
        let head = path[0];
        let tail = path.skip(1);
        match doc {
            Json::Object(members) => {
                lemma_member_wf(members, head);
                let inner = members_get(members, head)->Some_0;
                if tail.len() == 0 {
                    lemma_insert_after_remove(members, head, value);
                } else {
                    lemma_replace_at(inner, tail, value);
                    let without = json_remove(inner, tail)->Ok_0;
                    let between = members_insert(members_remove(members, head), head, without);
                    lemma_insert_after_remove(members, head, without);
                    lemma_get_after_insert(members, head, without, head);
                    lemma_insert_sorted(members, head, without);
                    lemma_insert_after_remove(between, head, json_put(inner, tail, value));
                    lemma_insert_twice(members, head, without, json_put(inner, tail, value));
                }
            },
            Json::Array(items) => {
                let i = array_index(items.len(), head)->Ok_0 as int;
                assert(items[i].wf());
                if tail.len() == 0 {
                    let without = items.remove(i);
                    assert(array_index(without.len(), head) == Ok::<nat, ErrorView>(i as nat));
                    assert(without.insert(i, value) =~= items.update(i, value));
                } else {
                    lemma_replace_at(items[i], tail, value);
                    let without = json_remove(items[i], tail)->Ok_0;
                    let between = items.update(i, without);
                    assert(between.update(i, json_put(items[i], tail, value)) =~= items.update(
                        i,
                        json_put(items[i], tail, value),
                    ));
                }
            },
            _ => {},
        }
    }
}

/// Adding at `-` appends to an array.
pub proof fn lemma_add_at_end(items: Seq<Json>, value: Json)
    ensures
        json_add(Json::Array(items), value, seq![seq!['-']]) == Ok::<Json, ErrorView>(
            Json::Array(items.push(value)),
        ),
{
    let path = seq![seq!['-']];
    assert(path.skip(1).len() == 0);
    assert(crate::text::parse_decimal(seq!['-']) is None) by {
        assert(!crate::text::is_digit(seq!['-'][0]));
    }
    assert(items.insert(items.len() as int, value) =~= items.push(value));
}

/// Adding at an index inserts into an array before the element that stands
/// there, or after the last one where the index is the length.
pub proof fn lemma_add_at_index(items: Seq<Json>, value: Json, index: nat)
    requires
        index <= items.len(),
        index <= usize::MAX,
    ensures
        json_add(Json::Array(items), value, seq![crate::text::decimal(index)]) == Ok::<
            Json,
            ErrorView,
        >(Json::Array(items.insert(index as int, value))),
{
    let path = seq![crate::text::decimal(index)];
    assert(path.skip(1).len() == 0);
    crate::text::lemma_decimal_parses(index);
}

} // verus!
