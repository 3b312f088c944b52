//! Laws of the members of an object in key order: they behave as a map
//! from keys to values.

use vstd::prelude::*;
use crate::text::{key_lt, lemma_key_lt_irreflexive, lemma_key_lt_total, lemma_key_lt_transitive};
use crate::value::{
    lemma_member_index_bounds, lemma_member_place_bounds, member_index, member_place,
    members_get, members_insert, members_remove, members_sorted, Json,
};

verus! {

/// In sorted members two members with one key are one member.
pub proof fn lemma_sorted_keys_differ(members: Seq<(Seq<char>, Json)>, i: int, j: int)
    requires
        members_sorted(members),
        0 <= i < members.len(),
        0 <= j < members.len(),
        members[i].0 == members[j].0,
    ensures
        i == j,
{
    lemma_key_lt_irreflexive(members[i].0);
    if i < j {
        assert(key_lt(members[i].0, members[j].0));
    } else if j < i {
        assert(key_lt(members[j].0, members[i].0));
    }
}

/// In sorted members the member at position `i` is the one that its key
/// finds.
pub proof fn lemma_index_of_member(members: Seq<(Seq<char>, Json)>, i: int)
    requires
        members_sorted(members),
        0 <= i < members.len(),
    ensures
        member_index(members, members[i].0) == i,
        member_place(members, members[i].0) == i,
        members_get(members, members[i].0) == Some(members[i].1),
{
    let key = members[i].0;
    lemma_member_index_bounds(members, key);
    lemma_member_place_bounds(members, key);
    lemma_key_lt_irreflexive(key);
    let found = member_index(members, key);
    if found < members.len() {
        lemma_sorted_keys_differ(members, found, i);
    } else {
        assert(members[i].0 != key);
    }
    let place = member_place(members, key);
    if place < i {
        assert(key_lt(members[place].0, members[i].0));
    } else if place > i {
        assert(key_lt(members[i].0, key));
    }
}

/// Binding a key keeps sorted members sorted.
pub proof fn lemma_insert_sorted(members: Seq<(Seq<char>, Json)>, key: Seq<char>, value: Json)
    requires
        members_sorted(members),
    ensures
        members_sorted(members_insert(members, key, value)),
{
    lemma_member_place_bounds(members, key);
    let place = member_place(members, key);
    let bound = members_insert(members, key, value);
    if place < members.len() && members[place].0 == key {
        assert forall|i: int, j: int| 0 <= i < j < bound.len() implies key_lt(
            #[trigger] bound[i].0,
            #[trigger] bound[j].0,
        ) by {
            assert(key_lt(members[i].0, members[j].0));
        }
    } else {
        assert forall|i: int| place <= i < members.len() implies key_lt(
            key,
            (#[trigger] members[i]).0,
        ) by {
            lemma_key_lt_total(members[place].0, key);
            if i > place {
                assert(key_lt(members[place].0, members[i].0));
                lemma_key_lt_transitive(key, members[place].0, members[i].0);
            }
        }
        assert forall|i: int, j: int| 0 <= i < j < bound.len() implies key_lt(
            #[trigger] bound[i].0,
            #[trigger] bound[j].0,
        ) by {
            if j < place {
                assert(key_lt(members[i].0, members[j].0));
            } else if j == place {
                assert(key_lt(members[i].0, key));
            } else if i < place {
                assert(key_lt(members[i].0, members[j - 1].0));
            } else if i == place {
                assert(key_lt(key, members[j - 1].0));
            } else {
                assert(key_lt(members[i - 1].0, members[j - 1].0));
            }
        }
    }
}

/// Taking a key out keeps sorted members sorted.
pub proof fn lemma_remove_sorted(members: Seq<(Seq<char>, Json)>, key: Seq<char>)
    requires
        members_sorted(members),
    ensures
        members_sorted(members_remove(members, key)),
{
    lemma_member_index_bounds(members, key);
    let found = member_index(members, key);
    let left = members_remove(members, key);
    if found < members.len() {
        assert forall|i: int, j: int| 0 <= i < j < left.len() implies key_lt(
            #[trigger] left[i].0,
            #[trigger] left[j].0,
        ) by {
            let oi = if i < found {
                i
            } else {
                i + 1
            };
            let oj = if j < found {
                j
            } else {
                j + 1
            };
            assert(key_lt(members[oi].0, members[oj].0));
        }
    }
}

/// After `key` is bound to `value` in sorted members, `key` finds `value`
/// and every other key finds what it found before.
pub proof fn lemma_get_after_insert(
    members: Seq<(Seq<char>, Json)>,
    key: Seq<char>,
    value: Json,
    other: Seq<char>,
)
    requires
        members_sorted(members),
    ensures
        members_get(members_insert(members, key, value), other) == (if other == key {
            Some(value)
        } else {
            members_get(members, other)
        }),
{
    lemma_member_place_bounds(members, key);
    lemma_insert_sorted(members, key, value);
    let place = member_place(members, key);
    let bound = members_insert(members, key, value);
    let shifted = !(place < members.len() && members[place].0 == key);
    assert(bound[place] == (key, value));
    if other == key {
        lemma_index_of_member(bound, place);
    } else {
        lemma_member_index_bounds(members, other);
        let found = member_index(members, other);
        if found < members.len() {
            let at = if shifted && found >= place {
                found + 1
            } else {
                found
            };
            assert(bound[at] == members[found]);
            lemma_index_of_member(bound, at);
        } else {
            lemma_member_index_bounds(bound, other);
            let at = member_index(bound, other);
            if at < bound.len() {
                assert(at != place);
                let from = if shifted && at > place {
                    at - 1
                } else {
                    at
                };
                assert(members[from] == bound[at]);
                assert(members[from].0 == other);
            }
        }
    }
}

/// After `key` is taken out of sorted members, `key` finds nothing and
/// every other key finds what it found before.
pub proof fn lemma_get_after_remove(members: Seq<(Seq<char>, Json)>, key: Seq<char>, other: Seq<char>)
    requires
        members_sorted(members),
    ensures
        members_get(members_remove(members, key), other) == (if other == key {
            None
        } else {
            members_get(members, other)
        }),
{
    lemma_member_index_bounds(members, key);
    lemma_remove_sorted(members, key);
    let gone = member_index(members, key);
    let left = members_remove(members, key);
    lemma_member_index_bounds(left, other);
    lemma_member_index_bounds(members, other);
    let at = member_index(left, other);
    if gone < members.len() {
        if at < left.len() {
            let from = if at < gone {
                at
            } else {
                at + 1
            };
            assert(members[from] == left[at]);
            lemma_index_of_member(members, from);
            if other == key {
                lemma_sorted_keys_differ(members, from, gone);
            }
        } else if other != key {
            let found = member_index(members, other);
            if found < members.len() {
                let to = if found < gone {
                    found
                } else {
                    found - 1
                };
                assert(left[to] == members[found]);
                assert(left[to].0 == other);
            }
        }
    }
}

/// Taking a key out and binding it again is binding it, in sorted members.
pub proof fn lemma_insert_after_remove(members: Seq<(Seq<char>, Json)>, key: Seq<char>, value: Json)
    requires
        members_sorted(members),
    ensures
        members_insert(members_remove(members, key), key, value) == members_insert(
            members,
            key,
            value,
        ),
{
    lemma_remove_sorted(members, key);
    lemma_insert_sorted(members, key, value);
    lemma_insert_sorted(members_remove(members, key), key, value);
    let a = members_insert(members_remove(members, key), key, value);
    let b = members_insert(members, key, value);
    assert forall|other: Seq<char>| members_get(a, other) == members_get(b, other) by {
        lemma_get_after_remove(members, key, other);
        lemma_get_after_insert(members_remove(members, key), key, value, other);
        lemma_get_after_insert(members, key, value, other);
    }
    lemma_members_equal(a, b);
}

/// Sorted members in which every key finds the same are the same.
pub proof fn lemma_members_equal(a: Seq<(Seq<char>, Json)>, b: Seq<(Seq<char>, Json)>)
    requires
        members_sorted(a),
        members_sorted(b),
        forall|key: Seq<char>| members_get(a, key) == members_get(b, key),
    ensures
        a == b,
    decreases a.len(),
{
    if a.len() == 0 {
        if b.len() > 0 {
            lemma_index_of_member(b, 0);
            assert(members_get(a, b[0].0) is None);
        }
        assert(a =~= b);
    } else {
        lemma_index_of_member(a, 0);
        let key = a[0].0;
        assert(members_get(b, key) == Some(a[0].1));
        lemma_member_index_bounds(b, key);
        let at = member_index(b, key);
        if at > 0 {
            lemma_index_of_member(b, 0);
            assert(members_get(a, b[0].0) == Some(b[0].1));
            lemma_member_index_bounds(a, b[0].0);
            let back = member_index(a, b[0].0);
            assert(key_lt(b[0].0, b[at].0));
            lemma_key_lt_irreflexive(key);
            if back > 0 {
                assert(key_lt(a[0].0, a[back].0));
                lemma_key_lt_transitive(key, b[0].0, key);
            }
        }
        assert(b[0] == a[0]);
        let ra = a.skip(1);
        let rb = b.skip(1);
        assert(members_sorted(ra)) by {
            assert forall|i: int, j: int| 0 <= i < j < ra.len() implies key_lt(
                #[trigger] ra[i].0,
                #[trigger] ra[j].0,
            ) by {
                assert(key_lt(a[i + 1].0, a[j + 1].0));
            }
        }
        assert(members_sorted(rb)) by {
            assert forall|i: int, j: int| 0 <= i < j < rb.len() implies key_lt(
                #[trigger] rb[i].0,
                #[trigger] rb[j].0,
            ) by {
                assert(key_lt(b[i + 1].0, b[j + 1].0));
            }
        }
        assert forall|other: Seq<char>| members_get(ra, other) == members_get(rb, other) by {
            lemma_member_index_bounds(ra, other);
            lemma_member_index_bounds(rb, other);
            if other == key {
                let ia = member_index(ra, other);
                if ia < ra.len() {
                    assert(a[ia + 1].0 == key);
                    lemma_sorted_keys_differ(a, 0, ia + 1);
                }
                let ib = member_index(rb, other);
                if ib < rb.len() {
                    assert(b[ib + 1].0 == key);
                    lemma_sorted_keys_differ(b, 0, ib + 1);
                }
            } else {
                assert(members_get(a, other) == members_get(b, other));
                assert(member_index(a, other) == 1 + member_index(ra, other));
                assert(member_index(b, other) == 1 + member_index(rb, other));
                let ia = member_index(ra, other);
                if ia < ra.len() {
                    assert(ra[ia] == a[ia + 1]);
                }
                let ib = member_index(rb, other);
                if ib < rb.len() {
                    assert(rb[ib] == b[ib + 1]);
                }
            }
        }
        lemma_members_equal(ra, rb);
        assert(a =~= seq![a[0]] + ra);
        assert(b =~= seq![b[0]] + rb);
    }
}

} // verus!
