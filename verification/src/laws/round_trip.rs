//! The round trip: the patches that `diff` computes from one document to
//! another, applied to the first, give the second.

use vstd::prelude::*;
use crate::diff::{
    diff_added, diff_grow, diff_pairs, diff_removed, diff_shared, diff_shrink, json_diff,
    json_diff_at,
};
use crate::errors::ErrorView;
use crate::laws::members::{
    lemma_get_after_insert, lemma_get_after_remove, lemma_index_of_member, lemma_members_equal,
};
use crate::laws::place::{
    json_put, lemma_add_below, lemma_array_wf, lemma_at_concat, lemma_at_put, lemma_at_wf, lemma_insert_same,
    lemma_insert_wf, lemma_put_concat, lemma_put_put, lemma_put_same, lemma_put_wf,
    lemma_remove_below, lemma_remove_wf, lemma_replace_at,
};
use crate::patch::apply::add::json_add;
use crate::patch::apply::remove::json_remove;
use crate::patch::apply::{json_apply, json_apply_all};
use crate::patch::walk::json_at;
use crate::patch::PatchView;
use crate::path::{key_is_plain, lemma_decimal_is_plain, segments_of};
use crate::text::{decimal, lemma_decimal_parses};
use crate::value::{
    lemma_member_index_bounds, member_index, members_get, members_insert, members_remove,
    members_sorted, Json,
};

verus! {

/// Whether the patches from `before` to `after` address what they mean to:
/// every key that they have to name is plain, so that extending a pointer
/// by it adds that key as one segment, and every array that they have to
/// index is no longer than a `usize` can count. The keys are those that
/// only one of two objects has, and those under which two objects hold
/// different values.
pub open spec fn diffable(before: Json, after: Json) -> bool
    decreases before,
{
    before == after || match (before, after) {
        (Json::Object(b), Json::Object(a)) => {
            &&& forall|i: int|
                0 <= i < b.len() ==> match members_get(a, (#[trigger] b[i]).0) {
                    Some(value) => b[i].1 == value || (key_is_plain(b[i].0) && diffable(
                        b[i].1,
                        value,
                    )),
                    None => key_is_plain(b[i].0),
                }
            &&& forall|j: int|
                0 <= j < a.len() && members_get(b, (#[trigger] a[j]).0) is None ==> key_is_plain(
                    a[j].0,
                )
        },
        (Json::Array(b), Json::Array(a)) => {
            &&& b.len() <= usize::MAX
            &&& a.len() <= usize::MAX
            &&& forall|i: int| 0 <= i < b.len() && i < a.len() ==> diffable(#[trigger] b[i], a[i])
        },
        _ => true,
    }
}

/// Whether every key in `doc` is plain and every array in it is no longer
/// than a `usize` can count.
pub open spec fn plainly_keyed(doc: Json) -> bool
    decreases doc,
{
    match doc {
        Json::Array(items) => {
            &&& items.len() <= usize::MAX
            &&& forall|i: int| 0 <= i < items.len() ==> plainly_keyed(#[trigger] items[i])
        },
        Json::Object(members) => forall|i: int|
            0 <= i < members.len() ==> key_is_plain((#[trigger] members[i]).0) && plainly_keyed(
                members[i].1,
            ),
        _ => true,
    }
}

/// Between documents whose keys are all plain, the patches address what
/// they mean to.
pub proof fn lemma_plain_keys_diffable(before: Json, after: Json)
    requires
        plainly_keyed(before),
        plainly_keyed(after),
    ensures
        diffable(before, after),
    decreases before,
{
    if before != after {
        match (before, after) {
            (Json::Object(b), Json::Object(a)) => {
                assert forall|i: int| 0 <= i < b.len() implies match members_get(
                    a,
                    (#[trigger] b[i]).0,
                ) {
                    Some(value) => b[i].1 == value || (key_is_plain(b[i].0) && diffable(
                        b[i].1,
                        value,
                    )),
                    None => key_is_plain(b[i].0),
                } by {
                    lemma_member_index_bounds(a, b[i].0);
                    let j = member_index(a, b[i].0);
                    if j < a.len() {
                        assert(plainly_keyed(a[j].1));
                        lemma_plain_keys_diffable(b[i].1, a[j].1);
                    }
                }
            },
            (Json::Array(b), Json::Array(a)) => {
                assert forall|i: int| 0 <= i < b.len() && i < a.len() implies diffable(
                    #[trigger] b[i],
                    a[i],
                ) by {
                    assert(plainly_keyed(a[i]));
                    lemma_plain_keys_diffable(b[i], a[i]);
                }
            },
            _ => {},
        }
    }
}

/// Applying two sequences of patches one after the other is applying
/// their concatenation.
pub proof fn lemma_apply_all_concat(doc: Json, first: Seq<PatchView>, second: Seq<PatchView>)
    ensures
        json_apply_all(doc, first + second) == (match json_apply_all(doc, first) {
            Ok(between) => json_apply_all(between, second),
            Err(e) => Err(e),
        }),
    decreases first.len(),
{
    if first.len() == 0 {
        assert(first + second =~= second);
    } else {
        let whole = first + second;
        assert(whole[0] == first[0]);
        assert(whole.skip(1) =~= first.skip(1) + second);
        match json_apply(doc, first[0]) {
            Ok(next) => {
                lemma_apply_all_concat(next, first.skip(1), second);
            },
            Err(_) => {},
        }
    }
}

/// Applying a sequence of patches and then one more.
pub proof fn lemma_apply_all_push(doc: Json, patches: Seq<PatchView>, last: PatchView)
    ensures
        json_apply_all(doc, patches.push(last)) == (match json_apply_all(doc, patches) {
            Ok(between) => json_apply(between, last),
            Err(e) => Err(e),
        }),
{
    lemma_apply_all_concat(doc, patches, seq![last]);
    assert(patches.push(last) =~= patches + seq![last]);
    match json_apply_all(doc, patches) {
        Ok(between) => {
            lemma_apply_all_one(between, last);
        },
        Err(_) => {},
    }
}

/// Applying a sequence of one patch is applying the patch.
pub proof fn lemma_apply_all_one(doc: Json, patch: PatchView)
    ensures
        json_apply_all(doc, seq![patch]) == json_apply(doc, patch),
{
    let one = seq![patch];
    assert(one.len() == 1);
    assert(one[0] == patch);
    assert(one.skip(1).len() == 0);
    let outcome = json_apply(doc, patch);
    match outcome {
        Ok(next) => {
            assert(json_apply_all(next, one.skip(1)) == Ok::<Json, ErrorView>(next));
        },
        Err(_) => {},
    }
}

/// The members that are left of `start` once each of the first `n` members
/// of `before` whose key `after` lacks has been taken out.
pub open spec fn after_removals(
    start: Seq<(Seq<char>, Json)>,
    before: Seq<(Seq<char>, Json)>,
    after: Seq<(Seq<char>, Json)>,
    n: nat,
) -> Seq<(Seq<char>, Json)>
    decreases n,
{
    if n == 0 || n > before.len() {
        start
    } else {
        let sofar = after_removals(start, before, after, (n - 1) as nat);
        if members_get(after, before[n - 1].0) is None {
            members_remove(sofar, before[n - 1].0)
        } else {
            sofar
        }
    }
}

/// The members that `start` has become once each of the first `n` members
/// of `after` whose key `before` lacks has been put in.
pub open spec fn after_additions(
    start: Seq<(Seq<char>, Json)>,
    before: Seq<(Seq<char>, Json)>,
    after: Seq<(Seq<char>, Json)>,
    n: nat,
) -> Seq<(Seq<char>, Json)>
    decreases n,
{
    if n == 0 || n > after.len() {
        start
    } else {
        let sofar = after_additions(start, before, after, (n - 1) as nat);
        if members_get(before, after[n - 1].0) is None {
            members_insert(sofar, after[n - 1].0, after[n - 1].1)
        } else {
            sofar
        }
    }
}

/// The members that `start` has become once each of the first `n` keys of
/// `before` that `after` has too has been bound to its value in `after`.
pub open spec fn after_updates(
    start: Seq<(Seq<char>, Json)>,
    before: Seq<(Seq<char>, Json)>,
    after: Seq<(Seq<char>, Json)>,
    n: nat,
) -> Seq<(Seq<char>, Json)>
    decreases n,
{
    if n == 0 || n > before.len() {
        start
    } else {
        let sofar = after_updates(start, before, after, (n - 1) as nat);
        match members_get(after, before[n - 1].0) {
            Some(value) => members_insert(sofar, before[n - 1].0, value),
            None => sofar,
        }
    }
}

/// What a key finds after the removals.
proof fn lemma_after_removals(
    start: Seq<(Seq<char>, Json)>,
    before: Seq<(Seq<char>, Json)>,
    after: Seq<(Seq<char>, Json)>,
    n: nat,
)
    requires
        Json::Object(start).wf(),
        members_sorted(before),
        n <= before.len(),
    ensures
        Json::Object(after_removals(start, before, after, n)).wf(),
        forall|key: Seq<char>|
            #[trigger] members_get(after_removals(start, before, after, n), key) == (
            if member_index(before, key) < n && members_get(after, key) is None {
                None
            } else {
                members_get(start, key)
            }),
    decreases n,
{
    if n > 0 {
        lemma_after_removals(start, before, after, (n - 1) as nat);
        let sofar = after_removals(start, before, after, (n - 1) as nat);
        let gone = before[n - 1].0;
        lemma_index_of_member(before, n - 1);
        lemma_remove_wf(sofar, gone);
        assert forall|key: Seq<char>|
            #[trigger] members_get(after_removals(start, before, after, n), key) == (
            if member_index(before, key) < n && members_get(after, key) is None {
                None
            } else {
                members_get(start, key)
            }) by {
            lemma_member_index_bounds(before, key);
            lemma_get_after_remove(sofar, gone, key);
            assert(members_get(sofar, key) == (if member_index(before, key) < n - 1 && members_get(
                after,
                key,
            ) is None {
                None
            } else {
                members_get(start, key)
            }));
        }
    } else {
        assert forall|key: Seq<char>| member_index(before, key) >= 0 by {
            lemma_member_index_bounds(before, key);
        }
    }
}

/// What a key finds after the additions.
proof fn lemma_after_additions(
    start: Seq<(Seq<char>, Json)>,
    before: Seq<(Seq<char>, Json)>,
    after: Seq<(Seq<char>, Json)>,
    n: nat,
)
    requires
        Json::Object(start).wf(),
        Json::Object(after).wf(),
        n <= after.len(),
    ensures
        Json::Object(after_additions(start, before, after, n)).wf(),
        forall|key: Seq<char>|
            #[trigger] members_get(after_additions(start, before, after, n), key) == (
            if member_index(after, key) < n && members_get(before, key) is None {
                members_get(after, key)
            } else {
                members_get(start, key)
            }),
    decreases n,
{
    if n > 0 {
        lemma_after_additions(start, before, after, (n - 1) as nat);
        let sofar = after_additions(start, before, after, (n - 1) as nat);
        let key_in = after[n - 1].0;
        lemma_index_of_member(after, n - 1);
        assert(after[n - 1].1.wf());
        lemma_insert_wf(sofar, key_in, after[n - 1].1);
        assert forall|key: Seq<char>|
            #[trigger] members_get(after_additions(start, before, after, n), key) == (
            if member_index(after, key) < n && members_get(before, key) is None {
                members_get(after, key)
            } else {
                members_get(start, key)
            }) by {
            lemma_member_index_bounds(after, key);
            lemma_get_after_insert(sofar, key_in, after[n - 1].1, key);
            assert(members_get(sofar, key) == (if member_index(after, key) < n - 1 && members_get(
                before,
                key,
            ) is None {
                members_get(after, key)
            } else {
                members_get(start, key)
            }));
        }
    } else {
        assert forall|key: Seq<char>| member_index(after, key) >= 0 by {
            lemma_member_index_bounds(after, key);
        }
    }
}

/// What a key finds after the updates.
proof fn lemma_after_updates(
    start: Seq<(Seq<char>, Json)>,
    before: Seq<(Seq<char>, Json)>,
    after: Seq<(Seq<char>, Json)>,
    n: nat,
)
    requires
        Json::Object(start).wf(),
        Json::Object(after).wf(),
        members_sorted(before),
        n <= before.len(),
    ensures
        Json::Object(after_updates(start, before, after, n)).wf(),
        forall|key: Seq<char>|
            #[trigger] members_get(after_updates(start, before, after, n), key) == (
            if member_index(before, key) < n && members_get(after, key) is Some {
                members_get(after, key)
            } else {
                members_get(start, key)
            }),
    decreases n,
{
    if n > 0 {
        lemma_after_updates(start, before, after, (n - 1) as nat);
        let sofar = after_updates(start, before, after, (n - 1) as nat);
        let bound = before[n - 1].0;
        lemma_index_of_member(before, n - 1);
        if members_get(after, bound) is Some {
            crate::laws::place::lemma_member_wf(after, bound);
            lemma_insert_wf(sofar, bound, members_get(after, bound)->Some_0);
        }
        assert forall|key: Seq<char>|
            #[trigger] members_get(after_updates(start, before, after, n), key) == (
            if member_index(before, key) < n && members_get(after, key) is Some {
                members_get(after, key)
            } else {
                members_get(start, key)
            }) by {
            lemma_member_index_bounds(before, key);
            if members_get(after, bound) is Some {
                lemma_get_after_insert(sofar, bound, members_get(after, bound)->Some_0, key);
            }
            assert(members_get(sofar, key) == (if member_index(before, key) < n - 1 && members_get(
                after,
                key,
            ) is Some {
                members_get(after, key)
            } else {
                members_get(start, key)
            }));
        }
    } else {
        assert forall|key: Seq<char>| member_index(before, key) >= 0 by {
            lemma_member_index_bounds(before, key);
        }
    }
}

/// Removals, additions and updates together turn the members of `before`
/// into those of `after`.
proof fn lemma_members_become(before: Seq<(Seq<char>, Json)>, after: Seq<(Seq<char>, Json)>)
    requires
        Json::Object(before).wf(),
        Json::Object(after).wf(),
    ensures
        after_updates(
            after_additions(
                after_removals(before, before, after, before.len()),
                before,
                after,
                after.len(),
            ),
            before,
            after,
            before.len(),
        ) == after,
{
    let removed = after_removals(before, before, after, before.len());
    lemma_after_removals(before, before, after, before.len());
    let added = after_additions(removed, before, after, after.len());
    lemma_after_additions(removed, before, after, after.len());
    let updated = after_updates(added, before, after, before.len());
    lemma_after_updates(added, before, after, before.len());
    assert forall|key: Seq<char>| members_get(updated, key) == members_get(after, key) by {
        lemma_member_index_bounds(before, key);
        lemma_member_index_bounds(after, key);
        assert(members_get(removed, key) == (if member_index(before, key) < before.len()
            && members_get(after, key) is None {
            None
        } else {
            members_get(before, key)
        }));
        assert(members_get(added, key) == (if member_index(after, key) < after.len()
            && members_get(before, key) is None {
            members_get(after, key)
        } else {
            members_get(removed, key)
        }));
        assert(members_get(updated, key) == (if member_index(before, key) < before.len()
            && members_get(after, key) is Some {
            members_get(after, key)
        } else {
            members_get(added, key)
        }));
    }
    lemma_members_equal(updated, after);
}

/// The removals of an object diff, applied to a document that holds the
/// object at `root`, take the keys out there.
proof fn lemma_removals_apply(
    doc: Json,
    root: Seq<Seq<char>>,
    start: Seq<(Seq<char>, Json)>,
    before: Seq<(Seq<char>, Json)>,
    after: Seq<(Seq<char>, Json)>,
    n: nat,
)
    requires
        doc.wf(),
        json_at(doc, root) == Ok::<Json, ErrorView>(Json::Object(start)),
        members_sorted(before),
        n <= before.len(),
        forall|i: int|
            0 <= i < before.len() && members_get(after, (#[trigger] before[i]).0) is None
                ==> key_is_plain(before[i].0),
    ensures
        json_apply_all(doc, diff_removed(before.take(n as int), after, root)) == Ok::<
            Json,
            ErrorView,
        >(json_put(doc, root, Json::Object(after_removals(start, before, after, n)))),
    decreases n,
{
    lemma_at_wf(doc, root);
    if n == 0 {
        assert(before.take(0).len() == 0);
        lemma_put_same(doc, root);
    } else {
        lemma_removals_apply(doc, root, start, before, after, (n - 1) as nat);
        lemma_after_removals(start, before, after, (n - 1) as nat);
        let sofar = after_removals(start, before, after, (n - 1) as nat);
        let prefix = before.take(n as int);
        assert(prefix.drop_last() =~= before.take(n - 1));
        assert(prefix.last() == before[n - 1]);
        let key = before[n - 1].0;
        if members_get(after, key) is None {
            let patch = PatchView::Remove { path: root + segments_of(key) };
            lemma_apply_all_push(doc, diff_removed(before.take(n - 1), after, root), patch);
            let between = json_put(doc, root, Json::Object(sofar));
            lemma_put_wf(doc, root, Json::Object(sofar));
            lemma_at_put(doc, root, Json::Object(sofar));
            let left = Json::Object(members_remove(sofar, key));
            let rest = seq![key];
            assert(rest.skip(1).len() == 0);
            assert(json_remove(Json::Object(sofar), rest) == Ok::<Json, ErrorView>(left));
            lemma_remove_below(between, root, rest, left);
            lemma_put_put(doc, root, Json::Object(sofar), left);
        }
    }
}

/// The additions of an object diff, applied to a document that holds an
/// object at `root`, put the members in there.
proof fn lemma_additions_apply(
    doc: Json,
    root: Seq<Seq<char>>,
    start: Seq<(Seq<char>, Json)>,
    before: Seq<(Seq<char>, Json)>,
    after: Seq<(Seq<char>, Json)>,
    n: nat,
)
    requires
        doc.wf(),
        json_at(doc, root) == Ok::<Json, ErrorView>(Json::Object(start)),
        Json::Object(after).wf(),
        n <= after.len(),
        forall|j: int|
            0 <= j < after.len() && members_get(before, (#[trigger] after[j]).0) is None
                ==> key_is_plain(after[j].0),
    ensures
        json_apply_all(doc, diff_added(before, after.take(n as int), root)) == Ok::<
            Json,
            ErrorView,
        >(json_put(doc, root, Json::Object(after_additions(start, before, after, n)))),
    decreases n,
{
    lemma_at_wf(doc, root);
    if n == 0 {
        assert(after.take(0).len() == 0);
        lemma_put_same(doc, root);
    } else {
        lemma_additions_apply(doc, root, start, before, after, (n - 1) as nat);
        lemma_after_additions(start, before, after, (n - 1) as nat);
        let sofar = after_additions(start, before, after, (n - 1) as nat);
        let prefix = after.take(n as int);
        assert(prefix.drop_last() =~= after.take(n - 1));
        assert(prefix.last() == after[n - 1]);
        let key = after[n - 1].0;
        let value = after[n - 1].1;
        if members_get(before, key) is None {
            let patch = PatchView::Add { path: root + segments_of(key), value };
            lemma_apply_all_push(doc, diff_added(before, after.take(n - 1), root), patch);
            let between = json_put(doc, root, Json::Object(sofar));
            lemma_put_wf(doc, root, Json::Object(sofar));
            lemma_at_put(doc, root, Json::Object(sofar));
            let grown = Json::Object(members_insert(sofar, key, value));
            let rest = seq![key];
            assert(rest.skip(1).len() == 0);
            assert(json_add(Json::Object(sofar), value, rest) == Ok::<Json, ErrorView>(grown));
            lemma_add_below(between, root, rest, value, grown);
            lemma_put_put(doc, root, Json::Object(sofar), grown);
        }
    }
}

/// Repeated removal at one position drains an array from there: `count`
/// removals at position `at` of an array that stands at `root` take out the
/// `count` elements from `at` on, each removal taking the element that has
/// moved to that position.
pub proof fn lemma_shrink_applies(
    doc: Json,
    root: Seq<Seq<char>>,
    items: Seq<Json>,
    at: nat,
    count: nat,
)
    requires
        doc.wf(),
        json_at(doc, root) == Ok::<Json, ErrorView>(Json::Array(items)),
        at + count <= items.len(),
        at <= usize::MAX,
    ensures
        json_apply_all(doc, diff_shrink(at, count, root)) == Ok::<Json, ErrorView>(
            json_put(
                doc,
                root,
                Json::Array(items.take(at as int) + items.skip((at + count) as int)),
            ),
        ),
    decreases count,
{
    lemma_at_wf(doc, root);
    if count == 0 {
        assert(diff_shrink(at, count, root).len() == 0);
        assert(items.take(at as int) + items.skip(at as int) =~= items);
        lemma_put_same(doc, root);
    } else {
        lemma_shrink_applies(doc, root, items, at, (count - 1) as nat);
        let sofar = items.take(at as int) + items.skip(at + count - 1);
        let patch = PatchView::Remove { path: root + segments_of(decimal(at)) };
        assert(diff_shrink(at, count, root) =~= diff_shrink(at, (count - 1) as nat, root).push(
            patch,
        ));
        lemma_apply_all_push(doc, diff_shrink(at, (count - 1) as nat, root), patch);
        assert(Json::Array(sofar).wf()) by {
            lemma_array_wf(items);
            lemma_array_wf(sofar);
            assert forall|i: int| 0 <= i < sofar.len() implies (#[trigger] sofar[i]).wf() by {
                if i < at {
                    assert(sofar[i] == items[i]);
                } else {
                    assert(sofar[i] == items[i + count - 1]);
                }
            }
        }
        let between = json_put(doc, root, Json::Array(sofar));
        lemma_put_wf(doc, root, Json::Array(sofar));
        lemma_at_put(doc, root, Json::Array(sofar));
        let left = Json::Array(items.take(at as int) + items.skip((at + count) as int));
        lemma_decimal_is_plain(at);
        lemma_decimal_parses(at);
        let rest = seq![decimal(at)];
        assert(rest.skip(1).len() == 0);
        assert(sofar.remove(at as int) =~= items.take(at as int) + items.skip(
            (at + count) as int,
        ));
        assert(json_remove(Json::Array(sofar), rest) == Ok::<Json, ErrorView>(left));
        lemma_remove_below(between, root, rest, left);
        lemma_put_put(doc, root, Json::Array(sofar), left);
    }
}

/// The additions of an array diff, applied to a document that holds the
/// first `from` elements of `after` at `root`, append the next `count`.
proof fn lemma_grow_applies(
    doc: Json,
    root: Seq<Seq<char>>,
    after: Seq<Json>,
    from: nat,
    count: nat,
)
    requires
        doc.wf(),
        Json::Array(after).wf(),
        json_at(doc, root) == Ok::<Json, ErrorView>(Json::Array(after.take(from as int))),
        from + count <= after.len(),
        after.len() <= usize::MAX,
    ensures
        json_apply_all(doc, diff_grow(after.take((from + count) as int), from, root)) == Ok::<
            Json,
            ErrorView,
        >(json_put(doc, root, Json::Array(after.take((from + count) as int)))),
    decreases count,
{
    if count == 0 {
        assert(diff_grow(after.take(from as int), from, root).len() == 0);
        lemma_put_same(doc, root);
    } else {
        lemma_grow_applies(doc, root, after, from, (count - 1) as nat);
        let at = (from + count - 1) as nat;
        let sofar = after.take(at as int);
        let value = after[at as int];
        let patch = PatchView::Add { path: root + segments_of(decimal(at)), value };
        assert(diff_grow(after.take((from + count) as int), from, root) =~= diff_grow(
            sofar,
            from,
            root,
        ).push(patch));
        lemma_apply_all_push(doc, diff_grow(sofar, from, root), patch);
        lemma_array_wf(after);
        assert(Json::Array(sofar).wf()) by {
            lemma_array_wf(sofar);
            assert forall|i: int| 0 <= i < sofar.len() implies (#[trigger] sofar[i]).wf() by {
                assert(sofar[i] == after[i]);
            }
        }
        assert(value.wf());
        let between = json_put(doc, root, Json::Array(sofar));
        lemma_put_wf(doc, root, Json::Array(sofar));
        lemma_at_put(doc, root, Json::Array(sofar));
        let grown = Json::Array(after.take((from + count) as int));
        lemma_decimal_is_plain(at);
        lemma_decimal_parses(at);
        let rest = seq![decimal(at)];
        assert(rest.skip(1).len() == 0);
        assert(sofar.insert(at as int, value) =~= after.take((from + count) as int));
        assert(json_add(Json::Array(sofar), value, rest) == Ok::<Json, ErrorView>(grown));
        lemma_add_below(between, root, rest, value, grown);
        lemma_put_put(doc, root, Json::Array(sofar), grown);
    }
}

/// The elements of `before` with the first `n` of them replaced by those of
/// `after`.
pub open spec fn after_pairs(before: Seq<Json>, after: Seq<Json>, n: nat) -> Seq<Json> {
    Seq::new(
        before.len(),
        |i: int|
            if i < n {
                after[i]
            } else {
                before[i]
            },
    )
}

/// The patches for the values under the keys that two objects share,
/// applied to a document that holds an object at `root`, bind each of these
/// keys to its value in `after`.
proof fn lemma_updates_apply(
    doc: Json,
    root: Seq<Seq<char>>,
    start: Seq<(Seq<char>, Json)>,
    before: Seq<(Seq<char>, Json)>,
    after: Seq<(Seq<char>, Json)>,
    n: nat,
)
    requires
        doc.wf(),
        json_at(doc, root) == Ok::<Json, ErrorView>(Json::Object(start)),
        Json::Object(after).wf(),
        members_sorted(before),
        n <= before.len(),
        forall|i: int|
            0 <= i < before.len() ==> match members_get(after, (#[trigger] before[i]).0) {
                Some(value) => members_get(start, before[i].0) == Some(before[i].1) && (
                before[i].1 == value || (key_is_plain(before[i].0) && diffable(
                    before[i].1,
                    value,
                ))),
                None => true,
            },
    ensures
        json_apply_all(doc, diff_shared(before.take(n as int), after, root)) == Ok::<
            Json,
            ErrorView,
        >(json_put(doc, root, Json::Object(after_updates(start, before, after, n)))),
    decreases Json::Object(before), 0nat, n,
{
    lemma_at_wf(doc, root);
    if n == 0 {
        assert(before.take(0).len() == 0);
        lemma_put_same(doc, root);
    } else {
        lemma_updates_apply(doc, root, start, before, after, (n - 1) as nat);
        lemma_after_updates(start, before, after, (n - 1) as nat);
        let sofar = after_updates(start, before, after, (n - 1) as nat);
        let prefix = before.take(n as int);
        assert(prefix.drop_last() =~= before.take(n - 1));
        assert(prefix.last() == before[n - 1]);
        let key = before[n - 1].0;
        let old = before[n - 1].1;
        lemma_index_of_member(before, n - 1);
        match members_get(after, key) {
            Some(value) => {
                let earlier = diff_shared(before.take(n - 1), after, root);
                let more = json_diff_at(old, value, root + segments_of(key));
                lemma_apply_all_concat(doc, earlier, more);
                let between = json_put(doc, root, Json::Object(sofar));
                lemma_put_wf(doc, root, Json::Object(sofar));
                lemma_at_put(doc, root, Json::Object(sofar));
                assert(members_get(sofar, key) == Some(old));
                if old == value {
                    assert(more.len() == 0);
                    lemma_insert_same(sofar, key);
                } else {
                    let rest = seq![key];
                    assert(rest.skip(1).len() == 0);
                    assert(json_at(old, rest.skip(1)) == Ok::<Json, ErrorView>(old));
                    assert(json_at(Json::Object(sofar), rest) == Ok::<Json, ErrorView>(old));
                    lemma_at_concat(between, root, rest);
                    crate::laws::place::lemma_member_wf(after, key);
                    let whole = Json::Object(before);
                    assert(decreases_to!(whole => whole->Object_0));
                    assert(decreases_to!(whole->Object_0 => whole->Object_0[n - 1]));
                    assert(decreases_to!(before[n - 1] => before[n - 1].1));
                    lemma_diff_applies(between, root + rest, old, value);
                    lemma_put_concat(between, root, rest, value);
                    assert(json_put(old, rest.skip(1), value) == value);
                    assert(json_put(Json::Object(sofar), rest, value) == Json::Object(
                        members_insert(sofar, key, value),
                    ));
                    lemma_put_put(
                        doc,
                        root,
                        Json::Object(sofar),
                        Json::Object(members_insert(sofar, key, value)),
                    );
                }
            },
            None => {},
        }
    }
}

/// The patches for the elements at the positions that two arrays share,
/// applied to a document that holds the array `before` at `root`, replace
/// each of these elements by that of `after`.
proof fn lemma_pairs_apply(
    doc: Json,
    root: Seq<Seq<char>>,
    before: Seq<Json>,
    after: Seq<Json>,
    n: nat,
)
    requires
        doc.wf(),
        json_at(doc, root) == Ok::<Json, ErrorView>(Json::Array(before)),
        Json::Array(after).wf(),
        n <= before.len(),
        n <= after.len(),
        before.len() <= usize::MAX,
        forall|i: int| 0 <= i < n ==> diffable(#[trigger] before[i], after[i]),
    ensures
        json_apply_all(doc, diff_pairs(before, after, root, n)) == Ok::<Json, ErrorView>(
            json_put(doc, root, Json::Array(after_pairs(before, after, n))),
        ),
    decreases Json::Array(before), 0nat, n,
{
    lemma_at_wf(doc, root);
    if n == 0 {
        assert(after_pairs(before, after, 0) =~= before);
        lemma_put_same(doc, root);
    } else {
        let at = (n - 1) as nat;
        lemma_pairs_apply(doc, root, before, after, at);
        let sofar = after_pairs(before, after, at);
        let earlier = diff_pairs(before, after, root, at);
        let more = json_diff_at(before[at as int], after[at as int], root + segments_of(decimal(at)));
        lemma_apply_all_concat(doc, earlier, more);
        lemma_array_wf(after);
        lemma_array_wf(before);
        assert(Json::Array(sofar).wf()) by {
            lemma_array_wf(sofar);
            assert forall|i: int| 0 <= i < sofar.len() implies (#[trigger] sofar[i]).wf() by {
                if i < at {
                    assert(after[i].wf());
                } else {
                    assert(before[i].wf());
                }
            }
        }
        let between = json_put(doc, root, Json::Array(sofar));
        lemma_put_wf(doc, root, Json::Array(sofar));
        lemma_at_put(doc, root, Json::Array(sofar));
        lemma_decimal_is_plain(at);
        lemma_decimal_parses(at);
        let rest = seq![decimal(at)];
        assert(rest.skip(1).len() == 0);
        assert(sofar[at as int] == before[at as int]);
        assert(json_at(before[at as int], rest.skip(1)) == Ok::<Json, ErrorView>(
            before[at as int],
        ));
        assert(json_at(Json::Array(sofar), rest) == Ok::<Json, ErrorView>(before[at as int]));
        lemma_at_concat(between, root, rest);
        assert(after[at as int].wf());
        let whole = Json::Array(before);
        assert(decreases_to!(whole => whole->Array_0));
        assert(decreases_to!(whole->Array_0 => whole->Array_0[at as int]));
        lemma_diff_applies(between, root + rest, before[at as int], after[at as int]);
        lemma_put_concat(between, root, rest, after[at as int]);
        assert(sofar.update(at as int, after[at as int]) =~= after_pairs(before, after, n));
        assert(json_put(before[at as int], rest.skip(1), after[at as int]) == after[at as int]);
        assert(json_put(Json::Array(sofar), rest, after[at as int]) == Json::Array(
            after_pairs(before, after, n),
        ));
        lemma_put_put(
            doc,
            root,
            Json::Array(sofar),
            Json::Array(after_pairs(before, after, n)),
        );
    }
}

/// The patches from `before` to `after`, applied to a document that holds
/// `before` at `root`, put `after` there.
pub proof fn lemma_diff_applies(doc: Json, root: Seq<Seq<char>>, before: Json, after: Json)
    requires
        doc.wf(),
        after.wf(),
        json_at(doc, root) == Ok::<Json, ErrorView>(before),
        diffable(before, after),
    ensures
        json_apply_all(doc, json_diff_at(before, after, root)) == Ok::<Json, ErrorView>(
            json_put(doc, root, after),
        ),
    decreases before, 1nat, 0nat,
{
    lemma_at_wf(doc, root);
    if before == after {
        lemma_put_same(doc, root);
    } else {
        match (before, after) {
            (Json::Object(b), Json::Object(a)) => {
                let removed = after_removals(b, b, a, b.len());
                let added = after_additions(removed, b, a, a.len());
                let updated = after_updates(added, b, a, b.len());
                let first = diff_removed(b, a, root);
                let second = diff_added(b, a, root);
                let third = diff_shared(b, a, root);
                assert(b.take(b.len() as int) =~= b);
                assert(a.take(a.len() as int) =~= a);
                lemma_removals_apply(doc, root, b, b, a, b.len());
                lemma_after_removals(b, b, a, b.len());
                let one = json_put(doc, root, Json::Object(removed));
                lemma_put_wf(doc, root, Json::Object(removed));
                lemma_at_put(doc, root, Json::Object(removed));
                lemma_additions_apply(one, root, removed, b, a, a.len());
                lemma_after_additions(removed, b, a, a.len());
                lemma_put_put(doc, root, Json::Object(removed), Json::Object(added));
                let two = json_put(doc, root, Json::Object(added));
                lemma_put_wf(doc, root, Json::Object(added));
                lemma_at_put(doc, root, Json::Object(added));
                assert forall|i: int| 0 <= i < b.len() implies match members_get(
                    a,
                    (#[trigger] b[i]).0,
                ) {
                    Some(value) => members_get(added, b[i].0) == Some(b[i].1) && (b[i].1 == value
                        || (key_is_plain(b[i].0) && diffable(b[i].1, value))),
                    None => true,
                } by {
                    lemma_index_of_member(b, i);
                    lemma_member_index_bounds(a, b[i].0);
                    assert(members_get(removed, b[i].0) == (if member_index(b, b[i].0) < b.len()
                        && members_get(a, b[i].0) is None {
                        None
                    } else {
                        members_get(b, b[i].0)
                    }));
                    assert(members_get(added, b[i].0) == (if member_index(a, b[i].0) < a.len()
                        && members_get(b, b[i].0) is None {
                        members_get(a, b[i].0)
                    } else {
                        members_get(removed, b[i].0)
                    }));
                }
                lemma_updates_apply(two, root, added, b, a, b.len());
                lemma_put_put(doc, root, Json::Object(added), Json::Object(updated));
                lemma_members_become(b, a);
                lemma_apply_all_concat(doc, first, second);
                lemma_apply_all_concat(doc, first + second, third);
            },
            (Json::Array(b), Json::Array(a)) => {
                let both: nat = if b.len() <= a.len() {
                    b.len()
                } else {
                    a.len()
                };
                let first = diff_pairs(b, a, root, both);
                let second = diff_shrink(a.len(), (b.len() - both) as nat, root);
                let third = diff_grow(a, both, root);
                lemma_pairs_apply(doc, root, b, a, both);
                let paired = after_pairs(b, a, both);
                lemma_array_wf(a);
                lemma_array_wf(b);
                assert(Json::Array(paired).wf()) by {
                    lemma_array_wf(paired);
                    assert forall|i: int| 0 <= i < paired.len() implies (
                    #[trigger] paired[i]).wf() by {
                        if i < both {
                            assert(a[i].wf());
                        } else {
                            assert(b[i].wf());
                        }
                    }
                }
                let one = json_put(doc, root, Json::Array(paired));
                lemma_put_wf(doc, root, Json::Array(paired));
                lemma_at_put(doc, root, Json::Array(paired));
                lemma_apply_all_concat(doc, first, second);
                lemma_apply_all_concat(doc, first + second, third);
                if b.len() > a.len() {
                    lemma_shrink_applies(one, root, paired, a.len(), (b.len() - a.len()) as nat);
                    assert(paired.take(a.len() as int) + paired.skip(b.len() as int) =~= a);
                    lemma_put_put(doc, root, Json::Array(paired), Json::Array(a));
                    assert(third.len() == 0);
                } else {
                    assert(second.len() == 0);
                    assert(paired =~= a.take(b.len() as int));
                    lemma_grow_applies(one, root, a, b.len(), (a.len() - b.len()) as nat);
                    assert(a.take(a.len() as int) =~= a);
                    lemma_put_put(doc, root, Json::Array(paired), Json::Array(a));
                }
            },
            _ => {
                lemma_replace_at(doc, root, after);
                lemma_apply_all_one(doc, PatchView::Replace { path: root, value: after });
            },
        }
    }
}

/// The round trip: where `diff` addresses what it means to, the patches
/// that it computes from `before` to `after`, applied to `before`, give
/// `after`.
pub proof fn lemma_round_trip(before: Json, after: Json)
    requires
        before.wf(),
        after.wf(),
        diffable(before, after),
    ensures
        json_apply_all(before, json_diff(before, after)) == Ok::<Json, ErrorView>(after),
{
    lemma_diff_applies(before, Seq::empty(), before, after);
}

/// The round trip for documents whose keys are all plain.
pub proof fn lemma_round_trip_plain(before: Json, after: Json)
    requires
        before.wf(),
        after.wf(),
        plainly_keyed(before),
        plainly_keyed(after),
    ensures
        json_apply_all(before, json_diff(before, after)) == Ok::<Json, ErrorView>(after),
{
    lemma_plain_keys_diffable(before, after);
    lemma_round_trip(before, after);
}

} // verus!
