//! Well-formedness is kept: what the operations make of well-formed
//! documents is well formed.

use vstd::prelude::*;
use crate::diff::{diff_added, diff_pairs, diff_removed, diff_shared, json_diff_at};
use crate::laws::place::{
    lemma_array_wf, lemma_at_wf, lemma_insert_wf, lemma_member_wf, lemma_object_wf,
    lemma_remove_wf,
};
use crate::patch::apply::add::json_add;
use crate::patch::apply::remove::json_remove;
use crate::patch::apply::{json_apply, json_apply_all};
use crate::patch::walk::array_index;
use crate::patch::PatchView;
use crate::value::{members_from, members_get, members_remove, Json};

verus! {

/// Whether the value that a patch carries, if it carries one, is well
/// formed.
pub open spec fn patch_wf(patch: PatchView) -> bool {
    match patch {
        PatchView::Add { value, .. } => value.wf(),
        PatchView::Replace { value, .. } => value.wf(),
        PatchView::Test { value, .. } => value.wf(),
        _ => true,
    }
}

/// Whether every patch of a sequence is well formed.
pub open spec fn patches_wf(patches: Seq<PatchView>) -> bool {
    forall|i: int| 0 <= i < patches.len() ==> patch_wf(#[trigger] patches[i])
}

/// Members bound one after the other, each to a well-formed value, are
/// well formed.
pub proof fn lemma_members_from_wf(entries: Seq<(Seq<char>, Json)>)
    requires
        forall|i: int| 0 <= i < entries.len() ==> (#[trigger] entries[i]).1.wf(),
    ensures
        Json::Object(members_from(entries)).wf(),
    decreases entries.len(),
{
    if entries.len() == 0 {
        lemma_object_wf(members_from(entries));
    } else {
        let init = entries.drop_last();
        assert forall|i: int| 0 <= i < init.len() implies (#[trigger] init[i]).1.wf() by {
            assert(init[i] == entries[i]);
        }
        lemma_members_from_wf(init);
        assert(entries.last().1.wf());
        lemma_insert_wf(members_from(init), entries.last().0, entries.last().1);
    }
}

/// Adding a well-formed value to a well-formed document gives a
/// well-formed document.
pub proof fn lemma_add_wf(doc: Json, value: Json, path: Seq<Seq<char>>)
    requires
        doc.wf(),
        value.wf(),
        json_add(doc, value, path) is Ok,
    ensures
        json_add(doc, value, path)->Ok_0.wf(),
    decreases path.len(),
{
    if path.len() > 0 {
        let head = path[0];
        let tail = path.skip(1);
        match doc {
            Json::Object(members) => {
                if tail.len() == 0 {
                    lemma_insert_wf(members, head, value);
                } else {
                    lemma_member_wf(members, head);
                    let inner = members_get(members, head)->Some_0;
                    lemma_add_wf(inner, value, tail);
                    lemma_remove_wf(members, head);
                    lemma_insert_wf(
                        members_remove(members, head),
                        head,
                        json_add(inner, value, tail)->Ok_0,
                    );
                }
            },
            Json::Array(items) => {
                let i = array_index(items.len(), head)->Ok_0 as int;
                lemma_array_wf(items);
                if tail.len() == 0 {
                    let grown = items.insert(i, value);
                    lemma_array_wf(grown);
                    assert forall|k: int| 0 <= k < grown.len() implies (#[trigger] grown[k]).wf() by {
                        if k < i {
                            assert(grown[k] == items[k]);
                        } else if k > i {
                            assert(grown[k] == items[k - 1]);
                        }
                    }
                } else {
                    lemma_add_wf(items[i], value, tail);
                    let changed = items.update(i, json_add(items[i], value, tail)->Ok_0);
                    lemma_array_wf(changed);
                    assert forall|k: int| 0 <= k < changed.len() implies (
                    #[trigger] changed[k]).wf() by {
                        if k != i {
                            assert(changed[k] == items[k]);
                        }
                    }
                }
            },
            _ => {},
        }
    }
}

/// Removing from a well-formed document gives a well-formed document.
pub proof fn lemma_remove_keeps_wf(doc: Json, path: Seq<Seq<char>>)
    requires
        doc.wf(),
        json_remove(doc, path) is Ok,
    ensures
        json_remove(doc, path)->Ok_0.wf(),
    decreases path.len(),
{
    if path.len() > 0 {
        let head = path[0];
        let tail = path.skip(1);
        match doc {
            Json::Object(members) => {
                if tail.len() == 0 {
                    lemma_remove_wf(members, head);
                } else {
                    lemma_member_wf(members, head);
                    let inner = members_get(members, head)->Some_0;
                    lemma_remove_keeps_wf(inner, tail);
                    lemma_remove_wf(members, head);
                    lemma_insert_wf(
                        members_remove(members, head),
                        head,
                        json_remove(inner, tail)->Ok_0,
                    );
                }
            },
            Json::Array(items) => {
                let i = array_index(items.len(), head)->Ok_0 as int;
                lemma_array_wf(items);
                if tail.len() == 0 {
                    let left = items.remove(i);
                    lemma_array_wf(left);
                    assert forall|k: int| 0 <= k < left.len() implies (#[trigger] left[k]).wf() by {
                        if k < i {
                            assert(left[k] == items[k]);
                        } else {
                            assert(left[k] == items[k + 1]);
                        }
                    }
                } else {
                    lemma_remove_keeps_wf(items[i], tail);
                    let changed = items.update(i, json_remove(items[i], tail)->Ok_0);
                    lemma_array_wf(changed);
                    assert forall|k: int| 0 <= k < changed.len() implies (
                    #[trigger] changed[k]).wf() by {
                        if k != i {
                            assert(changed[k] == items[k]);
                        }
                    }
                }
            },
            _ => {},
        }
    }
}

/// A well-formed patch makes a well-formed document of a well-formed
/// document.
pub proof fn lemma_apply_wf(doc: Json, patch: PatchView)
    requires
        doc.wf(),
        patch_wf(patch),
        json_apply(doc, patch) is Ok,
    ensures
        json_apply(doc, patch)->Ok_0.wf(),
{
    match patch {
        PatchView::Add { path, value } => {
            lemma_add_wf(doc, value, path);
        },
        PatchView::Remove { path } => {
            lemma_remove_keeps_wf(doc, path);
        },
        PatchView::Replace { path, value } => {
            lemma_remove_keeps_wf(doc, path);
            lemma_add_wf(json_remove(doc, path)->Ok_0, value, path);
        },
        PatchView::Copy { from, path } => {
            lemma_at_wf(doc, from);
            lemma_add_wf(doc, crate::patch::walk::json_at(doc, from)->Ok_0, path);
        },
        PatchView::Move { from, path } => {
            if from != path {
                lemma_at_wf(doc, from);
                lemma_remove_keeps_wf(doc, from);
                lemma_add_wf(
                    json_remove(doc, from)->Ok_0,
                    crate::patch::walk::json_at(doc, from)->Ok_0,
                    path,
                );
            }
        },
        PatchView::Test { .. } => {},
    }
}

/// Well-formed patches make a well-formed document of a well-formed
/// document.
pub proof fn lemma_apply_all_wf(doc: Json, patches: Seq<PatchView>)
    requires
        doc.wf(),
        patches_wf(patches),
        json_apply_all(doc, patches) is Ok,
    ensures
        json_apply_all(doc, patches)->Ok_0.wf(),
    decreases patches.len(),
{
    if patches.len() > 0 {
        assert(patch_wf(patches[0]));
        lemma_apply_wf(doc, patches[0]);
        let rest = patches.skip(1);
        assert forall|i: int| 0 <= i < rest.len() implies patch_wf(#[trigger] rest[i]) by {
            assert(rest[i] == patches[i + 1]);
        }
        lemma_apply_all_wf(json_apply(doc, patches[0])->Ok_0, rest);
    }
}

/// The patches that lead to a well-formed document are well formed.
pub proof fn lemma_diff_wf(before: Json, after: Json, root: Seq<Seq<char>>)
    requires
        after.wf(),
    ensures
        patches_wf(json_diff_at(before, after, root)),
    decreases before, 1nat, 0nat,
{
    if before != after {
        match (before, after) {
            (Json::Object(b), Json::Object(a)) => {
                lemma_removed_wf(b, a, root);
                lemma_added_wf(b, a, root);
                lemma_shared_wf(b, a, root, b.len());
                assert(b.take(b.len() as int) =~= b);
            },
            (Json::Array(b), Json::Array(a)) => {
                let both: nat = if b.len() <= a.len() {
                    b.len()
                } else {
                    a.len()
                };
                lemma_pairs_wf(b, a, root, both);
                lemma_array_wf(a);
            },
            _ => {},
        }
    }
}

proof fn lemma_removed_wf(
    before: Seq<(Seq<char>, Json)>,
    after: Seq<(Seq<char>, Json)>,
    root: Seq<Seq<char>>,
)
    ensures
        patches_wf(diff_removed(before, after, root)),
    decreases before.len(),
{
    if before.len() > 0 {
        lemma_removed_wf(before.drop_last(), after, root);
    }
}

proof fn lemma_added_wf(
    before: Seq<(Seq<char>, Json)>,
    after: Seq<(Seq<char>, Json)>,
    root: Seq<Seq<char>>,
)
    requires
        forall|i: int| 0 <= i < after.len() ==> (#[trigger] after[i]).1.wf(),
    ensures
        patches_wf(diff_added(before, after, root)),
    decreases after.len(),
{
    if after.len() > 0 {
        let init = after.drop_last();
        assert forall|i: int| 0 <= i < init.len() implies (#[trigger] init[i]).1.wf() by {
            assert(init[i] == after[i]);
        }
        lemma_added_wf(before, init, root);
        assert(after.last().1.wf());
    }
}

proof fn lemma_shared_wf(
    before: Seq<(Seq<char>, Json)>,
    after: Seq<(Seq<char>, Json)>,
    root: Seq<Seq<char>>,
    n: nat,
)
    requires
        Json::Object(after).wf(),
        n <= before.len(),
    ensures
        patches_wf(diff_shared(before.take(n as int), after, root)),
    decreases Json::Object(before), 0nat, n,
{
    if n == 0 {
        assert(before.take(0).len() == 0);
    } else {
        lemma_shared_wf(before, after, root, (n - 1) as nat);
        let prefix = before.take(n as int);
        assert(prefix.drop_last() =~= before.take(n - 1));
        assert(prefix.last() == before[n - 1]);
        let key = before[n - 1].0;
        if members_get(after, key) is Some {
            lemma_member_wf(after, key);
            let whole = Json::Object(before);
            assert(decreases_to!(whole => whole->Object_0));
            assert(decreases_to!(whole->Object_0 => whole->Object_0[n - 1]));
            assert(decreases_to!(before[n - 1] => before[n - 1].1));
            lemma_diff_wf(
                before[n - 1].1,
                members_get(after, key)->Some_0,
                root + crate::path::segments_of(key),
            );
        }
    }
}

proof fn lemma_pairs_wf(before: Seq<Json>, after: Seq<Json>, root: Seq<Seq<char>>, n: nat)
    requires
        Json::Array(after).wf(),
        n <= before.len(),
        n <= after.len(),
    ensures
        patches_wf(diff_pairs(before, after, root, n)),
    decreases Json::Array(before), 0nat, n,
{
    if n > 0 {
        lemma_pairs_wf(before, after, root, (n - 1) as nat);
        lemma_array_wf(after);
        assert(after[n - 1].wf());
        let whole = Json::Array(before);
        assert(decreases_to!(whole => whole->Array_0));
        assert(decreases_to!(whole->Array_0 => whole->Array_0[n - 1]));
        lemma_diff_wf(
            before[n - 1],
            after[n - 1],
            root + crate::path::segments_of(crate::text::decimal((n - 1) as nat)),
        );
    }
}

} // verus!
