//! The patches that turn one document into another.

pub mod diff_vecs;

use vstd::prelude::*;
use crate::errors::ErrorView;
use crate::laws::round_trip::{diffable, lemma_round_trip};
use crate::laws::well_formed::{lemma_diff_wf, patches_wf};
use crate::patch::apply::json_apply_all;
use crate::patch::{patches_view, Patch, PatchView};
use crate::path::{segments_of, Path};
use crate::text::{decimal, decimal_string};
use crate::value::{lemma_values_view, members_get, Json, Object, Value};

verus! {

/// For each member of `before` whose key `after` lacks, in the order of
/// `before`, the removal of that key under `root`.
pub open spec fn diff_removed(
    before: Seq<(Seq<char>, Json)>,
    after: Seq<(Seq<char>, Json)>,
    root: Seq<Seq<char>>,
) -> Seq<PatchView>
    decreases before.len(),
{
    if before.len() == 0 {
        Seq::empty()
    } else {
        let init = diff_removed(before.drop_last(), after, root);
        let key = before.last().0;
        if members_get(after, key) is None {
            init.push(PatchView::Remove { path: root + segments_of(key) })
        } else {
            init
        }
    }
}

/// For each member of `after` whose key `before` lacks, in the order of
/// `after`, the addition of its value at that key under `root`.
pub open spec fn diff_added(
    before: Seq<(Seq<char>, Json)>,
    after: Seq<(Seq<char>, Json)>,
    root: Seq<Seq<char>>,
) -> Seq<PatchView>
    decreases after.len(),
{
    if after.len() == 0 {
        Seq::empty()
    } else {
        let init = diff_added(before, after.drop_last(), root);
        let key = after.last().0;
        if members_get(before, key) is None {
            init.push(PatchView::Add { path: root + segments_of(key), value: after.last().1 })
        } else {
            init
        }
    }
}

/// For each member of `before` whose key `after` has too, in the order of
/// `before`, the patches that turn the one value into the other at that key
/// under `root`.
pub open spec fn diff_shared(
    before: Seq<(Seq<char>, Json)>,
    after: Seq<(Seq<char>, Json)>,
    root: Seq<Seq<char>>,
) -> Seq<PatchView>
    decreases before, before.len(),
{
    if before.len() == 0 {
        Seq::empty()
    } else {
        let init = diff_shared(before.drop_last(), after, root);
        let key = before.last().0;
        match members_get(after, key) {
            Some(value) => init + json_diff_at(before.last().1, value, root + segments_of(key)),
            None => init,
        }
    }
}

/// For each of the first `n` positions, the patches that turn the element
/// of `before` into that of `after` at that position under `root`.
pub open spec fn diff_pairs(before: Seq<Json>, after: Seq<Json>, root: Seq<Seq<char>>, n: nat) -> Seq<
    PatchView,
>
    decreases before, n,
{
    if n == 0 || n > before.len() {
        Seq::empty()
    } else {
        diff_pairs(before, after, root, (n - 1) as nat) + json_diff_at(
            before[n - 1],
            after[n - 1],
            root + segments_of(decimal((n - 1) as nat)),
        )
    }
}

/// `count` removals at position `at` under `root`: each takes the element
/// that has moved there.
pub open spec fn diff_shrink(at: nat, count: nat, root: Seq<Seq<char>>) -> Seq<PatchView> {
    Seq::new(count, |i: int| PatchView::Remove { path: root + segments_of(decimal(at)) })
}

/// The additions of the elements of `after` from position `from` on, each
/// at its own position under `root`.
pub open spec fn diff_grow(after: Seq<Json>, from: nat, root: Seq<Seq<char>>) -> Seq<PatchView> {
    Seq::new(
        (after.len() - from) as nat,
        |i: int|
            PatchView::Add {
                path: root + segments_of(decimal((from + i) as nat)),
                value: after[from + i],
            },
    )
}

/// The patches that turn `before` into `after`, both standing at `root`.
/// None for equal documents. Two objects: the removals of the keys that
/// only `before` has, the additions of those that only `after` has, then
/// the patches for the values under the keys that both have. Two arrays:
/// the patches for the elements at the positions that both have, then the
/// removals of the elements that `before` has beyond `after`, or the
/// additions of those that `after` has beyond `before`. Otherwise one
/// replacement by `after`.
pub open spec fn json_diff_at(before: Json, after: Json, root: Seq<Seq<char>>) -> Seq<PatchView>
    decreases before, 0nat,
{
    if before == after {
        Seq::empty()
    } else {
        match (before, after) {
            (Json::Object(b), Json::Object(a)) => diff_removed(b, a, root) + diff_added(b, a, root)
                + diff_shared(b, a, root),
            (Json::Array(b), Json::Array(a)) => {
                let both = if b.len() <= a.len() {
                    b.len()
                } else {
                    a.len()
                };
                diff_pairs(b, a, root, both) + diff_shrink(
                    a.len(),
                    (b.len() - both) as nat,
                    root,
                ) + diff_grow(a, both, root)
            },
            _ => seq![PatchView::Replace { path: root, value: after }],
        }
    }
}

/// The patches that turn the document `before` into `after`.
pub open spec fn json_diff(before: Json, after: Json) -> Seq<PatchView> {
    json_diff_at(before, after, Seq::empty())
}

/// Computes the patches that turn `before` into `after`: none where the
/// two are equal, and patches that make `after` of `before` wherever they
/// address what they mean to.
pub fn diff(before: Value, after: Value) -> (patches: Vec<Patch>)
    ensures
        patches_view(patches@) == json_diff(before@, after@),
        before@ == after@ ==> patches@.len() == 0,
        after@.wf() ==> patches_wf(patches_view(patches@)),
        before@.wf() && after@.wf() && diffable(before@, after@) ==> json_apply_all(
            before@,
            patches_view(patches@),
        ) == Ok::<Json, ErrorView>(after@),
{
    proof {
        if after@.wf() {
            lemma_diff_wf(before@, after@, Seq::empty());
            if before@.wf() && diffable(before@, after@) {
                lemma_round_trip(before@, after@);
            }
        }
    }
    diff_with_root(&before, &after, Path::root())
}

fn diff_with_root(before: &Value, after: &Value, root: Path) -> (patches: Vec<Patch>)
    ensures
        patches_view(patches@) == json_diff_at(before@, after@, root@),
    decreases before@, 2nat,
{
    if *before == *after {
        let patches: Vec<Patch> = Vec::new();
        proof {
            assert(patches_view(patches@) =~= Seq::<PatchView>::empty());
        }
        return patches;
    }
    match (before, after) {
        (Value::Object(b), Value::Object(a)) => diff_maps(b, a, root),
        (Value::Array(b), Value::Array(a)) => {
            proof {
                lemma_values_view(b@);
                lemma_values_view(a@);
            }
            diff_vecs(b, a, root)
        },
        _ => {
            let mut patches: Vec<Patch> = Vec::new();
            patches.push(Patch::Replace { path: root, value: after.clone() });
            proof {
                assert(patches_view(patches@) =~= seq![
                    PatchView::Replace { path: root@, value: after@ },
                ]);
            }
            patches
        },
    }
}

fn diff_maps(before: &Object, after: &Object, root: Path) -> (patches: Vec<Patch>)
    ensures
        patches_view(patches@) == diff_removed(before@, after@, root@) + diff_added(
            before@,
            after@,
            root@,
        ) + diff_shared(before@, after@, root@),
    decreases Json::Object(before@), 1nat,
{
    let mut patches: Vec<Patch> = Vec::new();
    let mut i: usize = 0;
    proof {
        assert(before@.take(0) =~= Seq::<(Seq<char>, Json)>::empty());
        assert(patches_view(patches@) =~= Seq::<PatchView>::empty());
    }
    while i < before.len()
        invariant
            i <= before@.len(),
            patches_view(patches@) == diff_removed(before@.take(i as int), after@, root@),
        decreases before@.len() - i,
    {
        let key = before.key_at(i);
        let ghost sofar = patches_view(patches@);
        proof {
            assert(before@.take(i + 1).drop_last() =~= before@.take(i as int));
        }
        if !after.contains_key(key.as_str()) {
            patches.push(Patch::Remove { path: root.clone().join(key.as_str()) });
            proof {
                assert(patches_view(patches@) =~= sofar.push(
                    PatchView::Remove { path: root@ + segments_of(key@) },
                ));
            }
        }
        i += 1;
    }
    proof {
        assert(before@.take(i as int) =~= before@);
        assert(after@.take(0) =~= Seq::<(Seq<char>, Json)>::empty());
    }
    let ghost removed = patches_view(patches@);
    let mut j: usize = 0;
    proof {
        assert(removed + Seq::<PatchView>::empty() =~= removed);
    }
    while j < after.len()
        invariant
            j <= after@.len(),
            patches_view(patches@) == removed + diff_added(before@, after@.take(j as int), root@),
        decreases after@.len() - j,
    {
        let key = after.key_at(j);
        let ghost sofar = diff_added(before@, after@.take(j as int), root@);
        let ghost had = patches_view(patches@);
        proof {
            assert(after@.take(j + 1).drop_last() =~= after@.take(j as int));
        }
        if !before.contains_key(key.as_str()) {
            let value = after.value_at(j).clone();
            patches.push(Patch::Add { path: root.clone().join(key.as_str()), value });
            proof {
                assert(patches_view(patches@) =~= had.push(
                    PatchView::Add { path: root@ + segments_of(key@), value: value@ },
                ));
                assert(patches_view(patches@) =~= removed + sofar.push(
                    PatchView::Add { path: root@ + segments_of(key@), value: value@ },
                ));
            }
        }
        j += 1;
    }
    proof {
        assert(after@.take(j as int) =~= after@);
    }
    let ghost changed = patches_view(patches@);
    let mut k: usize = 0;
    proof {
        assert(changed + Seq::<PatchView>::empty() =~= changed);
    }
    while k < before.len()
        invariant
            k <= before@.len(),
            patches_view(patches@) == changed + diff_shared(before@.take(k as int), after@, root@),
        decreases before@.len() - k,
    {
        let key = before.key_at(k);
        let ghost sofar = diff_shared(before@.take(k as int), after@, root@);
        let ghost had = patches@;
        proof {
            assert(before@.take(k + 1).drop_last() =~= before@.take(k as int));
        }
        match after.get(key.as_str()) {
            Some(value) => {
                let old_value = before.value_at(k);
                proof {
                    let whole = Json::Object(before@);
                    assert(decreases_to!(whole => whole->Object_0));
                    assert(decreases_to!(whole->Object_0 => whole->Object_0[k as int]));
                    assert(decreases_to!(before@[k as int] => before@[k as int].1));
                    assert(decreases_to!(whole => old_value@));
                }
                let mut more = diff_with_root(old_value, value, root.clone().join(key.as_str()));
                let ghost added = more@;
                patches.append(&mut more);
                proof {
                    assert(patches_view(patches@) =~= patches_view(had) + patches_view(added));
                    assert(patches_view(patches@) =~= changed + (sofar + json_diff_at(
                        old_value@,
                        value@,
                        root@ + segments_of(key@),
                    )));
                }
            },
            None => {},
        }
        k += 1;
    }
    proof {
        assert(before@.take(k as int) =~= before@);
    }
    patches
}

fn diff_vecs(before: &Vec<Value>, after: &Vec<Value>, root: Path) -> (patches: Vec<Patch>)
    ensures
        patches_view(patches@) == diff_pairs(
            crate::value::values_view(before@),
            crate::value::values_view(after@),
            root@,
            (if before@.len() <= after@.len() {
                before@.len()
            } else {
                after@.len()
            }),
        ) + diff_shrink(
            after@.len(),
            (if before@.len() <= after@.len() {
                0nat
            } else {
                (before@.len() - after@.len()) as nat
            }),
            root@,
        ) + diff_grow(
            crate::value::values_view(after@),
            (if before@.len() <= after@.len() {
                before@.len()
            } else {
                after@.len()
            }),
            root@,
        ),
    decreases Json::Array(crate::value::values_view(before@)), 1nat,
{
    let ghost b = crate::value::values_view(before@);
    let ghost a = crate::value::values_view(after@);
    proof {
        lemma_values_view(before@);
        lemma_values_view(after@);
    }
    let both = if before.len() <= after.len() {
        before.len()
    } else {
        after.len()
    };
    let mut patches: Vec<Patch> = Vec::new();
    let mut i: usize = 0;
    proof {
        assert(patches_view(patches@) =~= Seq::<PatchView>::empty());
    }
    while i < both
        invariant
            i <= both,
            both <= before@.len(),
            both <= after@.len(),
            b == crate::value::values_view(before@),
            a == crate::value::values_view(after@),
            b.len() == before@.len(),
            a.len() == after@.len(),
            forall|j: int| 0 <= j < b.len() ==> #[trigger] b[j] == before@[j]@,
            forall|j: int| 0 <= j < a.len() ==> #[trigger] a[j] == after@[j]@,
            patches_view(patches@) == diff_pairs(b, a, root@, i as nat),
        decreases both - i,
    {
        let ghost had = patches@;
        proof {
            let whole = Json::Array(b);
            assert(decreases_to!(whole => whole->Array_0));
            assert(decreases_to!(whole->Array_0 => whole->Array_0[i as int]));
            assert(decreases_to!(whole => before@[i as int]@));
        }
        let mut more = diff_with_root(
            &before[i],
            &after[i],
            root.clone().join(decimal_string(i).as_str()),
        );
        let ghost added = more@;
        patches.append(&mut more);
        proof {
            assert(patches_view(patches@) =~= patches_view(had) + patches_view(added));
        }
        i += 1;
    }
    let ghost paired = patches_view(patches@);
    if before.len() > after.len() {
        let at = decimal_string(after.len());
        let mut n: usize = after.len();
        proof {
            assert(paired + diff_shrink(after@.len(), 0, root@) =~= paired);
        }
        while n < before.len()
            invariant
                after@.len() <= n <= before@.len(),
                at@ == decimal(after@.len() as nat),
                patches_view(patches@) == paired + diff_shrink(
                    after@.len(),
                    (n - after@.len()) as nat,
                    root@,
                ),
            decreases before@.len() - n,
        {
            let ghost had = patches_view(patches@);
            patches.push(Patch::Remove { path: root.clone().join(at.as_str()) });
            proof {
                assert(patches_view(patches@) =~= had.push(
                    PatchView::Remove { path: root@ + segments_of(at@) },
                ));
                assert(patches_view(patches@) =~= paired + diff_shrink(
                    after@.len(),
                    (n + 1 - after@.len()) as nat,
                    root@,
                ));
            }
            n += 1;
        }
        proof {
            assert(diff_grow(a, both as nat, root@) =~= Seq::<PatchView>::empty());
            assert(patches_view(patches@) + diff_grow(a, both as nat, root@) =~= patches_view(
                patches@,
            ));
        }
    } else {
        let mut n: usize = before.len();
        proof {
            assert(diff_shrink(after@.len(), 0, root@) =~= Seq::<PatchView>::empty());
            assert(paired + diff_shrink(after@.len(), 0, root@) =~= paired);
            assert(paired + diff_grow(a.take(n as int), both as nat, root@) =~= paired);
        }
        while n < after.len()
            invariant
                both == before@.len(),
                before@.len() <= n <= after@.len(),
                a == crate::value::values_view(after@),
                a.len() == after@.len(),
                forall|j: int| 0 <= j < a.len() ==> #[trigger] a[j] == after@[j]@,
                patches_view(patches@) == paired + diff_grow(a.take(n as int), both as nat, root@),
            decreases after@.len() - n,
        {
            let ghost had = patches_view(patches@);
            let value = after[n].clone();
            patches.push(
                Patch::Add { path: root.clone().join(decimal_string(n).as_str()), value },
            );
            proof {
                assert(patches_view(patches@) =~= had.push(
                    PatchView::Add {
                        path: root@ + segments_of(decimal(n as nat)),
                        value: after@[n as int]@,
                    },
                ));
                assert(patches_view(patches@) =~= paired + diff_grow(
                    a.take(n + 1),
                    both as nat,
                    root@,
                ));
            }
            n += 1;
        }
        proof {
            assert(a.take(n as int) =~= a);
        }
    }
    patches
}

/// A document differs from itself by no patch.
pub proof fn lemma_diff_of_equal(doc: Json)
    ensures
        json_diff(doc, doc) == Seq::<PatchView>::empty(),
{
}

} // verus!
