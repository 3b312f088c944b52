//! Applying patches to a document.

pub mod add;
pub mod copy;
pub mod move_value;
pub mod remove;
pub mod replace;
pub mod test;

use vstd::prelude::*;
use crate::errors::{Error, ErrorView};
use crate::patch::apply::add::json_add;
use crate::patch::apply::copy::json_copy;
use crate::patch::apply::move_value::json_move;
use crate::patch::apply::remove::json_remove;
use crate::patch::apply::replace::json_replace;
use crate::patch::apply::test::json_test;
use crate::laws::well_formed::{patch_wf, patches_wf};
use crate::patch::{patches_view, Patch, PatchView};
use crate::value::{Json, Value};

verus! {

/// What one patch makes of `doc`.
pub open spec fn json_apply(doc: Json, patch: PatchView) -> Result<Json, ErrorView> {
    match patch {
        PatchView::Add { path, value } => json_add(doc, value, path),
        PatchView::Remove { path } => json_remove(doc, path),
        PatchView::Replace { path, value } => json_replace(doc, value, path),
        PatchView::Copy { from, path } => json_copy(doc, from, path),
        PatchView::Move { from, path } => json_move(doc, from, path),
        PatchView::Test { path, value } => json_test(doc, value, path),
    }
}

/// What a sequence of patches makes of `doc`: each is applied to what the
/// one before it left, and the first error ends it.
pub open spec fn json_apply_all(doc: Json, patches: Seq<PatchView>) -> Result<Json, ErrorView>
    decreases patches.len(),
{
    if patches.len() == 0 {
        Ok(doc)
    } else {
        match json_apply(doc, patches[0]) {
            Ok(next) => json_apply_all(next, patches.skip(1)),
            Err(e) => Err(e),
        }
    }
}

/// Applies one patch to `root`.
pub fn apply_single(root: Value, patch: Patch) -> (done: Result<Value, Error>)
    ensures
        match done {
            Ok(doc) => json_apply(root@, patch@) == Ok::<Json, ErrorView>(doc@),
            Err(e) => json_apply(root@, patch@) == Err::<Json, ErrorView>(e@),
        },
        root@.wf() && patch_wf(patch@) ==> (done matches Ok(doc) ==> doc@.wf()),
{
    match patch {
        Patch::Add { value, path } => crate::patch::apply::add::add(root, value, path),
        Patch::Remove { path } => crate::patch::apply::remove::remove(root, path),
        Patch::Replace { value, path } => crate::patch::apply::replace::replace(root, value, path),
        Patch::Copy { from, path } => crate::patch::apply::copy::copy(root, from, path),
        Patch::Move { from, path } => crate::patch::apply::move_value::move_value(root, from, path),
        Patch::Test { value, path } => crate::patch::apply::test::test(root, value, path),
    }
}

/// Applies `patches` to `root` in order. The first patch that fails ends
/// the run with its error.
pub fn apply(root: Value, patches: Vec<Patch>) -> (done: Result<Value, Error>)
    ensures
        match done {
            Ok(doc) => json_apply_all(root@, patches_view(patches@)) == Ok::<Json, ErrorView>(doc@),
            Err(e) => json_apply_all(root@, patches_view(patches@)) == Err::<Json, ErrorView>(e@),
        },
        root@.wf() && patches_wf(patches_view(patches@)) ==> (done matches Ok(doc) ==> doc@.wf()),
{
    proof {
        if root@.wf() && patches_wf(patches_view(patches@)) && json_apply_all(
            root@,
            patches_view(patches@),
        ) is Ok {
            crate::laws::well_formed::lemma_apply_all_wf(root@, patches_view(patches@));
        }
    }
    let mut current = root;
    let ghost all = patches_view(patches@);
    proof {
        assert(all.skip(0) =~= all);
    }
    for patch in it: patches
        invariant
            it.seq() == patches@,
            all == patches_view(patches@),
            json_apply_all(root@, all) == json_apply_all(current@, all.skip(it.index() as int)),
    {
        proof {
            let rest = all.skip(it.index() as int);
            assert(rest[0] == patch@);
            assert(rest.skip(1) =~= all.skip(it.index() + 1));
        }
        match apply_single(current, patch) {
            Ok(next) => {
                current = next;
            },
            Err(e) => {
                return Err(e);
            },
        }
    }
    Ok(current)
}

} // verus!
