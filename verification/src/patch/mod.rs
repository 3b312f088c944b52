//! JSON Patch operations.

pub mod apply;
pub mod format;
pub mod walk;

use vstd::prelude::*;
use crate::path::Path;
use crate::value::{Json, Value};

verus! {

/// One JSON Patch operation.
#[derive(Debug)]
pub enum Patch {
    /// Puts `value` at `path`: sets the member of an object, or inserts an
    /// element into an array before the one at that position. The parent of
    /// the location must exist.
    Add { path: Path, value: Value },
    /// Takes away the value at `path`.
    Remove { path: Path },
    /// Puts `value` in the place of the value at `path`: a `Remove`, then an
    /// `Add`.
    Replace { path: Path, value: Value },
    /// Adds at `path` a copy of the value at `from`.
    Copy { from: Path, path: Path },
    /// Takes the value at `from` away and adds it at `path`.
    Move { from: Path, path: Path },
    /// Checks that the value at `path` is `value`.
    Test { path: Path, value: Value },
}

/// The model of a [`Patch`]: its paths as sequences of segments and its
/// value as a [`Json`].
pub enum PatchView {
    Add { path: Seq<Seq<char>>, value: Json },
    Remove { path: Seq<Seq<char>> },
    Replace { path: Seq<Seq<char>>, value: Json },
    Copy { from: Seq<Seq<char>>, path: Seq<Seq<char>> },
    Move { from: Seq<Seq<char>>, path: Seq<Seq<char>> },
    Test { path: Seq<Seq<char>>, value: Json },
}

impl View for Patch {
    type V = PatchView;

    open spec fn view(&self) -> PatchView {
        match self {
            Patch::Add { path, value } => PatchView::Add { path: path@, value: value@ },
            Patch::Remove { path } => PatchView::Remove { path: path@ },
            Patch::Replace { path, value } => PatchView::Replace { path: path@, value: value@ },
            Patch::Copy { from, path } => PatchView::Copy { from: from@, path: path@ },
            Patch::Move { from, path } => PatchView::Move { from: from@, path: path@ },
            Patch::Test { path, value } => PatchView::Test { path: path@, value: value@ },
        }
    }
}

/// The models of a sequence of patches.
pub open spec fn patches_view(patches: Seq<Patch>) -> Seq<PatchView> {
    patches.map_values(|p: Patch| p@)
}

impl Clone for Patch {
    fn clone(&self) -> (copy: Self)
        ensures
            copy@ == self@,
    {
        match self {
            Patch::Add { path, value } => Patch::Add { path: path.clone(), value: value.clone() },
            Patch::Remove { path } => Patch::Remove { path: path.clone() },
            Patch::Replace { path, value } => Patch::Replace {
                path: path.clone(),
                value: value.clone(),
            },
            Patch::Copy { from, path } => Patch::Copy { from: from.clone(), path: path.clone() },
            Patch::Move { from, path } => Patch::Move { from: from.clone(), path: path.clone() },
            Patch::Test { path, value } => Patch::Test { path: path.clone(), value: value.clone() },
        }
    }
}

impl PartialEq for Patch {
    fn eq(&self, other: &Self) -> (same: bool) {
        match self {
            Patch::Add { path, value } => match other {
                Patch::Add { path: p, value: v } => *path == *p && *value == *v,
                _ => false,
            },
            Patch::Remove { path } => match other {
                Patch::Remove { path: p } => *path == *p,
                _ => false,
            },
            Patch::Replace { path, value } => match other {
                Patch::Replace { path: p, value: v } => *path == *p && *value == *v,
                _ => false,
            },
            Patch::Copy { from, path } => match other {
                Patch::Copy { from: f, path: p } => *from == *f && *path == *p,
                _ => false,
            },
            Patch::Move { from, path } => match other {
                Patch::Move { from: f, path: p } => *from == *f && *path == *p,
                _ => false,
            },
            Patch::Test { path, value } => match other {
                Patch::Test { path: p, value: v } => *path == *p && *value == *v,
                _ => false,
            },
        }
    }
}

impl vstd::std_specs::cmp::PartialEqSpecImpl for Patch {
    open spec fn obeys_eq_spec() -> bool {
        true
    }

    open spec fn eq_spec(&self, other: &Self) -> bool {
        self@ == other@
    }
}

impl Eq for Patch {

}

} // verus!
