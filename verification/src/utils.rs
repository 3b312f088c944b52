//! Helpers that build a patch from the text of its paths.

use vstd::prelude::*;
use crate::errors::{Error, ErrorView};
use crate::patch::{Patch, PatchView};
use crate::path::{parse_path, Path};
use crate::value::Value;

verus! {

/// The model of what a helper returned.
pub open spec fn built(made: Result<Patch, Error>) -> Result<PatchView, ErrorView> {
    match made {
        Ok(patch) => Ok(patch@),
        Err(e) => Err(e@),
    }
}

/// An `Add` of `value` at the path that `path` denotes.
pub fn add(path: &str, value: Value) -> (made: Result<Patch, Error>)
    ensures
        built(made) == (match parse_path(path@) {
            Ok(p) => Ok::<PatchView, ErrorView>(PatchView::Add { path: p, value: value@ }),
            Err(e) => Err(e),
        }),
{
    match Path::new(path) {
        Ok(path) => Ok(Patch::Add { path, value }),
        Err(e) => Err(e),
    }
}

/// A `Remove` at the path that `path` denotes.
pub fn remove(path: &str) -> (made: Result<Patch, Error>)
    ensures
        built(made) == (match parse_path(path@) {
            Ok(p) => Ok::<PatchView, ErrorView>(PatchView::Remove { path: p }),
            Err(e) => Err(e),
        }),
{
    match Path::new(path) {
        Ok(path) => Ok(Patch::Remove { path }),
        Err(e) => Err(e),
    }
}

/// A `Replace` by `value` at the path that `path` denotes.
pub fn replace(path: &str, value: Value) -> (made: Result<Patch, Error>)
    ensures
        built(made) == (match parse_path(path@) {
            Ok(p) => Ok::<PatchView, ErrorView>(PatchView::Replace { path: p, value: value@ }),
            Err(e) => Err(e),
        }),
{
    match Path::new(path) {
        Ok(path) => Ok(Patch::Replace { path, value }),
        Err(e) => Err(e),
    }
}

/// A `Move` from the path that `from` denotes to the one that `path`
/// denotes. Where both texts are invalid the error is that of `path`.
pub fn move_value(from: &str, path: &str) -> (made: Result<Patch, Error>)
    ensures
        built(made) == (match parse_path(path@) {
            Ok(p) => match parse_path(from@) {
                Ok(f) => Ok::<PatchView, ErrorView>(PatchView::Move { from: f, path: p }),
                Err(e) => Err(e),
            },
            Err(e) => Err(e),
        }),
{
    let path = match Path::new(path) {
        Ok(path) => path,
        Err(e) => {
            return Err(e);
        },
    };
    match Path::new(from) {
        Ok(from) => Ok(Patch::Move { from, path }),
        Err(e) => Err(e),
    }
}

/// A `Copy` from the path that `from` denotes to the one that `path`
/// denotes. Where both texts are invalid the error is that of `path`.
pub fn copy(from: &str, path: &str) -> (made: Result<Patch, Error>)
    ensures
        built(made) == (match parse_path(path@) {
            Ok(p) => match parse_path(from@) {
                Ok(f) => Ok::<PatchView, ErrorView>(PatchView::Copy { from: f, path: p }),
                Err(e) => Err(e),
            },
            Err(e) => Err(e),
        }),
{
    let path = match Path::new(path) {
        Ok(path) => path,
        Err(e) => {
            return Err(e);
        },
    };
    match Path::new(from) {
        Ok(from) => Ok(Patch::Copy { from, path }),
        Err(e) => Err(e),
    }
}

/// A `Test` for `value` at the path that `path` denotes.
pub fn test(path: &str, value: Value) -> (made: Result<Patch, Error>)
    ensures
        built(made) == (match parse_path(path@) {
            Ok(p) => Ok::<PatchView, ErrorView>(PatchView::Test { path: p, value: value@ }),
            Err(e) => Err(e),
        }),
{
    match Path::new(path) {
        Ok(path) => Ok(Patch::Test { path, value }),
        Err(e) => Err(e),
    }
}

} // verus!
