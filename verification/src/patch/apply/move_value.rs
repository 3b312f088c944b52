use vstd::prelude::*;
use crate::errors::{Error, ErrorView};
use crate::patch::apply::add::json_add;
use crate::patch::apply::remove::{json_remove, remove};
use crate::patch::walk::{json_at, walk};
use crate::path::Path;
use crate::value::{Json, Value};

verus! {

/// `doc` with the value at `from` taken away and added at `path`, which is
/// resolved in the document that the removal leaves. Nothing is done, and
/// nothing looked up, where `from` and `path` are the same.
pub open spec fn json_move(doc: Json, from: Seq<Seq<char>>, path: Seq<Seq<char>>) -> Result<
    Json,
    ErrorView,
> {
    if from == path {
        Ok(doc)
    } else {
        match json_at(doc, from) {
            Ok(value) => match json_remove(doc, from) {
                Ok(without) => json_add(without, value, path),
                Err(e) => Err(e),
            },
            Err(e) => Err(e),
        }
    }
}

/// Moves the value at `from` in `root` to `path`.
pub fn move_value(root: Value, from: Path, path: Path) -> (done: Result<Value, Error>)
    ensures
        match done {
            Ok(doc) => json_move(root@, from@, path@) == Ok::<Json, ErrorView>(doc@),
            Err(e) => json_move(root@, from@, path@) == Err::<Json, ErrorView>(e@),
        },
        root@.wf() ==> (done matches Ok(doc) ==> doc@.wf()),
{
    if from == path {
        Ok(root)
    } else {
        let value = match walk(&root, from.clone()) {
            Ok(found) => found.clone(),
            Err(e) => {
                return Err(e);
            },
        };
        match remove(root, from) {
            Ok(without) => crate::patch::apply::add::add(without, value, path),
            Err(e) => Err(e),
        }
    }
}

/// Moving a value to where it is leaves every document as it is, whether
/// or not the path leads anywhere in it.
pub proof fn lemma_move_to_itself(doc: Json, path: Seq<Seq<char>>)
    ensures
        json_move(doc, path, path) == Ok::<Json, ErrorView>(doc),
{
}

} // verus!
