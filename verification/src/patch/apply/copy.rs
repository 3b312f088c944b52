use vstd::prelude::*;
use crate::errors::{Error, ErrorView};
use crate::patch::apply::add::json_add;
use crate::patch::walk::{json_at, walk};
use crate::path::Path;
use crate::value::{Json, Value};

verus! {

/// `doc` with the value at `from` added at `path` as well.
pub open spec fn json_copy(doc: Json, from: Seq<Seq<char>>, path: Seq<Seq<char>>) -> Result<
    Json,
    ErrorView,
> {
    match json_at(doc, from) {
        Ok(value) => json_add(doc, value, path),
        Err(e) => Err(e),
    }
}

/// Adds at `path` a copy of the value at `from` in `root`.
pub fn copy(root: Value, from: Path, path: Path) -> (done: Result<Value, Error>)
    ensures
        match done {
            Ok(doc) => json_copy(root@, from@, path@) == Ok::<Json, ErrorView>(doc@),
            Err(e) => json_copy(root@, from@, path@) == Err::<Json, ErrorView>(e@),
        },
        root@.wf() ==> (done matches Ok(doc) ==> doc@.wf()),
{
    let value = match walk(&root, from) {
        Ok(found) => found.clone(),
        Err(e) => {
            return Err(e);
        },
    };
    crate::patch::apply::add::add(root, value, path)
}

} // verus!
