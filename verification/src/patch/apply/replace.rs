use vstd::prelude::*;
use crate::errors::{Error, ErrorView};
use crate::patch::apply::add::json_add;
use crate::patch::apply::remove::{json_remove, remove};
use crate::path::Path;
use crate::value::{Json, Value};

verus! {

/// `doc` with `value` in the place of the value at `path`: the value there
/// is removed, then `value` is added at the same path.
pub open spec fn json_replace(doc: Json, value: Json, path: Seq<Seq<char>>) -> Result<
    Json,
    ErrorView,
> {
    match json_remove(doc, path) {
        Ok(without) => json_add(without, value, path),
        Err(e) => Err(e),
    }
}

/// Replaces the value at `path` in `root` by `value`.
pub fn replace(root: Value, value: Value, path: Path) -> (done: Result<Value, Error>)
    ensures
        match done {
            Ok(doc) => json_replace(root@, value@, path@) == Ok::<Json, ErrorView>(doc@),
            Err(e) => json_replace(root@, value@, path@) == Err::<Json, ErrorView>(e@),
        },
        root@.wf() && value@.wf() ==> (done matches Ok(doc) ==> doc@.wf()),
{
    match remove(root, path.clone()) {
        Ok(without) => crate::patch::apply::add::add(without, value, path),
        Err(e) => Err(e),
    }
}

} // verus!
