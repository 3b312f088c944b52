use vstd::prelude::*;
use crate::errors::{Error, ErrorView};
use crate::patch::walk::{json_at, walk};
use crate::path::Path;
use crate::value::{Json, Value};

verus! {

/// `doc` itself where the value at `path` is `value`; `FailedTest` where
/// another value is there, and the error of the lookup where none is.
pub open spec fn json_test(doc: Json, value: Json, path: Seq<Seq<char>>) -> Result<Json, ErrorView> {
    match json_at(doc, path) {
        Ok(found) => if found == value {
            Ok(doc)
        } else {
            Err(ErrorView::FailedTest)
        },
        Err(e) => Err(e),
    }
}

/// Checks that the value at `path` in `root` is `value`.
pub fn test(root: Value, value: Value, path: Path) -> (done: Result<Value, Error>)
    ensures
        match done {
            Ok(doc) => json_test(root@, value@, path@) == Ok::<Json, ErrorView>(doc@),
            Err(e) => json_test(root@, value@, path@) == Err::<Json, ErrorView>(e@),
        },
        root@.wf() ==> (done matches Ok(doc) ==> doc@.wf()),
{
    let same = match walk(&root, path) {
        Ok(found) => *found == value,
        Err(e) => {
            return Err(e);
        },
    };
    if same {
        Ok(root)
    } else {
        Err(Error::FailedTest)
    }
}

} // verus!
