//! JSON Pointer addressing, JSON Patch application and structural diffing of
//! JSON documents, with machine-checked contracts.
//!
//! A document is a [`Value`]; its mathematical model, of which all contracts
//! speak, is a [`Json`]. A [`Path`] addresses a location in a document, a
//! [`Patch`] changes the document at such a location, [`apply`] runs a
//! sequence of patches, and [`diff`] computes the patches that lead from one
//! document to another. The module [`laws`] holds what is proved of these
//! functions together: among others, that the patches of [`diff`], applied
//! to the first document, give the second.

pub mod diff;
pub mod errors;
pub mod laws;
pub mod patch;
pub mod path;
pub mod text;
pub mod utils;
pub mod value;

pub use diff::diff;
pub use errors::Error;
pub use patch::apply::{apply, apply_single};
pub use patch::walk::walk;
pub use patch::Patch;
pub use path::Path;
pub use value::{Json, Number, Object, Value};
