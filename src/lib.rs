//! A store of documents, each a directory of ordered HTML nodes below one library root.
//! Untrusted names pass a lexical sanitizer before any path is built; new nodes get the
//! next free integer identity; a document renders as its nodes' text, concatenated.
use vstd::prelude::*;

pub mod path;
pub mod text;
pub mod identity;
pub mod listing;
pub mod store;
pub mod model;

verus! {

} // verus!
