//! The tree form of a document, in which tables may refer to each other.
use vstd::prelude::*;

verus! {

/// What a table says of itself: its id, if others refer to it, and its
/// metatable name.
#[derive(Debug, Clone)]
pub struct TableHeader {
    pub id: Option<String>,
    pub meta: Option<String>,
}

} // verus!
