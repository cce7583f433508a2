use vstd::prelude::*;

verus! {

/// A named collection in the downstream store.
#[derive(Debug, Clone, PartialEq, Eq)]
pub struct Collection {
    pub id: String,
    pub name: String,
    pub description: String,
    pub created_at: String,
}

} // verus!
