use vstd::prelude::*;

verus! {

/// The operators of a filter condition.
#[derive(Debug, Clone, Copy, PartialEq, Eq, Structural)]
pub enum FilterOp {
    Eq,
    Gte,
    Lte,
    Gt,
    Lt,
    In,
    Contains,
    StartsWith,
}

/// A field to sort filtered results on, and in which direction.
#[derive(Debug, Clone)]
pub struct SortField {
    pub field: String,
    pub ascending: bool,
}

} // verus!
