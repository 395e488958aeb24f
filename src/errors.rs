use vstd::prelude::*;

verus! {

/// Errors reported by the matching books.
#[derive(Debug, Clone, PartialEq, Eq)]
pub enum AlgorithmError {
    /// The order failed validation: zero quantity or zero price.
    InvalidOrder(String),
    /// A book's internal structure is inconsistent.
    BookError(String),
    /// An unexpected internal failure.
    Internal,
}

} // verus!
