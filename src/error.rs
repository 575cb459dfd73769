use vstd::prelude::*;

verus! {

/// What can go wrong when parsing or evaluating an expression.
#[derive(Debug, PartialEq, Eq, Clone, Copy)]
pub enum Error {
    /// The input is not an expression of the grammar; `position` is the
    /// character offset where the offending region starts.
    Syntax { position: usize },
    /// Evaluation reached a variable that the assignment does not bind.
    UnboundVariable { symbol: char },
}

} // verus!
