use vstd::prelude::*;

use crate::category::Category;

verus! {

/// Failures of catalog construction and of question selection.
#[derive(Debug, Clone, Copy, PartialEq, Eq, Structural)]
pub enum TriviaError {
    /// A category's resource has a marker line (counted from 1) shorter
    /// than the marker's prefix.
    MalformedLine { category: Category, line: usize },
    /// A category's resource holds no question.
    EmptyPool { category: Category },
    /// Every question of the category has already been served and repeats
    /// are not allowed.
    PoolExhausted { category: Category },
}

} // verus!
