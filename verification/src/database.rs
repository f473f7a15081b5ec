//! The query capabilities a dictionary database offers.

use vstd::prelude::*;

verus! {

/// Database wrapper for a dictionary: exact lookup, typo-tolerant
/// suggestion, and prefix completion.
pub trait Database<T> {
    /// Gets a single word from the database.
    fn get(&self, query: &str) -> Option<T>;

    /// Guesses plausible corrections for a query.
    fn suggest(&self, query: &str) -> Vec<String>;

    /// Suggests words while the user is still typing.
    fn suggest_search(&self, query: &str) -> Vec<String>;
}

} // verus!
