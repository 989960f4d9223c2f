//! The configuration a search run is made from.

use vstd::prelude::*;

verus! {

/// What one invocation searches: the query, the file to search in, and
/// whether matching folds case (`case_sensitive` set means the comparison
/// ignores case, as the comprehensive search's flag does).
pub struct Config {
    pub query: String,
    pub filename: String,
    pub case_sensitive: bool,
}

} // verus!
