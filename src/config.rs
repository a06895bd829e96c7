//! Settings read once at start-up and handed to the search.
use vstd::prelude::*;

verus! {

/// All settings of the tools.
#[derive(Debug, PartialEq, Eq, Structural, Default, Clone, Copy)]
pub struct Config {
    pub search_dupe_stashes: SearchDupeStashesConfig,
}

/// Settings of the duplicate-stash search.
#[derive(Debug, PartialEq, Eq, Structural, Default, Clone, Copy)]
pub struct SearchDupeStashesConfig {
    /// A cluster warns of a group whose counts add up to more than this.
    pub threshold: u64,
}

} // verus!
