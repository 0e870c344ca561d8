//! The settings of a run.

use vstd::prelude::*;

verus! {

/// The settings of one run. They do not change while it lasts.
#[derive(Debug, Clone, PartialEq, Eq)]
pub struct RunConfig {
    /// The name under which the configuration file would appear in a listing.
    pub config_file: Vec<u8>,
    /// Decide and report, but change nothing.
    pub dry_run: bool,
    /// Remove files whose content repeats that of an earlier file.
    pub deduplicate: bool,
}

} // verus!
