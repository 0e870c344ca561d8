//! Rules for tidying one directory: which entries are candidates, which files
//! repeat the content of an earlier one, and into which folder each file goes.
//!
//! Nothing here touches the file system. A caller lists the directory, hands
//! the entries over as plain values, and carries out the steps it gets back.

pub mod config;
pub mod digest;
pub mod listing;
pub mod model;
pub mod names;
pub mod processor;
pub mod registry;
pub mod rules;
