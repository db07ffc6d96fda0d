//! Matching of file names by approximate similarity, and the batch of renames
//! that follows from the matches.
//!
//! Two lists of files are held against each other: the sources, and the
//! choices that a source can be matched with. Each source keeps the few
//! choices whose names come closest to its own, ranked by a similarity metric;
//! the best of them is its match, unless the user decides otherwise. From the
//! matches a plan is built: which files are to be copied or renamed, and the
//! name that each is to get.
//!
//! - [`name`]: names, base names and extensions
//! - [`score`], [`metric`]: similarity scores and the metrics that give them
//! - [`ranking`]: the selection of the best candidates
//! - [`entry`], [`source`], [`order`], [`search`]: the files, the sources
//!   with their candidates, their order, and the search that holds them
//!   together
//! - [`rename`], [`plan`]: the new name of a matched file, and the plan
//! - [`tally`]: what became of a plan that was carried out
//! - [`state`]: the state of the application around all this
//!
//! Every function here is verified against its contract. Two things are taken
//! as given: the scores, which the metrics of the `strsim` crate compute, and
//! paths, which are carried along and never looked into.

pub mod entry;
pub mod metric;
pub mod name;
pub mod order;
pub mod plan;
pub mod ranking;
pub mod rename;
pub mod score;
pub mod search;
pub mod source;
pub mod state;
pub mod tally;
