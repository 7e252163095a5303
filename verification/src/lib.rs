//! Structural diff and merge of JSON documents.
//!
//! A 2-way diff compares `base` with `mine`; a 3-way diff compares `mine` and
//! `theirs` with their common `base` and marks the nodes where both sides
//! changed differently as conflicts. Applying the user's resolutions to a
//! diff tree rebuilds the merged document and lists the paths still
//! unresolved.
pub mod conflict;
pub mod diff;
pub mod display;
pub mod json;
pub mod laws;
pub mod merge;
pub mod text;
pub mod types;
