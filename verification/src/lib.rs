//! Detection and resolution of three-way merge conflicts left in a source
//! tree by a patch that did not apply cleanly.

pub mod block;
pub mod conflict_map;
pub mod index;
pub mod marker;
pub mod orchestrator;
pub mod rewrite;
pub mod search;
pub mod text;
