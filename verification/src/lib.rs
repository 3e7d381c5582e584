//! Pick files of a scanned tree and hand them on.
//!
//! The heart of the crate is a hierarchical multi-select: tree-drawn labels
//! for a flat list of paths ([`tree_builder`]), an arena of items with
//! three selection states that are handed down to descendants and
//! recomputed for ancestors, the list of what is visible under expansion
//! and a text filter, a window that follows the cursor, and a controller
//! with two modes ([`tui`]). Around it stand the steps that lead from a
//! scan to the selection and from the selection to the output
//! ([`workflow`]), on paths held as components ([`paths`], [`path_order`],
//! [`listing`]) and matched by patterns ([`globs`]).

pub mod cli;
pub mod globs;
pub mod listing;
pub mod path_order;
pub mod paths;
pub mod sorting;
pub mod text;
pub mod tree_builder;
pub mod tui;
pub mod utils;
pub mod workflow;
