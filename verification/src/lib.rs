//! Core data structures of a save-file conversion front end.
//!
//! The heart of the crate is [`selection::SelectionRange`], a canonical set of
//! disjoint half-open integer intervals used to track which rows of a list
//! are selected; [`selection_laws`] proves its algebra, starting from the
//! uniqueness of the canonical form. Around it stand the bookkeeping types
//! the user interface drives: the save-file groups with their slot and
//! grouping rules ([`file_groups`], [`group_item`]), an error list and
//! file-dialog filters. File and dialog I/O, rendering and the conversion
//! itself stay outside the crate; everything here works on plain values.

pub mod browser;
pub mod error_list;
pub mod file_groups;
pub mod group_item;
pub mod selection;
pub mod selection_laws;

pub use selection::SelectionRange;
