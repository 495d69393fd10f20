//! An in-memory text buffer addressed by line and column, with bounded
//! line-range snapshots for rendering.

pub mod document;
pub mod editor;
pub mod edits;
pub mod lines;
pub mod rope;
