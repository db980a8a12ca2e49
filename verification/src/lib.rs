//! A small terminal-resident text editor core: a rope-backed text buffer with
//! line-aware indexing, a viewport cursor model, a syntax index of leaf tokens,
//! and a renderer that turns the visible window into colored draw spans.
//!
//! Line terminators are stored internally as the two-character sequence
//! carriage-return + line-feed, and reduced to a single line-feed on save.

pub mod text;
pub mod rope;
pub mod buffer;
pub mod cursor;
pub mod syntax;
pub mod render;
pub mod editor;
