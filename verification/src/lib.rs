//! Verified core of a selection-first modal text editor with a markdown
//! knowledge layer: a byte-addressed text buffer, selections, edits with
//! undo/redo history, cursor motions, rendering to a cell grid, and parsers
//! for wikilinks, markdown links and frontmatter.

pub mod encoding;
pub mod buffer;
pub mod selection;
pub mod input;
pub mod command;
pub mod render;
pub mod history;
pub mod text;
pub mod markdown;
pub mod editor;
pub mod session;
