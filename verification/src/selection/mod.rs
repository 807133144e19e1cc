//! Selections: ranges of byte offsets with a moving head and a fixed anchor.

pub mod cursor;
pub mod selection_set;

pub use cursor::Selection;
pub use selection_set::SelectionSet;
