//! The model and interaction logic of a file picker: a lazily read
//! directory tree whose nodes keep the number of rows they show, row lookup
//! by those counts, and the click handling of the listing and its bars.

pub mod tree;
pub mod picker;
pub mod explorer;
pub mod bars;
pub mod panel;
pub mod laws;
