//! The logic of the RONin editor, verified.

pub mod diagnostics;
pub mod document;
pub mod editor_view;
pub mod fidelity;
pub mod fileio;
pub mod hash;
pub mod interop;
pub mod panels;
pub mod paths;
pub mod problems_panel;
pub mod recovery;
pub mod reparse;
pub mod settings;
pub mod snippet_bodies;
pub mod snippets;
pub mod syntax;
pub mod text;
pub mod text_map;
pub mod types;
pub mod undo;
