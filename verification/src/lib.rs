//! Picking files and folders out of a project tree and turning the choice
//! into text: a nested-brace outline of the structure or the files' contents.

pub mod tree;
pub mod text;
pub mod path;
pub mod lang;
pub mod cli;
pub mod structure;
pub mod outline_laws;
pub mod selection;
pub mod order;
pub mod walk;
pub mod picker;
pub mod screen;
pub mod contents;
pub mod memory;
pub mod clipboard;
