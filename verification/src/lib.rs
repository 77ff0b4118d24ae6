//! Versus: the comparison core of an offline directory and text comparison tool.
//!
//! The crate compares two texts line by line, merges three versions of a text,
//! classifies the entries of two directory trees, and renders text for saving.
//! Every function here is verified; reading and writing files is left to the
//! program around the library.
pub mod cancel;
pub mod compare;
pub mod desktop;
pub mod directory;
pub mod editing;
pub mod error;
pub mod files;
pub mod merge;
pub mod order;
pub mod panes;
pub mod save;
pub mod settings;
pub mod text;
