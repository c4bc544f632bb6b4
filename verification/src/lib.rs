//! A directory-tree construction and rendering library.
//!
//! The tree itself is built from a stream of plain `(path, kind, size)`
//! entries delivered by a filesystem walker, filtered under visibility
//! rules (hidden entries, depth bound, version-control metadata), and
//! rendered in three encodings: box-drawing text, a JSON document, and
//! an aggregate count line.

pub mod args;
pub mod colors;
pub mod config;
pub mod count;
pub mod git;
pub mod helpers;
pub mod icons;
pub mod json;
pub mod node;
pub mod strutil;
pub mod text;
pub mod walk;
