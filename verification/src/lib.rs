//! In-memory document and session state for a terminal text editor.
//!
//! The library tracks which files are open, their buffered contents,
//! per-file cursor and scroll position, and a dirty ("edited") flag, and
//! keeps all of this consistent when the underlying file tree is renamed.
//! Rendering, keybindings and terminal backends are external collaborators;
//! they hand events to this core and read its state back.

pub mod document;
pub mod laws;
pub mod path;
pub mod session;
pub mod store;
