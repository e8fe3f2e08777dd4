//! The verified core of a desktop backup tool: where each source folder is
//! mirrored under a destination, which files a copy skips, counts or copies,
//! the settings file, the destination list the window shows, and the text it
//! shows.
pub mod text;
pub mod winpath;
pub mod verbatim;
pub mod inside;
pub mod config;
pub mod sync;
pub mod format;
pub mod dests;
pub mod window;
