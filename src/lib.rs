//! Enabled state of extensions and extension groups, kept in a key-value
//! configuration store: canonical keys, tolerant loading, merging of the
//! built-in extensions, and bulk enabling and disabling by group.

pub mod key;
pub mod keymap;
pub mod json;
pub mod config;
pub mod extensions;
pub mod groups;
