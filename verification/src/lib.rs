//! Merge key/value declarations from template environment files into a
//! persisted `key=value` environment file, appending only the keys that the
//! destination file does not already define.

pub mod bytes;
pub mod env_map;
pub mod laws;
pub mod lines;
pub mod merge;
pub mod parse;
