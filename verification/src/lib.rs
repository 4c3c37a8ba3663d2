//! A bidirectional name-translation layer between a stable, user-facing
//! "virtual" path namespace and the real filesystem locations backing it.
//!
//! A registry maps virtual root names (e.g. "music", "photos") to real
//! directory paths. Paths on both sides are plain strings whose components
//! are separated by single `/` characters; the library never touches the
//! filesystem itself, it only rewrites path strings.

pub mod paths;
pub mod vfs;
pub mod laws;
