//! In-memory model of a game data pack: namespaced identifiers, recipe
//! values with their validity rules, and the save/load round trip against
//! a directory tree of JSON files.
//!
//! The library itself never touches the file system: saving produces the
//! list of files (relative path and full text) that a pack root should
//! hold, and loading consumes such a list.  A thin front end does the
//! actual reading and writing.

pub mod codec;
pub mod editor;
pub mod ident;
pub mod lines;
pub mod numbers;
pub mod pack;
pub mod recipe;
pub mod text;
