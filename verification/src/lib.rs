//! An embedded, git-synchronized, content-addressed table store for a small
//! feed reader, together with the pure helpers its command layer relies on.
//!
//! Records are kept one per line as JSON objects, sharded across files by a
//! short prefix of each row's content-addressed identifier. Deletions leave
//! tombstones so that they propagate through last-writer-wins merges between
//! replicas; a git repository over the store directory serves as transport.

pub mod commands;
pub mod error;
pub mod feed;
pub mod git;
pub mod ident;
pub mod json;
pub mod row;
pub mod shorthand;
pub mod store;
pub mod table;
pub mod text;
pub mod ts;
