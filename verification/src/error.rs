//! The store's error kinds.

use vstd::prelude::*;

verus! {

/// Everything that can go wrong in the store. Parse failures name the
/// offending shard file; subprocess failures carry the captured standard
/// error.
#[derive(Debug)]
pub enum StoreError {
    /// A delete or a shorthand lookup found nothing.
    NotFound,
    /// A line in a shard file is not a valid row.
    ParseError { file: String },
    /// A read, write, rename or remove failed.
    IoError { detail: String },
    /// The working tree has uncommitted shard changes.
    DirtyTree,
    /// A remote-dependent action was asked for without a remote.
    NoRemote,
    /// The fetch subprocess returned non-zero.
    FetchFailed { detail: String },
    /// The push subprocess returned non-zero.
    PushFailed { detail: String },
}

impl StoreError {
    /// A human-readable description of the error.
    pub fn message(&self) -> (r: String)
    {
        let mut out = String::new();
        match self {
            StoreError::NotFound => {
                crate::text::push_str(&mut out, "not found");
            },
            StoreError::ParseError { file } => {
                crate::text::push_str(&mut out, "failed to parse entry in ");
                crate::text::push_str(&mut out, file.as_str());
            },
            StoreError::IoError { detail } => {
                crate::text::push_str(&mut out, "input/output error: ");
                crate::text::push_str(&mut out, detail.as_str());
            },
            StoreError::DirtyTree => {
                crate::text::push_str(
                    &mut out,
                    "store has uncommitted changes; commit or discard them before proceeding",
                );
            },
            StoreError::NoRemote => {
                crate::text::push_str(&mut out, "no remote configured");
            },
            StoreError::FetchFailed { detail } => {
                crate::text::push_str(&mut out, "git fetch failed: ");
                crate::text::push_str(&mut out, detail.as_str());
            },
            StoreError::PushFailed { detail } => {
                crate::text::push_str(&mut out, "git push failed: ");
                crate::text::push_str(&mut out, detail.as_str());
            },
        }
        out
    }
}

} // verus!
