//! The error a metainfo decode surfaces.
use vstd::prelude::*;

verus! {

/// Raised when a metainfo dictionary lacks a required field or holds
/// one of the wrong kind.
#[derive(Debug, PartialEq, Eq, Structural)]
pub enum TorrentError {
    UnexpectedField,
}

} // verus!
