//! In-memory vocabulary and daily-activity stores with a verified JSON
//! mirror: every mutation is specified exactly, and the JSON encoder and
//! parser for the two on-disk documents round-trip by proof.

use vstd::prelude::*;

pub mod activity;
pub mod json;
mod shims;
pub mod word;

verus! {

/// The ways a store operation can fail.
#[derive(Clone, Copy, PartialEq, Eq, Structural, Debug)]
pub enum StoreError {
    /// No entry with the requested id or key exists.
    NotFound,
    /// An argument (such as an activity mode string) is not recognized.
    InvalidArgument,
    /// A persisted JSON document could not be parsed.
    ParseFailure,
}

} // verus!
