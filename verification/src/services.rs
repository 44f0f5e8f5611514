//! The services of the store: the storage service, which holds the state,
//! and the bucket and object services, which work on it.

use crate::error::{Failure, StorageError};
use crate::text::{lower_text, same_text, to_lower};
use vstd::prelude::*;
use vstd::string::*;

pub mod buckets;
pub mod objects;
pub mod queries;
pub mod storage;

pub use buckets::BucketService;
pub use objects::ObjectService;
pub use storage::StorageService;

verus! {

/// What a put does with bytes that another key of the bucket holds already.
#[derive(Debug, Clone, Copy, PartialEq, Eq, Structural)]
pub enum DeduplicationMode {
    /// Refuse them.
    Reject,
    /// Store them once more.
    Allow,
    /// Store a reference to the object that holds them.
    Reference,
}

/// The policy that a word names, whatever the case of its letters.
pub open spec fn mode_named(word: Seq<char>) -> Option<DeduplicationMode> {
    let lower = lower_text(word);
    if lower == "reject"@ {
        Some(DeduplicationMode::Reject)
    } else if lower == "allow"@ {
        Some(DeduplicationMode::Allow)
    } else if lower == "reference"@ {
        Some(DeduplicationMode::Reference)
    } else {
        None
    }
}

impl DeduplicationMode {
    /// The policy that applies where a caller names none.
    pub fn default_mode() -> (r: Self)
        ensures
            r == DeduplicationMode::Allow,
    {
        DeduplicationMode::Allow
    }

    /// Reads a policy from the word that names it.
    pub fn parse(word: &str) -> (r: Result<DeduplicationMode, StorageError>)
        ensures
            match mode_named(word@) {
                Some(mode) => r == Ok::<DeduplicationMode, StorageError>(mode),
                None => r matches Err(e) && e@ == Failure::InvalidDeduplicationMode(word@),
            },
    {
        let lower = to_lower(word);
        if same_text(lower.as_str(), "reject") {
            Ok(DeduplicationMode::Reject)
        } else if same_text(lower.as_str(), "allow") {
            Ok(DeduplicationMode::Allow)
        } else if same_text(lower.as_str(), "reference") {
            Ok(DeduplicationMode::Reference)
        } else {
            Err(StorageError::InvalidDeduplicationMode(word.to_owned()))
        }
    }
}

} // verus!
