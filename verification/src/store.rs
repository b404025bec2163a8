//! Keeping memory and disk together: a change counts once it is on disk.

use vstd::prelude::*;

use crate::error::{ApiError, plain_error, verdict};

verus! {

/// What is in memory after a change was written, or could not be.
pub open spec fn settled<T>(current: T, candidate: T, persisted: Result<(), ApiError>) -> T {
    if persisted is Ok {
        candidate
    } else {
        current
    }
}

/// Takes over a change that was written; keeps what was there if it could not be, and gives
/// the reason back.
pub fn settle<T>(current: &mut T, candidate: T, persisted: Result<(), ApiError>) -> (r: Result<
    (),
    ApiError,
>)
    ensures
        r == persisted,
        *final(current) == settled(*old(current), candidate, persisted),
{
    if persisted.is_ok() {
        *current = candidate;
    }
    persisted
}

/// The answer when a change cannot be written as JSON.
pub fn serialize_failed(message: &str) -> (e: ApiError)
    ensures
        e@ == plain_error(500, "SERIALIZE_ERROR"@, message@),
{
    ApiError::new(500, "SERIALIZE_ERROR", message)
}

/// A change that could not be written leaves memory as it was, and is answered with the
/// reason.
pub proof fn law_failed_write_changes_nothing<T>(
    current: T,
    candidate: T,
    persisted: Result<(), ApiError>,
)
    ensures
        verdict(persisted) is Err ==> settled(current, candidate, persisted) == current,
        verdict(persisted) is Ok ==> settled(current, candidate, persisted) == candidate,
{
}

} // verus!
