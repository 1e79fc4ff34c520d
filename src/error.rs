//! Error types of the booking operations.

use crate::input::TeamValidationError;
use crate::instant::Instant;
use vstd::prelude::*;

verus! {

#[derive(Debug, PartialEq, Eq)]
pub enum CreateGroupError {
    NoDatabase,
    DatabaseError(String),
    DuplicateTag,
}

#[derive(Debug, PartialEq, Eq)]
pub enum CreateTeamError {
    NoDatabase,
    ValidationError(TeamValidationError),
    DatabaseError(String),
    /// The requested tag names that name no group.
    MissingTags(Vec<String>),
    TransactionError,
}

#[derive(Debug, PartialEq, Eq)]
pub enum TimeSlotError {
    NoDatabase,
    /// The candidate interval meets the booked interval `[o_start, o_end)`.
    Overlap { o_start: Instant, o_end: Instant },
    DatabaseError(String),
    /// A stored timestamp (the text carried) could not be read.
    ParseError(String),
    /// No time slot with the given identity lives on the given field.
    NotFound,
}

#[derive(Debug, PartialEq, Eq)]
pub enum ScheduleRequestError {
    NoDatabase,
    DatabaseError(String),
    RPCError(String),
}

/// Failure of an operation that touches no business rule.
#[derive(Debug, PartialEq, Eq)]
pub enum StoreError {
    /// The store has handed out every identity it can represent.
    IdentitiesExhausted,
}

} // verus!
