//! The conflict detector: half-open interval overlap against booked slots.

use crate::error::TimeSlotError;
use crate::instant::{parse_utc, parsed_instant, Instant};
use vstd::prelude::*;

verus! {

/// `[a_start, a_end)` and `[b_start, b_end)` share an instant.
pub open spec fn overlaps(a_start: Instant, a_end: Instant, b_start: Instant, b_end: Instant) -> bool {
    a_start.before(b_end) && b_start.before(a_end)
}

/// Overlap is symmetric.
pub proof fn lemma_overlaps_symmetric(a_start: Instant, a_end: Instant, b_start: Instant, b_end: Instant)
    ensures
        overlaps(a_start, a_end, b_start, b_end) == overlaps(b_start, b_end, a_start, a_end),
{
}

/// A booked interval.
#[derive(Clone, Copy, Debug, PartialEq, Eq, Structural)]
pub struct Interval {
    pub start: Instant,
    pub end: Instant,
}

pub fn intervals_overlap(a_start: &Instant, a_end: &Instant, b_start: &Instant, b_end: &Instant) -> (r: bool)
    ensures
        r == overlaps(*a_start, *a_end, *b_start, *b_end),
{
    a_start.is_before(b_end) && b_start.is_before(a_end)
}

/// Index of the first interval of `booked` that meets `[start, end)`.
pub fn first_overlap(booked: &Vec<Interval>, start: Instant, end: Instant) -> (r: Option<usize>)
    ensures
        match r {
            Some(i) => {
                &&& i < booked@.len()
                &&& overlaps(booked@[i as int].start, booked@[i as int].end, start, end)
                &&& forall|j: int|
                    0 <= j < i ==> !overlaps(#[trigger] booked@[j].start, booked@[j].end, start, end)
            },
            None => forall|j: int|
                0 <= j < booked@.len() ==> !overlaps(
                    #[trigger] booked@[j].start,
                    booked@[j].end,
                    start,
                    end,
                ),
        },
{
    let mut i: usize = 0;
    while i < booked.len()
        invariant
            i <= booked@.len(),
            forall|j: int| 0 <= j < i ==> !overlaps(#[trigger] booked@[j].start, booked@[j].end, start, end),
        decreases booked@.len() - i,
    {
        if intervals_overlap(&booked[i].start, &booked[i].end, &start, &end) {
            return Some(i);
        }
        i = i + 1;
    }
    None
}

/// A time slot row as the store keeps it: instants as text.
#[derive(Clone, Debug, PartialEq, Eq)]
pub struct StoredTimeSlot {
    pub id: i32,
    pub field_id: i32,
    pub start: String,
    pub end: String,
}

/// The row takes part in the check: it lies on the field and is not the excluded slot.
pub open spec fn considered(row: StoredTimeSlot, field_id: i32, exclude: Option<i32>) -> bool {
    row.field_id == field_id && exclude != Some(row.id)
}

/// The row raises nothing: it is not considered, or both its instants read and
/// its interval does not meet `[start, end)`.
pub open spec fn row_clear(row: StoredTimeSlot, field_id: i32, start: Instant, end: Instant, exclude: Option<i32>) -> bool {
    considered(row, field_id, exclude) ==> {
        &&& parsed_instant(row.start@) is Some
        &&& parsed_instant(row.end@) is Some
        &&& !overlaps(parsed_instant(row.start@)->0, parsed_instant(row.end@)->0, start, end)
    }
}

/// The error that a considered row which is not clear raises.
pub open spec fn row_error(row: StoredTimeSlot, e: TimeSlotError) -> bool {
    if parsed_instant(row.start@) is None {
        e is ParseError && e->ParseError_0@ == row.start@
    } else if parsed_instant(row.end@) is None {
        e is ParseError && e->ParseError_0@ == row.end@
    } else {
        e == TimeSlotError::Overlap {
            o_start: parsed_instant(row.start@)->0,
            o_end: parsed_instant(row.end@)->0,
        }
    }
}

/// Checks `[start, end)` against the stored slots of `field_id`, leaving out
/// the slot `exclude`. The first row in `rows` order that cannot be read or
/// that overlaps decides the error.
pub fn conflicts(rows: &Vec<StoredTimeSlot>, field_id: i32, start: Instant, end: Instant, exclude: Option<i32>) -> (r: Result<(), TimeSlotError>)
    ensures
        r is Ok <==> forall|j: int| 0 <= j < rows@.len() ==> row_clear(#[trigger] rows@[j], field_id, start, end, exclude),
        r is Err ==> exists|k: int|
            0 <= k < rows@.len() && !row_clear(#[trigger] rows@[k], field_id, start, end, exclude)
                && row_error(rows@[k], r->Err_0)
                && forall|j: int| 0 <= j < k ==> row_clear(#[trigger] rows@[j], field_id, start, end, exclude),
{
    let mut i: usize = 0;
    while i < rows.len()
        invariant
            i <= rows@.len(),
            forall|j: int| 0 <= j < i ==> row_clear(#[trigger] rows@[j], field_id, start, end, exclude),
        decreases rows@.len() - i,
    {
        let row = &rows[i];
        let skip = match exclude {
            Some(x) => x == row.id,
            None => false,
        };
        if row.field_id == field_id && !skip {
            let o_start = match parse_utc(row.start.as_str()) {
                Some(t) => t,
                None => {
                    let text = row.start.clone();
                    return Err(TimeSlotError::ParseError(text));
                },
            };
            let o_end = match parse_utc(row.end.as_str()) {
                Some(t) => t,
                None => {
                    let text = row.end.clone();
                    return Err(TimeSlotError::ParseError(text));
                },
            };
            if intervals_overlap(&o_start, &o_end, &start, &end) {
                return Err(TimeSlotError::Overlap { o_start, o_end });
            }
        }
        i = i + 1;
    }
    Ok(())
}

/// Some row is slot `id` on field `field_id`.
pub open spec fn slot_on_field(rows: Seq<StoredTimeSlot>, field_id: i32, id: i32) -> bool {
    exists|p: int| 0 <= p < rows.len() && (#[trigger] rows[p]).id == id && rows[p].field_id == field_id
}

/// Checks moving slot `id` to `[start, end)` on `field_id`: the conflict scan
/// over the other slots comes first, then the slot must lie on that field.
pub fn check_move(rows: &Vec<StoredTimeSlot>, field_id: i32, id: i32, start: Instant, end: Instant) -> (r: Result<(), TimeSlotError>)
    ensures
        (exists|j: int| 0 <= j < rows@.len() && !row_clear(#[trigger] rows@[j], field_id, start, end, Some(id))) ==> exists|k: int|
            0 <= k < rows@.len() && !row_clear(#[trigger] rows@[k], field_id, start, end, Some(id))
                && row_error(rows@[k], r->Err_0)
                && forall|j: int| 0 <= j < k ==> row_clear(#[trigger] rows@[j], field_id, start, end, Some(id)),
        (forall|j: int| 0 <= j < rows@.len() ==> row_clear(#[trigger] rows@[j], field_id, start, end, Some(id))) ==> {
            &&& r is Ok <==> slot_on_field(rows@, field_id, id)
            &&& r is Err ==> r == Err::<(), TimeSlotError>(TimeSlotError::NotFound)
        },
{
    let scanned = conflicts(rows, field_id, start, end, Some(id));
    if scanned.is_err() {
        return scanned;
    }
    let mut i: usize = 0;
    while i < rows.len()
        invariant
            i <= rows@.len(),
            forall|j: int| 0 <= j < i ==> !((#[trigger] rows@[j]).id == id && rows@[j].field_id == field_id),
            forall|j: int| 0 <= j < rows@.len() ==> row_clear(#[trigger] rows@[j], field_id, start, end, Some(id)),
        decreases rows@.len() - i,
    {
        if rows[i].id == id && rows[i].field_id == field_id {
            assert(rows@[i as int].id == id && rows@[i as int].field_id == field_id);
            return Ok(());
        }
        i = i + 1;
    }
    Err(TimeSlotError::NotFound)
}

} // verus!
