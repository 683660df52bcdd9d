use vstd::prelude::*;

verus! {

/// One note: a tick interval `[start_ticks, end_ticks]` with a pitch and a
/// velocity, keyed across the store by `id`. The interval is intended to
/// satisfy `start_ticks <= end_ticks`; the store accepts records that
/// violate it without ever failing, but range-query membership is only
/// exact for well-formed intervals (see [`crate::model::may_match`]).
#[derive(Clone)]
pub struct NoteEvent {
    pub id: String,
    pub start_ticks: u64,
    pub end_ticks: u64,
    pub note_number: u8,
    pub velocity: u8,
}

/// The value part of a record: every field of a [`NoteEvent`] except its key.
/// Contracts describe a store as a map from id to this data.
pub struct NoteData {
    pub start_ticks: u64,
    pub end_ticks: u64,
    pub note_number: u8,
    pub velocity: u8,
}

impl NoteEvent {
    /// The value part of this event.
    pub open spec fn data(&self) -> NoteData {
        NoteData {
            start_ticks: self.start_ticks,
            end_ticks: self.end_ticks,
            note_number: self.note_number,
            velocity: self.velocity,
        }
    }
}

/// A sparse patch: `id` names the target record; every `Some` field
/// overwrites the stored value and every `None` field leaves it untouched.
/// Applying a patch whose id is absent from the store is a silent no-op.
pub struct NoteEventUpdate {
    pub id: String,
    pub start_ticks: Option<u64>,
    pub end_ticks: Option<u64>,
    pub note_number: Option<u8>,
    pub velocity: Option<u8>,
}

} // verus!
