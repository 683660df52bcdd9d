//! An in-memory store for discrete musical note events.
//!
//! Each event covers a closed tick interval `[start_ticks, end_ticks]` and
//! carries a pitch and a velocity, keyed by a string id. The store supports
//! create, partial update, delete, point lookup and interval-overlap range
//! queries. Two interchangeable backends implement one contract: a linear
//! unordered sequence ([`VecNoteEventStore`]) and a dual sorted-index
//! structure keyed separately by start and end tick
//! ([`BTreeNoteEventStore`]). Every operation's observable behavior is
//! specified over one abstract map from id to record data
//! ([`model::EventMap`]) and proved for both backends; the general laws of
//! the contract live in [`laws`], and [`scenarios`] proves concrete usage
//! runs that the tests execute against both backends.

pub mod event;
pub mod model;
pub mod store;
pub mod linear;
pub mod indexed;
pub mod laws;
pub mod scenarios;
mod util;

pub use event::NoteEvent;
pub use event::NoteEventUpdate;
pub use store::NoteEventStore;
pub use linear::VecNoteEventStore;
pub use indexed::BTreeNoteEventStore;
