//! The operation set every backend implements, with identical observable
//! semantics: each contract is stated over the abstract map
//! [`events`](NoteEventStore::events) alone, so any two conforming backends
//! with equal maps behave alike (see [`crate::laws`]).

use vstd::prelude::*;
use crate::event::{NoteEvent, NoteEventUpdate};
use crate::model::{
    EventMap, add_all_effect, delete_all_effect, get_result_ok, range_result_ok, str_views,
    update_all_effect, update_effect_of,
};

verus! {

/// An in-memory store of note events keyed by id.
///
/// Duplicate-id policy: `add_event` overwrites an existing record that
/// carries the same id, so ids are unique in every conforming store.
/// Mutations that name an absent id are silent no-ops, never errors, and no
/// operation panics on any input.
pub trait NoteEventStore: Sized {
    /// Abstract state: the id of each stored record mapped to its data.
    spec fn events(&self) -> EventMap;

    /// Internal consistency of the backend's structures; every operation
    /// preserves it and `new` establishes it.
    spec fn wf(&self) -> bool;

    /// Insert a record, overwriting any record stored under the same id.
    fn add_event(&mut self, event: NoteEvent)
        requires
            old(self).wf(),
        ensures
            final(self).wf(),
            final(self).events() == old(self).events().insert(event.id@, event.data()),
    ;

    /// Insert each record in the given order.
    fn add_events(&mut self, events: Vec<NoteEvent>)
        requires
            old(self).wf(),
        ensures
            final(self).wf(),
            final(self).events() == add_all_effect(old(self).events(), events@),
    ;

    /// Overwrite only the fields present in the patch; a silent no-op when
    /// no record carries the patch's id.
    fn update_event(&mut self, event: NoteEventUpdate)
        requires
            old(self).wf(),
        ensures
            final(self).wf(),
            final(self).events() == update_effect_of(old(self).events(), event),
    ;

    /// Apply each patch in the given order; later patches targeting the same
    /// id override earlier ones' effects.
    fn update_events(&mut self, events: Vec<NoteEventUpdate>)
        requires
            old(self).wf(),
        ensures
            final(self).wf(),
            final(self).events() == update_all_effect(old(self).events(), events@),
    ;

    /// Remove the record with this id if present; a no-op otherwise.
    fn delete_event(&mut self, id: &str)
        requires
            old(self).wf(),
        ensures
            final(self).wf(),
            final(self).events() == old(self).events().remove(id@),
    ;

    /// Remove every record whose id is listed; absent ids are ignored.
    fn delete_events(&mut self, ids: Vec<&str>)
        requires
            old(self).wf(),
        ensures
            final(self).wf(),
            final(self).events() == delete_all_effect(old(self).events(), str_views(ids@)),
    ;

    /// A read-only view of the record with this id, or `None` when absent.
    fn get_event(&self, id: &str) -> (r: Option<&NoteEvent>)
        requires
            self.wf(),
        ensures
            get_result_ok(self.events(), id@, r),
    ;

    /// Read-only views of the records whose intervals overlap the closed
    /// query interval `[start_ticks, end_ticks]`, each id at most once, in
    /// an unspecified order.
    fn get_events_by_range(&self, start_ticks: u64, end_ticks: u64) -> (r: Vec<&NoteEvent>)
        requires
            self.wf(),
        ensures
            range_result_ok(self.events(), start_ticks, end_ticks, r@),
    ;
}

} // verus!
