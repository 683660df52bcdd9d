//! The library's general laws, stated over the abstract model that every
//! backend contract speaks of, and proved once for all backends.

use vstd::prelude::*;
use crate::event::NoteEvent;
use crate::model::{
    EventMap, events_well_formed, get_result_ok, lemma_may_match_exact, overlaps, patched,
    range_ids, range_result_ok, result_has, result_ids, update_effect,
};

verus! {

/// Overlap correctness: over a store whose records are all well-formed
/// intervals, any result sequence that meets the range-query contract
/// carries exactly the ids of the stored records overlapping `[s, e]`
/// (and, by the contract, no id twice).
pub proof fn lemma_range_result_exact(m: EventMap, s: u64, e: u64, r: Seq<&NoteEvent>)
    requires
        events_well_formed(m),
        range_result_ok(m, s, e, r),
    ensures
        result_ids(r) == range_ids(m, s, e),
{
    assert forall|id: Seq<char>| result_ids(r).contains(id)
        implies range_ids(m, s, e).contains(id) by {
        let t = choose|t: int| 0 <= t < r.len() && r[t].id@ == id;
        assert(m.contains_key(id));
        assert(r[t].data() == m[id]);
        lemma_may_match_exact(m[id], s, e);
    }
    assert forall|id: Seq<char>| range_ids(m, s, e).contains(id)
        implies result_ids(r).contains(id) by {
        assert(m.contains_key(id) && overlaps(m[id], s, e));
        assert(result_has(r, id));
    }
    assert(result_ids(r) =~= range_ids(m, s, e));
}

/// Backend equivalence: every contract of
/// [`NoteEventStore`](crate::store::NoteEventStore) is stated over the
/// abstract event map alone, and each mutator pins the map after the call as
/// a function of the map before it, so two conforming stores driven by the
/// same operation sequence keep equal maps after every step. This lemma
/// covers the observations: on equal maps, point lookups agree on presence
/// and on every field, and — when every stored record is well-formed — any
/// two range results carry the same id set.
pub proof fn lemma_backend_equivalence(
    m: EventMap,
    id: Seq<char>,
    s: u64,
    e: u64,
    g1: Option<&NoteEvent>,
    g2: Option<&NoteEvent>,
    r1: Seq<&NoteEvent>,
    r2: Seq<&NoteEvent>,
)
    requires
        events_well_formed(m),
        get_result_ok(m, id, g1),
        get_result_ok(m, id, g2),
        range_result_ok(m, s, e, r1),
        range_result_ok(m, s, e, r2),
    ensures
        (g1 is Some) == (g2 is Some),
        match (g1, g2) {
            (Some(a), Some(b)) => a.id@ == b.id@ && a.data() == b.data(),
            (None, None) => true,
            _ => false,
        },
        result_ids(r1) == result_ids(r2),
{
    lemma_range_result_exact(m, s, e, r1);
    lemma_range_result_exact(m, s, e, r2);
}

/// Round trip: inserting a record and then looking its id up returns a
/// record equal to it in every field.
pub proof fn lemma_add_get_round_trip(m: EventMap, ev: NoteEvent, r: Option<&NoteEvent>)
    requires
        get_result_ok(m.insert(ev.id@, ev.data()), ev.id@, r),
    ensures
        r is Some,
        match r {
            Some(g) => g.id@ == ev.id@ && g.data() == ev.data(),
            None => false,
        },
{
    assert(m.insert(ev.id@, ev.data()).contains_key(ev.id@));
}

/// Partial update: on a stored record, a patch changes exactly the fields it
/// carries, leaves every other field and every other record untouched, and
/// an all-absent patch leaves the whole map unchanged.
pub proof fn lemma_update_preserves_untouched(
    m: EventMap,
    id: Seq<char>,
    start_ticks: Option<u64>,
    end_ticks: Option<u64>,
    note_number: Option<u8>,
    velocity: Option<u8>,
)
    requires
        m.contains_key(id),
    ensures
        ({
            let m2 = update_effect(m, id, start_ticks, end_ticks, note_number, velocity);
            &&& m2.dom() == m.dom()
            &&& m2[id] == patched(m[id], start_ticks, end_ticks, note_number, velocity)
            &&& m2[id].start_ticks == match start_ticks {
                Some(v) => v,
                None => m[id].start_ticks,
            }
            &&& m2[id].end_ticks == match end_ticks { Some(v) => v, None => m[id].end_ticks }
            &&& m2[id].note_number == match note_number {
                Some(v) => v,
                None => m[id].note_number,
            }
            &&& m2[id].velocity == match velocity { Some(v) => v, None => m[id].velocity }
            &&& forall|x: Seq<char>|
                x != id && #[trigger] m.contains_key(x) ==> m2.contains_key(x) && m2[x] == m[x]
            &&& (start_ticks is None && end_ticks is None && note_number is None
                && velocity is None) ==> m2 == m
        }),
{
    let m2 = update_effect(m, id, start_ticks, end_ticks, note_number, velocity);
    assert(m2.dom() =~= m.dom());
    if start_ticks is None && end_ticks is None && note_number is None && velocity is None {
        assert(patched(m[id], start_ticks, end_ticks, note_number, velocity) == m[id]);
        assert(m2 =~= m);
    }
}

/// Update on a missing id is a no-op: the map is unchanged.
pub proof fn lemma_update_missing_noop(
    m: EventMap,
    id: Seq<char>,
    start_ticks: Option<u64>,
    end_ticks: Option<u64>,
    note_number: Option<u8>,
    velocity: Option<u8>,
)
    requires
        !m.contains_key(id),
    ensures
        update_effect(m, id, start_ticks, end_ticks, note_number, velocity) == m,
{
}

/// Delete is idempotent: after a delete the id is absent, deleting it again
/// changes nothing, and deleting an id that was never present changes
/// nothing.
pub proof fn lemma_delete_idempotent(m: EventMap, id: Seq<char>)
    ensures
        !m.remove(id).contains_key(id),
        m.remove(id).remove(id) == m.remove(id),
        !m.contains_key(id) ==> m.remove(id) == m,
{
    assert(m.remove(id).remove(id) =~= m.remove(id));
    if !m.contains_key(id) {
        assert(m.remove(id) =~= m);
    }
}

} // verus!
