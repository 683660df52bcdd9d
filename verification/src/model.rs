//! The abstract model every backend is specified against: a map from record
//! id (as a character sequence) to record data, together with the effect of
//! each store operation on that map and the predicates that pin down query
//! results.

use vstd::prelude::*;
use crate::event::{NoteData, NoteEvent, NoteEventUpdate};

verus! {

/// A store's observable state: the id of each stored record mapped to its
/// data.
pub type EventMap = Map<Seq<char>, NoteData>;

// ---------------------------------------------------------------------------
// From a sequence of records to the abstract map
// ---------------------------------------------------------------------------

/// No two records in the sequence share an id.
pub open spec fn unique_ids(s: Seq<NoteEvent>) -> bool {
    forall|i: int, j: int| 0 <= i < j < s.len() ==> s[i].id@ != s[j].id@
}

/// Some record in the sequence carries the given id.
pub open spec fn seq_has_id(s: Seq<NoteEvent>, id: Seq<char>) -> bool {
    exists|i: int| 0 <= i < s.len() && s[i].id@ == id
}

/// The index of the record carrying the given id (unique when `unique_ids`
/// holds).
pub open spec fn seq_idx_of(s: Seq<NoteEvent>, id: Seq<char>) -> int {
    choose|i: int| 0 <= i < s.len() && s[i].id@ == id
}

/// The abstract map described by a duplicate-free sequence of records.
pub open spec fn seq_map(s: Seq<NoteEvent>) -> EventMap {
    Map::new(
        |id: Seq<char>| seq_has_id(s, id),
        |id: Seq<char>| s[seq_idx_of(s, id)].data(),
    )
}

/// Under `unique_ids`, position `i` is exactly the index chosen for the id of
/// the record at position `i`, and the abstract map agrees with that record.
pub proof fn lemma_idx_of(s: Seq<NoteEvent>, i: int)
    requires
        unique_ids(s),
        0 <= i < s.len(),
    ensures
        seq_has_id(s, s[i].id@),
        seq_idx_of(s, s[i].id@) == i,
        seq_map(s).contains_key(s[i].id@),
        seq_map(s)[s[i].id@] == s[i].data(),
{
    assert(seq_has_id(s, s[i].id@));
    let j = seq_idx_of(s, s[i].id@);
    assert(0 <= j < s.len() && s[j].id@ == s[i].id@);
    if i < j {
        assert(s[i].id@ != s[j].id@);
    }
    if j < i {
        assert(s[j].id@ != s[i].id@);
    }
}

/// Appending a record with a fresh id inserts it into the abstract map.
pub proof fn lemma_seq_map_push(s: Seq<NoteEvent>, ev: NoteEvent)
    requires
        unique_ids(s),
        !seq_has_id(s, ev.id@),
    ensures
        unique_ids(s.push(ev)),
        seq_map(s.push(ev)) == seq_map(s).insert(ev.id@, ev.data()),
{
    let s2 = s.push(ev);
    assert forall|i: int, j: int| 0 <= i < j < s2.len() implies s2[i].id@ != s2[j].id@ by {
        if j == s.len() {
            assert(s2[i] == s[i]);
            if s2[i].id@ == ev.id@ {
                assert(seq_has_id(s, ev.id@));
            }
        } else {
            assert(s2[i] == s[i] && s2[j] == s[j]);
        }
    }
    let target = seq_map(s).insert(ev.id@, ev.data());
    assert forall|k: Seq<char>| seq_map(s2).contains_key(k) implies target.contains_key(k) by {
        let i = choose|i: int| 0 <= i < s2.len() && s2[i].id@ == k;
        if i < s.len() {
            assert(s[i].id@ == k);
            assert(seq_has_id(s, k));
        } else {
            assert(k == ev.id@);
        }
    }
    assert forall|k: Seq<char>| target.contains_key(k) implies seq_map(s2).contains_key(k) by {
        if k == ev.id@ {
            assert(s2[s.len() as int].id@ == k);
        } else {
            let i = choose|i: int| 0 <= i < s.len() && s[i].id@ == k;
            assert(s2[i].id@ == k);
        }
    }
    assert forall|k: Seq<char>| seq_map(s2).contains_key(k) implies seq_map(s2)[k] == target[k] by {
        lemma_idx_of(s2, seq_idx_of(s2, k));
        let i = seq_idx_of(s2, k);
        assert(0 <= i < s2.len() && s2[i].id@ == k);
        if k == ev.id@ {
            if i < s.len() {
                assert(s[i].id@ == k);
                assert(seq_has_id(s, ev.id@));
            }
            assert(i == s.len());
            assert(seq_map(s2)[k] == ev.data());
        } else {
            assert(i < s.len());
            assert(s2[i] == s[i]);
            lemma_idx_of(s, i);
            assert(target[k] == seq_map(s)[k]);
            assert(seq_map(s)[k] == s[i].data());
        }
    }
    assert(seq_map(s2) =~= target);
}

/// Removing the record at position `i` removes its id from the abstract map.
pub proof fn lemma_seq_map_remove(s: Seq<NoteEvent>, i: int)
    requires
        unique_ids(s),
        0 <= i < s.len(),
    ensures
        unique_ids(s.remove(i)),
        seq_map(s.remove(i)) == seq_map(s).remove(s[i].id@),
{
    let s2 = s.remove(i);
    let shift = |j: int| if j < i { j } else { j + 1 };
    assert forall|p: int, q: int| 0 <= p < q < s2.len() implies s2[p].id@ != s2[q].id@ by {
        assert(s2[p] == s[shift(p)]);
        assert(s2[q] == s[shift(q)]);
        assert(0 <= shift(p) < shift(q) < s.len());
    }
    let target = seq_map(s).remove(s[i].id@);
    assert forall|k: Seq<char>| seq_map(s2).contains_key(k) implies target.contains_key(k) by {
        let p = choose|p: int| 0 <= p < s2.len() && s2[p].id@ == k;
        assert(s2[p] == s[shift(p)]);
        assert(seq_has_id(s, k));
        if k == s[i].id@ {
            // two positions of s share the id: shift(p) != i
            if shift(p) < i {
                assert(s[shift(p)].id@ != s[i].id@);
            }
            if i < shift(p) {
                assert(s[i].id@ != s[shift(p)].id@);
            }
            assert(false);
        }
    }
    assert forall|k: Seq<char>| target.contains_key(k) implies seq_map(s2).contains_key(k) by {
        let p = choose|p: int| 0 <= p < s.len() && s[p].id@ == k;
        assert(k != s[i].id@);
        if p < i {
            assert(s2[p] == s[p]);
            assert(s2[p].id@ == k);
        } else {
            assert(p != i);
            assert(s2[p - 1] == s[p]);
            assert(s2[p - 1].id@ == k);
        }
    }
    assert forall|k: Seq<char>| seq_map(s2).contains_key(k) implies seq_map(s2)[k] == target[k] by {
        lemma_idx_of(s2, seq_idx_of(s2, k));
        let p = seq_idx_of(s2, k);
        assert(0 <= p < s2.len() && s2[p].id@ == k);
        assert(s2[p] == s[shift(p)]);
        lemma_idx_of(s, shift(p));
        assert(seq_map(s)[k] == s[shift(p)].data());
        assert(seq_map(s2)[k] == s2[p].data());
        assert(target.contains_key(k));
        assert(target[k] == seq_map(s)[k]);
    }
    assert(seq_map(s2) =~= target);
}

/// Replacing the record at position `i` with one carrying the same id
/// overwrites that id's data in the abstract map.
pub proof fn lemma_seq_map_update(s: Seq<NoteEvent>, i: int, ev: NoteEvent)
    requires
        unique_ids(s),
        0 <= i < s.len(),
        ev.id@ == s[i].id@,
    ensures
        unique_ids(s.update(i, ev)),
        seq_map(s.update(i, ev)) == seq_map(s).insert(ev.id@, ev.data()),
{
    let s2 = s.update(i, ev);
    assert forall|p: int, q: int| 0 <= p < q < s2.len() implies s2[p].id@ != s2[q].id@ by {
        assert(s2[p].id@ == s[p].id@);
        assert(s2[q].id@ == s[q].id@);
    }
    let target = seq_map(s).insert(ev.id@, ev.data());
    assert forall|k: Seq<char>| seq_map(s2).contains_key(k) implies target.contains_key(k) by {
        let p = choose|p: int| 0 <= p < s2.len() && s2[p].id@ == k;
        assert(s[p].id@ == k);
        assert(seq_has_id(s, k));
    }
    assert forall|k: Seq<char>| target.contains_key(k) implies seq_map(s2).contains_key(k) by {
        if k == ev.id@ {
            assert(s2[i].id@ == k);
        } else {
            let p = choose|p: int| 0 <= p < s.len() && s[p].id@ == k;
            assert(s2[p].id@ == k);
        }
    }
    assert forall|k: Seq<char>| seq_map(s2).contains_key(k) implies seq_map(s2)[k] == target[k] by {
        lemma_idx_of(s2, seq_idx_of(s2, k));
        let p = seq_idx_of(s2, k);
        assert(0 <= p < s2.len() && s2[p].id@ == k);
        if k == ev.id@ {
            // the id is unique, so p must be i
            lemma_idx_of(s, i);
            assert(s[p].id@ == s[i].id@);
            if p != i {
                lemma_idx_of(s, p);
            }
            assert(p == i);
            assert(seq_map(s2)[k] == ev.data());
        } else {
            assert(p != i);
            assert(s2[p] == s[p]);
            lemma_idx_of(s, p);
            assert(seq_map(s)[k] == s[p].data());
            assert(target[k] == seq_map(s)[k]);
        }
    }
    assert(seq_map(s2) =~= target);
}

// ---------------------------------------------------------------------------
// The effect of each operation on the abstract map
// ---------------------------------------------------------------------------

/// The record resulting from applying a patch's four optional fields: each
/// `Some` field overwrites, each `None` field keeps the stored value.
pub open spec fn patched(
    d: NoteData,
    start_ticks: Option<u64>,
    end_ticks: Option<u64>,
    note_number: Option<u8>,
    velocity: Option<u8>,
) -> NoteData {
    NoteData {
        start_ticks: match start_ticks { Some(v) => v, None => d.start_ticks },
        end_ticks: match end_ticks { Some(v) => v, None => d.end_ticks },
        note_number: match note_number { Some(v) => v, None => d.note_number },
        velocity: match velocity { Some(v) => v, None => d.velocity },
    }
}

/// Observable effect of `update_event`: patch the record when the id is
/// present, do nothing otherwise.
pub open spec fn update_effect(
    m: EventMap,
    id: Seq<char>,
    start_ticks: Option<u64>,
    end_ticks: Option<u64>,
    note_number: Option<u8>,
    velocity: Option<u8>,
) -> EventMap {
    if m.contains_key(id) {
        m.insert(id, patched(m[id], start_ticks, end_ticks, note_number, velocity))
    } else {
        m
    }
}

/// The effect of one patch value.
pub open spec fn update_effect_of(m: EventMap, u: NoteEventUpdate) -> EventMap {
    update_effect(m, u.id@, u.start_ticks, u.end_ticks, u.note_number, u.velocity)
}

/// The effect of `add_events`: insert each record in the given order.
pub open spec fn add_all_effect(m: EventMap, evs: Seq<NoteEvent>) -> EventMap
    decreases evs.len(),
{
    if evs.len() == 0 {
        m
    } else {
        add_all_effect(m.insert(evs[0].id@, evs[0].data()), evs.drop_first())
    }
}

/// The effect of `update_events`: apply each patch in the given order.
pub open spec fn update_all_effect(m: EventMap, us: Seq<NoteEventUpdate>) -> EventMap
    decreases us.len(),
{
    if us.len() == 0 {
        m
    } else {
        update_all_effect(update_effect_of(m, us[0]), us.drop_first())
    }
}

/// The effect of `delete_events`: remove each id in the given order.
pub open spec fn delete_all_effect(m: EventMap, ids: Seq<Seq<char>>) -> EventMap
    decreases ids.len(),
{
    if ids.len() == 0 {
        m
    } else {
        delete_all_effect(m.remove(ids[0]), ids.drop_first())
    }
}

/// The views of a sequence of borrowed id strings.
pub open spec fn str_views(ids: Seq<&str>) -> Seq<Seq<char>> {
    ids.map_values(|s: &str| s@)
}

// ---------------------------------------------------------------------------
// Query predicates
// ---------------------------------------------------------------------------

/// A stored record overlaps the closed query interval `[s, e]`.
pub open spec fn overlaps(d: NoteData, s: u64, e: u64) -> bool {
    d.start_ticks <= e && d.end_ticks >= s
}

/// The loosened membership bound shared by both backends' range queries.
/// For a record with `start_ticks <= end_ticks` this coincides with
/// [`overlaps`]; a malformed record whose start lies inside the query window
/// may additionally be reported even though its end lies before the window.
pub open spec fn may_match(d: NoteData, s: u64, e: u64) -> bool {
    d.start_ticks <= e && (s <= d.start_ticks || d.end_ticks >= s)
}

/// On well-formed records the loosened bound is exactly [`overlaps`].
pub proof fn lemma_may_match_exact(d: NoteData, s: u64, e: u64)
    requires
        d.start_ticks <= d.end_ticks,
    ensures
        may_match(d, s, e) == overlaps(d, s, e),
{
}

/// The ids of the stored records overlapping `[s, e]`.
pub open spec fn range_ids(m: EventMap, s: u64, e: u64) -> Set<Seq<char>> {
    Set::new(|id: Seq<char>| m.contains_key(id) && overlaps(m[id], s, e))
}

/// Every stored record is a well-formed interval.
pub open spec fn events_well_formed(m: EventMap) -> bool {
    forall|id: Seq<char>| #[trigger] m.contains_key(id) ==> m[id].start_ticks <= m[id].end_ticks
}

/// Some element of the result sequence carries the given id.
pub open spec fn result_has(r: Seq<&NoteEvent>, id: Seq<char>) -> bool {
    exists|i: int| 0 <= i < r.len() && r[i].id@ == id
}

/// Appending an element preserves membership and can add the new id.
pub proof fn lemma_result_has_push(r: Seq<&NoteEvent>, x: &NoteEvent, id: Seq<char>)
    requires
        result_has(r, id) || x.id@ == id,
    ensures
        result_has(r.push(x), id),
{
    if result_has(r, id) {
        let t = choose|t: int| 0 <= t < r.len() && r[t].id@ == id;
        assert(r.push(x)[t].id@ == id);
    } else {
        assert(r.push(x)[r.len() as int].id@ == id);
    }
}

/// The set of ids carried by a result sequence.
pub open spec fn result_ids(r: Seq<&NoteEvent>) -> Set<Seq<char>> {
    Set::new(|id: Seq<char>| result_has(r, id))
}

/// What a point lookup must return: the stored record for a present id,
/// absence otherwise.
pub open spec fn get_result_ok(m: EventMap, id: Seq<char>, r: Option<&NoteEvent>) -> bool {
    match r {
        Some(ev) => m.contains_key(id) && ev.id@ == id && ev.data() == m[id],
        None => !m.contains_key(id),
    }
}

/// What a range query must return: every element is a stored record,
/// reported with its exact data and bounded by [`may_match`]; no id is
/// reported twice; and every stored record that [`overlaps`] the query
/// appears. For a store whose records are all well-formed this pins the
/// result down to exactly the overlapping records, in an unspecified order.
pub open spec fn range_result_ok(m: EventMap, s: u64, e: u64, r: Seq<&NoteEvent>) -> bool {
    &&& forall|i: int|
        #![trigger r[i]]
        0 <= i < r.len() ==> m.contains_key(r[i].id@) && r[i].data() == m[r[i].id@]
            && may_match(r[i].data(), s, e)
    &&& forall|i: int, j: int|
        #![trigger r[i], r[j]]
        0 <= i < j < r.len() ==> r[i].id@ != r[j].id@
    &&& forall|id: Seq<char>|
        m.contains_key(id) && overlaps(#[trigger] m[id], s, e) ==> result_has(r, id)
}

} // verus!
