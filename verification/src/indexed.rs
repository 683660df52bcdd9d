//! The indexed backend: the primary record sequence plus two ordered
//! indices, one keyed by start tick and one by end tick, each mapping a tick
//! value to the non-empty set of ids whose record currently carries that
//! value. Both indices are maintained in lockstep with every mutation and
//! let the range query scan only the buckets near the query window instead
//! of the whole store.

use vstd::prelude::*;
use crate::event::{NoteData, NoteEvent, NoteEventUpdate};
use crate::model::{
    EventMap, add_all_effect, delete_all_effect, lemma_idx_of, lemma_result_has_push,
    lemma_seq_map_push, lemma_seq_map_remove, lemma_seq_map_update, may_match, overlaps,
    result_has, seq_map, str_views, unique_ids, update_all_effect, update_effect_of,
};
use crate::store::NoteEventStore;
use crate::util::{find_event_index, find_str_index};

verus! {

/// One index bucket: the ids of all records sharing one tick value.
struct TickBucket {
    key: u64,
    ids: Vec<String>,
}

/// Some position of the bucket's id list carries the given id.
spec fn bucket_has(ids: Seq<String>, id: Seq<char>) -> bool {
    exists|k: int| 0 <= k < ids.len() && ids[k]@ == id
}

/// The index holds the entry `(key, id)`.
spec fn index_contains(idx: Seq<TickBucket>, key: u64, id: Seq<char>) -> bool {
    exists|j: int| 0 <= j < idx.len() && idx[j].key == key && bucket_has(idx[j].ids@, id)
}

/// Structural invariant of one index: bucket keys strictly increase, no
/// bucket is empty, and no bucket lists an id twice.
spec fn index_wf(idx: Seq<TickBucket>) -> bool {
    &&& forall|p: int, q: int| 0 <= p < q < idx.len() ==> idx[p].key < idx[q].key
    &&& forall|p: int| 0 <= p < idx.len() ==> idx[p].ids@.len() > 0
    &&& forall|p: int, k: int, l: int|
        0 <= p < idx.len() && 0 <= k < l < idx[p].ids@.len()
            ==> idx[p].ids@[k]@ != idx[p].ids@[l]@
}

/// Insert the entry `(key, id)` into an index that holds `id` nowhere,
/// creating the bucket if the key is new.
fn index_insert(idx: &mut Vec<TickBucket>, key: u64, id: String)
    requires
        index_wf(old(idx)@),
        forall|k2: u64| !index_contains(old(idx)@, k2, id@),
    ensures
        index_wf(final(idx)@),
        forall|k2: u64, x: Seq<char>|
            #[trigger] index_contains(final(idx)@, k2, x)
                ==> index_contains(old(idx)@, k2, x) || (k2 == key && x == id@),
        forall|k2: u64, x: Seq<char>|
            #[trigger] index_contains(old(idx)@, k2, x) ==> index_contains(final(idx)@, k2, x),
        index_contains(final(idx)@, key, id@),
{
    let ghost idx0 = idx@;
    let ghost idg = id@;
    let mut j: usize = 0;
    while j < idx.len() && idx[j].key < key
        invariant
            j <= idx@.len(),
            idx@ == idx0,
            forall|p: int| 0 <= p < j ==> idx@[p].key < key,
        decreases idx@.len() - j,
    {
        j += 1;
    }
    if j < idx.len() && idx[j].key == key {
        // the bucket exists: append the id
        let ghost b0 = idx0[j as int];
        let mut b = idx.remove(j);
        b.ids.push(id);
        let ghost bn = b;
        idx.insert(j, b);
        proof {
            assert(idx@ =~= idx0.update(j as int, bn));
            assert(bn.key == key);
            assert(bn.ids@.len() == b0.ids@.len() + 1);
            assert(forall|k: int| 0 <= k < b0.ids@.len() ==> bn.ids@[k] == b0.ids@[k]);
            assert(bn.ids@[b0.ids@.len() as int]@ == idg);
            // the id is in no bucket of the old index, in particular not in b0
            assert(!index_contains(idx0, key, idg));
            assert forall|k: int| 0 <= k < b0.ids@.len() implies b0.ids@[k]@ != idg by {
                if b0.ids@[k]@ == idg {
                    assert(bucket_has(b0.ids@, idg));
                    assert(index_contains(idx0, key, idg));
                }
            }
            assert forall|p: int, k: int, l: int|
                0 <= p < idx@.len() && 0 <= k < l < idx@[p].ids@.len()
                implies idx@[p].ids@[k]@ != idx@[p].ids@[l]@ by {
                if p == j as int {
                    if l == b0.ids@.len() as int {
                        assert(idx@[p].ids@[k]@ != idg);
                    } else {
                        assert(b0.ids@[k]@ != b0.ids@[l]@);
                    }
                }
            }
            assert(index_wf(idx@));
            assert forall|k2: u64, x: Seq<char>| #[trigger] index_contains(idx@, k2, x)
                implies index_contains(idx0, k2, x) || (k2 == key && x == idg) by {
                let p = choose|p: int|
                    0 <= p < idx@.len() && idx@[p].key == k2 && bucket_has(idx@[p].ids@, x);
                if p == j as int {
                    let kk = choose|kk: int|
                        0 <= kk < bn.ids@.len() && bn.ids@[kk]@ == x;
                    if kk < b0.ids@.len() {
                        assert(b0.ids@[kk]@ == x);
                        assert(bucket_has(b0.ids@, x));
                        assert(index_contains(idx0, k2, x));
                    } else {
                        assert(x == idg && k2 == key);
                    }
                } else {
                    assert(idx@[p] == idx0[p]);
                    assert(index_contains(idx0, k2, x));
                }
            }
            assert forall|k2: u64, x: Seq<char>| #[trigger] index_contains(idx0, k2, x)
                implies index_contains(idx@, k2, x) by {
                let p = choose|p: int|
                    0 <= p < idx0.len() && idx0[p].key == k2 && bucket_has(idx0[p].ids@, x);
                if p == j as int {
                    let kk = choose|kk: int|
                        0 <= kk < b0.ids@.len() && b0.ids@[kk]@ == x;
                    assert(bn.ids@[kk]@ == x);
                    assert(bucket_has(idx@[p].ids@, x));
                } else {
                    assert(idx@[p] == idx0[p]);
                }
                assert(idx@[p].key == k2 && bucket_has(idx@[p].ids@, x));
            }
            assert(bn.ids@[b0.ids@.len() as int]@ == idg);
            assert(bucket_has(bn.ids@, idg));
            assert(idx@[j as int] == bn);
            assert(idx@[j as int].key == key && bucket_has(idx@[j as int].ids@, idg));
            assert(index_contains(idx@, key, idg));
        }
    } else {
        // no bucket carries this key: create one at the insertion point
        let mut ids_new: Vec<String> = Vec::new();
        ids_new.push(id);
        let b = TickBucket { key, ids: ids_new };
        let ghost bn = b;
        idx.insert(j, b);
        proof {
            assert(idx@ =~= idx0.insert(j as int, bn));
            assert(bn.ids@.len() == 1 && bn.ids@[0]@ == idg);
            // sortedness around the new bucket
            assert forall|p: int, q: int| 0 <= p < q < idx@.len() implies idx@[p].key
                < idx@[q].key by {
                if p == j as int {
                    assert(idx@[q] == idx0[q - 1]);
                    assert(q - 1 >= j);
                    if (j as int) < idx0.len() {
                        assert(idx0[j as int].key != key);
                        assert(idx0[j as int].key > key);
                        if q - 1 > j {
                            assert(idx0[j as int].key < idx0[q - 1].key);
                        }
                    }
                } else if q == j as int {
                    assert(idx@[p] == idx0[p]);
                    assert(idx0[p].key < key);
                } else {
                    let p0: int = if p < j { p } else { p - 1 };
                    let q0: int = if q < j { q } else { q - 1 };
                    assert(idx@[p] == idx0[p0] && idx@[q] == idx0[q0]);
                    assert(0 <= p0 < q0 < idx0.len());
                }
            }
            assert(index_wf(idx@));
            assert forall|k2: u64, x: Seq<char>| #[trigger] index_contains(idx@, k2, x)
                implies index_contains(idx0, k2, x) || (k2 == key && x == idg) by {
                let p = choose|p: int|
                    0 <= p < idx@.len() && idx@[p].key == k2 && bucket_has(idx@[p].ids@, x);
                if p == j as int {
                    let kk = choose|kk: int|
                        0 <= kk < bn.ids@.len() && bn.ids@[kk]@ == x;
                    assert(kk == 0);
                    assert(x == idg && k2 == key);
                } else {
                    let p0: int = if p < j { p } else { p - 1 };
                    assert(idx@[p] == idx0[p0]);
                    assert(index_contains(idx0, k2, x));
                }
            }
            assert forall|k2: u64, x: Seq<char>| #[trigger] index_contains(idx0, k2, x)
                implies index_contains(idx@, k2, x) by {
                let p = choose|p: int|
                    0 <= p < idx0.len() && idx0[p].key == k2 && bucket_has(idx0[p].ids@, x);
                let p2: int = if p < j { p } else { p + 1 };
                assert(idx@[p2] == idx0[p]);
                assert(idx@[p2].key == k2 && bucket_has(idx@[p2].ids@, x));
            }
            assert(bucket_has(bn.ids@, idg));
            assert(idx@[j as int] == bn);
            assert(index_contains(idx@, key, idg));
        }
    }
}

/// Removing one listed id from a bucket that keeps other ids removes
/// exactly that entry from the index.
proof fn lemma_bucket_remove_entry(
    idx0: Seq<TickBucket>,
    idx1: Seq<TickBucket>,
    j: int,
    kk: int,
    idg: Seq<char>,
)
    requires
        index_wf(idx0),
        0 <= j < idx0.len(),
        0 <= kk < idx0[j].ids@.len(),
        idx0[j].ids@[kk]@ == idg,
        forall|p: int| 0 <= p < idx0.len() && p != j ==> idx0[p].key != idx0[j].key,
        idx1.len() == idx0.len(),
        forall|p: int| 0 <= p < idx1.len() && p != j ==> idx1[p] == idx0[p],
        idx1[j].key == idx0[j].key,
        idx1[j].ids@ == idx0[j].ids@.remove(kk),
        idx1[j].ids@.len() > 0,
    ensures
        index_wf(idx1),
        forall|k2: u64, x: Seq<char>|
            #[trigger] index_contains(idx1, k2, x)
                ==> index_contains(idx0, k2, x) && !(k2 == idx0[j].key && x == idg),
        forall|k2: u64, x: Seq<char>|
            #[trigger] index_contains(idx0, k2, x) && !(k2 == idx0[j].key && x == idg)
                ==> index_contains(idx1, k2, x),
{
    let key = idx0[j].key;
    let b0 = idx0[j].ids@;
    let b1 = idx1[j].ids@;
    assert(b1.len() == b0.len() - 1);
    assert(forall|k: int| 0 <= k < kk ==> b1[k] == b0[k]);
    assert(forall|k: int| kk <= k < b1.len() ==> b1[k] == b0[k + 1]);
    assert forall|p: int, k: int, l: int|
        0 <= p < idx1.len() && 0 <= k < l < idx1[p].ids@.len()
        implies idx1[p].ids@[k]@ != idx1[p].ids@[l]@ by {
        if p == j {
            let k0: int = if k < kk { k } else { k + 1 };
            let l0: int = if l < kk { l } else { l + 1 };
            assert(b1[k] == b0[k0] && b1[l] == b0[l0]);
            assert(0 <= k0 < l0 < b0.len());
        }
    }
    assert forall|p: int, q: int| 0 <= p < q < idx1.len() implies idx1[p].key < idx1[q].key by {
        assert(idx1[p].key == idx0[p].key && idx1[q].key == idx0[q].key);
    }
    assert(index_wf(idx1));
    assert forall|k2: u64, x: Seq<char>| #[trigger] index_contains(idx1, k2, x)
        implies index_contains(idx0, k2, x) && !(k2 == key && x == idg) by {
        let p = choose|p: int|
            0 <= p < idx1.len() && idx1[p].key == k2 && bucket_has(idx1[p].ids@, x);
        if p == j {
            let k = choose|k: int| 0 <= k < b1.len() && b1[k]@ == x;
            let k0: int = if k < kk { k } else { k + 1 };
            assert(b0[k0]@ == x);
            assert(bucket_has(b0, x));
            assert(index_contains(idx0, k2, x));
            if x == idg {
                // b0 would list the id twice
                if k0 < kk {
                    assert(b0[k0]@ != b0[kk]@);
                } else {
                    assert(k0 > kk);
                    assert(b0[kk]@ != b0[k0]@);
                }
                assert(false);
            }
        } else {
            assert(idx1[p] == idx0[p]);
            assert(index_contains(idx0, k2, x));
            if k2 == key && x == idg {
                assert(idx0[p].key != key);
                assert(false);
            }
        }
    }
    assert forall|k2: u64, x: Seq<char>|
        #[trigger] index_contains(idx0, k2, x) && !(k2 == key && x == idg)
        implies index_contains(idx1, k2, x) by {
        let p = choose|p: int|
            0 <= p < idx0.len() && idx0[p].key == k2 && bucket_has(idx0[p].ids@, x);
        if p == j {
            assert(k2 == key);
            assert(x != idg);
            let k = choose|k: int| 0 <= k < b0.len() && b0[k]@ == x;
            assert(k != kk);
            let k1: int = if k < kk { k } else { k - 1 };
            assert(b1[k1] == b0[k]);
            assert(bucket_has(b1, x));
            assert(idx1[j].key == k2 && bucket_has(idx1[j].ids@, x));
        } else {
            assert(idx1[p] == idx0[p]);
            assert(idx1[p].key == k2 && bucket_has(idx1[p].ids@, x));
        }
    }
}

/// Dropping a bucket whose only listed id is the removed one removes
/// exactly that entry from the index.
proof fn lemma_bucket_remove_whole(
    idx0: Seq<TickBucket>,
    idx1: Seq<TickBucket>,
    j: int,
    idg: Seq<char>,
)
    requires
        index_wf(idx0),
        0 <= j < idx0.len(),
        idx0[j].ids@.len() == 1,
        idx0[j].ids@[0]@ == idg,
        forall|p: int| 0 <= p < idx0.len() && p != j ==> idx0[p].key != idx0[j].key,
        idx1 == idx0.remove(j),
    ensures
        index_wf(idx1),
        forall|k2: u64, x: Seq<char>|
            #[trigger] index_contains(idx1, k2, x)
                ==> index_contains(idx0, k2, x) && !(k2 == idx0[j].key && x == idg),
        forall|k2: u64, x: Seq<char>|
            #[trigger] index_contains(idx0, k2, x) && !(k2 == idx0[j].key && x == idg)
                ==> index_contains(idx1, k2, x),
{
    let key = idx0[j].key;
    assert(forall|p: int| 0 <= p < j ==> idx1[p] == idx0[p]);
    assert(forall|p: int| j <= p < idx1.len() ==> idx1[p] == idx0[p + 1]);
    assert forall|p: int, q: int| 0 <= p < q < idx1.len() implies idx1[p].key < idx1[q].key by {
        let p0: int = if p < j { p } else { p + 1 };
        let q0: int = if q < j { q } else { q + 1 };
        assert(idx1[p] == idx0[p0] && idx1[q] == idx0[q0]);
        assert(0 <= p0 < q0 < idx0.len());
    }
    assert(index_wf(idx1));
    assert forall|k2: u64, x: Seq<char>| #[trigger] index_contains(idx1, k2, x)
        implies index_contains(idx0, k2, x) && !(k2 == idx0[j].key && x == idg) by {
        let p = choose|p: int|
            0 <= p < idx1.len() && idx1[p].key == k2 && bucket_has(idx1[p].ids@, x);
        let p0: int = if p < j { p } else { p + 1 };
        assert(idx1[p] == idx0[p0]);
        assert(p0 != j);
        assert(index_contains(idx0, k2, x));
        if k2 == key {
            assert(idx0[p0].key != key);
            assert(false);
        }
    }
    assert forall|k2: u64, x: Seq<char>|
        #[trigger] index_contains(idx0, k2, x) && !(k2 == idx0[j].key && x == idg)
        implies index_contains(idx1, k2, x) by {
        let p = choose|p: int|
            0 <= p < idx0.len() && idx0[p].key == k2 && bucket_has(idx0[p].ids@, x);
        if p == j {
            assert(k2 == key);
            let k = choose|k: int| 0 <= k < idx0[j].ids@.len() && idx0[j].ids@[k]@ == x;
            assert(k == 0);
            assert(x == idg);
            assert(false);
        }
        let p1: int = if p < j { p } else { p - 1 };
        assert(idx1[p1] == idx0[p]);
        assert(idx1[p1].key == k2 && bucket_has(idx1[p1].ids@, x));
    }
}

/// Remove the entry `(key, id)` if present, pruning the bucket when it
/// becomes empty; a no-op when the entry is absent.
fn index_remove(idx: &mut Vec<TickBucket>, key: u64, id: &String)
    requires
        index_wf(old(idx)@),
    ensures
        index_wf(final(idx)@),
        forall|k2: u64, x: Seq<char>|
            #[trigger] index_contains(final(idx)@, k2, x)
                ==> index_contains(old(idx)@, k2, x) && !(k2 == key && x == id@),
        forall|k2: u64, x: Seq<char>|
            #[trigger] index_contains(old(idx)@, k2, x) && !(k2 == key && x == id@)
                ==> index_contains(final(idx)@, k2, x),
{
    let ghost idx0 = idx@;
    let ghost idg = id@;
    let mut j: usize = 0;
    while j < idx.len() && idx[j].key != key
        invariant
            j <= idx@.len(),
            idx@ == idx0,
            forall|p: int| 0 <= p < j ==> idx@[p].key != key,
        decreases idx@.len() - j,
    {
        j += 1;
    }
    if j < idx.len() {
        let ghost b0 = idx0[j as int];
        // strictly sorted keys are unique, so bucket j is the only one with this key
        proof {
            assert forall|p: int| 0 <= p < idx0.len() && p != j implies idx0[p].key != key by {
                if p > j as int {
                    assert(idx0[j as int].key < idx0[p].key);
                }
            }
        }
        let mut b = idx.remove(j);
        match find_str_index(&b.ids, id) {
            Some(kk) => {
                b.ids.remove(kk);
                let ghost bn = b;
                if b.ids.len() > 0 {
                    idx.insert(j, b);
                    proof {
                        assert(idx@ =~= idx0.update(j as int, bn));
                        assert(bn.key == key);
                        assert(bn.ids@ == b0.ids@.remove(kk as int));
                        lemma_bucket_remove_entry(idx0, idx@, j as int, kk as int, idg);
                    }
                } else {
                    proof {
                        assert(idx@ =~= idx0.remove(j as int));
                        assert(b0.ids@.len() == 1);
                        assert(b0.ids@[0]@ == idg);
                        lemma_bucket_remove_whole(idx0, idx@, j as int, idg);
                    }
                }
            }
            None => {
                idx.insert(j, b);
                proof {
                    assert(idx@ =~= idx0);
                    assert forall|k2: u64, x: Seq<char>| #[trigger] index_contains(idx@, k2, x)
                        implies index_contains(idx0, k2, x) && !(k2 == key && x == idg) by {
                        if k2 == key && x == idg {
                            let p = choose|p: int|
                                0 <= p < idx0.len() && idx0[p].key == k2
                                    && bucket_has(idx0[p].ids@, x);
                            assert(p == j as int);
                            let kx = choose|kx: int|
                                0 <= kx < b0.ids@.len() && b0.ids@[kx]@ == idg;
                            assert(false);
                        }
                    }
                }
            }
        }
    } else {
        proof {
            assert forall|k2: u64, x: Seq<char>| #[trigger] index_contains(idx@, k2, x)
                implies index_contains(idx0, k2, x) && !(k2 == key && x == idg) by {
                if k2 == key {
                    let p = choose|p: int|
                        0 <= p < idx@.len() && idx@[p].key == k2 && bucket_has(idx@[p].ids@, x);
                    assert(false);
                }
            }
        }
    }
}

/// The index agrees with the record sequence on the given key field: every
/// listed entry names a stored record carrying that key value, and every
/// stored record is listed under its current key value.
spec fn linked(m: EventMap, idx: Seq<TickBucket>, by_start: bool) -> bool {
    &&& forall|k: u64, x: Seq<char>|
        #[trigger] index_contains(idx, k, x)
            ==> m.contains_key(x) && key_field(m[x], by_start) == k
    &&& forall|x: Seq<char>|
        #[trigger] m.contains_key(x) ==> index_contains(idx, key_field(m[x], by_start), x)
}

/// The tick field an index is keyed by.
spec fn key_field(d: NoteData, by_start: bool) -> u64 {
    if by_start {
        d.start_ticks
    } else {
        d.end_ticks
    }
}

// ---------------------------------------------------------------------------
// Range-scan invariant helpers
// ---------------------------------------------------------------------------

/// Every collected element is a stored record with its exact data, inside
/// the loosened query bound.
spec fn scan_sound(m: EventMap, s: u64, e: u64, r: Seq<&NoteEvent>) -> bool {
    forall|t: int|
        #![trigger r[t]]
        0 <= t < r.len() ==> m.contains_key(r[t].id@) && r[t].data() == m[r[t].id@]
            && may_match(r[t].data(), s, e)
}

/// No id is collected twice.
spec fn scan_nodup(r: Seq<&NoteEvent>) -> bool {
    forall|t: int, u: int|
        #![trigger r[t], r[u]]
        0 <= t < u < r.len() ==> r[t].id@ != r[u].id@
}

/// The guard list holds exactly the ids collected so far.
spec fn seen_matches(r: Seq<&NoteEvent>, seen: Seq<String>) -> bool {
    &&& forall|x: Seq<char>| #[trigger] bucket_has(seen, x) ==> result_has(r, x)
    &&& forall|x: Seq<char>| #[trigger] result_has(r, x) ==> bucket_has(seen, x)
}

/// Collecting one record that is not yet guarded preserves every scan
/// invariant and records its id.
proof fn lemma_scan_push(
    m: EventMap,
    s: u64,
    e: u64,
    r: Seq<&NoteEvent>,
    seen: Seq<String>,
    ev: &NoteEvent,
    sid: String,
)
    requires
        scan_sound(m, s, e, r),
        scan_nodup(r),
        seen_matches(r, seen),
        m.contains_key(ev.id@),
        ev.data() == m[ev.id@],
        may_match(ev.data(), s, e),
        sid@ == ev.id@,
        !bucket_has(seen, ev.id@),
    ensures
        scan_sound(m, s, e, r.push(ev)),
        scan_nodup(r.push(ev)),
        seen_matches(r.push(ev), seen.push(sid)),
        result_has(r.push(ev), ev.id@),
        forall|x: Seq<char>| #[trigger] result_has(r, x) ==> result_has(r.push(ev), x),
{
    let r2 = r.push(ev);
    let seen2 = seen.push(sid);
    assert(r2[r.len() as int] == ev);
    assert forall|t: int| 0 <= t < r2.len() implies m.contains_key(r2[t].id@)
        && r2[t].data() == m[r2[t].id@] && may_match(r2[t].data(), s, e) by {
        if t < r.len() {
            assert(r2[t] == r[t]);
        }
    }
    assert forall|t: int, u: int| 0 <= t < u < r2.len() implies r2[t].id@ != r2[u].id@ by {
        if u == r.len() as int {
            assert(r2[t] == r[t]);
            if r2[t].id@ == ev.id@ {
                assert(result_has(r, ev.id@));
            }
        } else {
            assert(r2[t] == r[t] && r2[u] == r[u]);
        }
    }
    assert forall|x: Seq<char>| #[trigger] bucket_has(seen2, x) implies result_has(r2, x) by {
        let k = choose|k: int| 0 <= k < seen2.len() && seen2[k]@ == x;
        if k < seen.len() {
            assert(seen[k]@ == x);
            assert(bucket_has(seen, x));
            lemma_result_has_push(r, ev, x);
        } else {
            assert(x == ev.id@);
            assert(r2[r.len() as int].id@ == x);
        }
    }
    assert forall|x: Seq<char>| #[trigger] result_has(r2, x) implies bucket_has(seen2, x) by {
        let t = choose|t: int| 0 <= t < r2.len() && r2[t].id@ == x;
        if t < r.len() {
            assert(r[t].id@ == x);
            assert(result_has(r, x));
            let k = choose|k: int| 0 <= k < seen.len() && seen[k]@ == x;
            assert(seen2[k]@ == x);
        } else {
            assert(x == ev.id@);
            assert(seen2[seen.len() as int]@ == x);
        }
    }
    assert forall|x: Seq<char>| #[trigger] result_has(r, x) implies result_has(r2, x) by {
        lemma_result_has_push(r, ev, x);
    }
}

// ---------------------------------------------------------------------------
// The store
// ---------------------------------------------------------------------------

/// A store backed by a primary record sequence and two ordered tick
/// indices that are kept consistent with it on every mutation.
pub struct BTreeNoteEventStore {
    events: Vec<NoteEvent>,
    start_ticks_index: Vec<TickBucket>,
    end_ticks_index: Vec<TickBucket>,
}

impl BTreeNoteEventStore {
    /// An empty store.
    pub fn new() -> (s: Self)
        ensures
            s.wf(),
            s.events() == EventMap::empty(),
    {
        let s = BTreeNoteEventStore {
            events: Vec::new(),
            start_ticks_index: Vec::new(),
            end_ticks_index: Vec::new(),
        };
        proof {
            assert(seq_map(s.events@) =~= EventMap::empty());
        }
        s
    }
}

impl NoteEventStore for BTreeNoteEventStore {
    closed spec fn events(&self) -> EventMap {
        seq_map(self.events@)
    }

    closed spec fn wf(&self) -> bool {
        &&& unique_ids(self.events@)
        &&& index_wf(self.start_ticks_index@)
        &&& index_wf(self.end_ticks_index@)
        &&& linked(seq_map(self.events@), self.start_ticks_index@, true)
        &&& linked(seq_map(self.events@), self.end_ticks_index@, false)
    }

    fn add_event(&mut self, event: NoteEvent) {
        let ghost m0 = self.events();
        // overwrite policy: clear any record stored under this id first
        self.delete_event(event.id.as_str());
        let ghost m1 = self.events();
        let ghost s1 = self.events@;
        let ghost evg = event;
        let id_for_start = event.id.clone();
        let id_for_end = event.id.clone();
        let st = event.start_ticks;
        let en = event.end_ticks;
        self.events.push(event);
        proof {
            assert(!m1.contains_key(evg.id@));
            lemma_seq_map_push(s1, evg);
            assert forall|k2: u64| !index_contains(self.start_ticks_index@, k2, evg.id@) by {
                if index_contains(self.start_ticks_index@, k2, evg.id@) {
                    assert(m1.contains_key(evg.id@));
                }
            }
            assert forall|k2: u64| !index_contains(self.end_ticks_index@, k2, evg.id@) by {
                if index_contains(self.end_ticks_index@, k2, evg.id@) {
                    assert(m1.contains_key(evg.id@));
                }
            }
        }
        let ghost sidx1 = self.start_ticks_index@;
        let ghost eidx1 = self.end_ticks_index@;
        index_insert(&mut self.start_ticks_index, st, id_for_start);
        index_insert(&mut self.end_ticks_index, en, id_for_end);
        proof {
            let m2 = seq_map(self.events@);
            assert(m2 == m1.insert(evg.id@, evg.data()));
            assert forall|k: u64, x: Seq<char>|
                #[trigger] index_contains(self.start_ticks_index@, k, x)
                implies m2.contains_key(x) && key_field(m2[x], true) == k by {
                if index_contains(sidx1, k, x) {
                    assert(m1.contains_key(x) && key_field(m1[x], true) == k);
                    assert(x != evg.id@);
                } else {
                    assert(k == st && x == evg.id@);
                }
            }
            assert forall|x: Seq<char>| #[trigger] m2.contains_key(x)
                implies index_contains(self.start_ticks_index@, key_field(m2[x], true), x) by {
                if x == evg.id@ {
                    assert(index_contains(self.start_ticks_index@, st, x));
                } else {
                    assert(m1.contains_key(x));
                    assert(index_contains(sidx1, key_field(m1[x], true), x));
                }
            }
            assert forall|k: u64, x: Seq<char>|
                #[trigger] index_contains(self.end_ticks_index@, k, x)
                implies m2.contains_key(x) && key_field(m2[x], false) == k by {
                if index_contains(eidx1, k, x) {
                    assert(m1.contains_key(x) && key_field(m1[x], false) == k);
                    assert(x != evg.id@);
                } else {
                    assert(k == en && x == evg.id@);
                }
            }
            assert forall|x: Seq<char>| #[trigger] m2.contains_key(x)
                implies index_contains(self.end_ticks_index@, key_field(m2[x], false), x) by {
                if x == evg.id@ {
                    assert(index_contains(self.end_ticks_index@, en, x));
                } else {
                    assert(m1.contains_key(x));
                    assert(index_contains(eidx1, key_field(m1[x], false), x));
                }
            }
            assert(m2 =~= m0.insert(evg.id@, evg.data()));
        }
    }

    fn add_events(&mut self, events: Vec<NoteEvent>) {
        let ghost m0 = self.events();
        let ghost all = events@;
        let mut evs = events;
        proof {
            assert(evs@ =~= all);
        }
        while evs.len() > 0
            invariant
                self.wf(),
                add_all_effect(self.events(), evs@) == add_all_effect(m0, all),
            decreases evs@.len(),
        {
            let ghost prev = evs@;
            let ghost m_prev = self.events();
            let ev = evs.remove(0);
            let ghost evg = ev;
            self.add_event(ev);
            proof {
                assert(prev[0] == evg);
                assert(evs@ =~= prev.drop_first());
                assert(add_all_effect(m_prev, prev)
                    == add_all_effect(m_prev.insert(evg.id@, evg.data()), prev.drop_first()));
            }
        }
    }

    fn update_event(&mut self, event: NoteEventUpdate) {
        let ghost m0 = self.events();
        let ghost s0 = self.events@;
        match find_event_index(&self.events, &event.id) {
            None => {
                proof {
                    assert(!m0.contains_key(event.id@));
                }
            }
            Some(i) => {
                proof {
                    lemma_idx_of(s0, i as int);
                }
                let old_start = self.events[i].start_ticks;
                let old_end = self.events[i].end_ticks;
                let ghost sidx0 = self.start_ticks_index@;
                let ghost eidx0 = self.end_ticks_index@;
                if let Some(ns) = event.start_ticks {
                    index_remove(&mut self.start_ticks_index, old_start, &event.id);
                    proof {
                        assert forall|k2: u64|
                            !index_contains(self.start_ticks_index@, k2, event.id@) by {
                            if index_contains(self.start_ticks_index@, k2, event.id@) {
                                assert(index_contains(sidx0, k2, event.id@));
                                assert(key_field(m0[event.id@], true) == k2);
                            }
                        }
                    }
                    index_insert(&mut self.start_ticks_index, ns, event.id.clone());
                }
                if let Some(ne) = event.end_ticks {
                    index_remove(&mut self.end_ticks_index, old_end, &event.id);
                    proof {
                        assert forall|k2: u64|
                            !index_contains(self.end_ticks_index@, k2, event.id@) by {
                            if index_contains(self.end_ticks_index@, k2, event.id@) {
                                assert(index_contains(eidx0, k2, event.id@));
                                assert(key_field(m0[event.id@], false) == k2);
                            }
                        }
                    }
                    index_insert(&mut self.end_ticks_index, ne, event.id.clone());
                }
                let mut ev = self.events.remove(i);
                if let Some(v) = event.start_ticks {
                    ev.start_ticks = v;
                }
                if let Some(v) = event.end_ticks {
                    ev.end_ticks = v;
                }
                if let Some(v) = event.note_number {
                    ev.note_number = v;
                }
                if let Some(v) = event.velocity {
                    ev.velocity = v;
                }
                let ghost evg = ev;
                self.events.insert(i, ev);
                proof {
                    assert(self.events@ =~= s0.update(i as int, evg));
                    lemma_seq_map_update(s0, i as int, evg);
                    let m2 = seq_map(self.events@);
                    assert(m0[event.id@] == s0[i as int].data());
                    assert(evg.data() == crate::model::patched(
                        m0[event.id@], event.start_ticks, event.end_ticks, event.note_number,
                        event.velocity,
                    ));
                    assert(m2 == m0.insert(event.id@, evg.data()));
                    lemma_update_relink(
                        m0, m2, sidx0, self.start_ticks_index@, event.id@, event.start_ticks,
                        evg.data(), true,
                    );
                    lemma_update_relink(
                        m0, m2, eidx0, self.end_ticks_index@, event.id@, event.end_ticks,
                        evg.data(), false,
                    );
                }
            }
        }
    }

    fn update_events(&mut self, events: Vec<NoteEventUpdate>) {
        let ghost m0 = self.events();
        let ghost all = events@;
        let mut us = events;
        proof {
            assert(us@ =~= all);
        }
        while us.len() > 0
            invariant
                self.wf(),
                update_all_effect(self.events(), us@) == update_all_effect(m0, all),
            decreases us@.len(),
        {
            let ghost prev = us@;
            let ghost m_prev = self.events();
            let u = us.remove(0);
            let ghost ug = u;
            self.update_event(u);
            proof {
                assert(prev[0] == ug);
                assert(us@ =~= prev.drop_first());
                assert(update_all_effect(m_prev, prev)
                    == update_all_effect(update_effect_of(m_prev, ug), prev.drop_first()));
            }
        }
    }

    fn delete_event(&mut self, id: &str) {
        let ghost m0 = self.events();
        let ghost s0 = self.events@;
        let key: String = id.to_owned();
        match find_event_index(&self.events, &key) {
            None => {
                proof {
                    assert(seq_map(s0).remove(id@) =~= seq_map(s0));
                }
            }
            Some(i) => {
                proof {
                    lemma_idx_of(s0, i as int);
                }
                let old_start = self.events[i].start_ticks;
                let old_end = self.events[i].end_ticks;
                let ghost sidx0 = self.start_ticks_index@;
                let ghost eidx0 = self.end_ticks_index@;
                self.events.remove(i);
                index_remove(&mut self.start_ticks_index, old_start, &key);
                index_remove(&mut self.end_ticks_index, old_end, &key);
                proof {
                    lemma_seq_map_remove(s0, i as int);
                    let m2 = seq_map(self.events@);
                    assert(m2 == m0.remove(id@));
                    lemma_delete_relink(
                        m0, m2, sidx0, self.start_ticks_index@, id@, old_start, true,
                    );
                    lemma_delete_relink(
                        m0, m2, eidx0, self.end_ticks_index@, id@, old_end, false,
                    );
                }
            }
        }
    }

    fn delete_events(&mut self, ids: Vec<&str>) {
        let ghost m0 = self.events();
        let ghost all = str_views(ids@);
        let mut rest = ids;
        proof {
            assert(str_views(rest@) =~= all);
        }
        while rest.len() > 0
            invariant
                self.wf(),
                delete_all_effect(self.events(), str_views(rest@)) == delete_all_effect(m0, all),
            decreases rest@.len(),
        {
            let ghost prev = rest@;
            let ghost m_prev = self.events();
            let id = rest.remove(0);
            self.delete_event(id);
            proof {
                assert(str_views(prev)[0] == id@);
                assert(str_views(rest@) =~= str_views(prev).drop_first());
                assert(str_views(prev).len() > 0);
                assert(delete_all_effect(m_prev, str_views(prev))
                    == delete_all_effect(m_prev.remove(id@), str_views(prev).drop_first()));
            }
        }
    }

    fn get_event(&self, id: &str) -> (r: Option<&NoteEvent>) {
        let key: String = id.to_owned();
        match find_event_index(&self.events, &key) {
            Some(i) => {
                proof {
                    lemma_idx_of(self.events@, i as int);
                }
                Some(&self.events[i])
            }
            None => None,
        }
    }

    fn get_events_by_range(&self, start_ticks: u64, end_ticks: u64) -> (r: Vec<&NoteEvent>) {
        let ghost m = self.events();
        let mut result: Vec<&NoteEvent> = Vec::new();
        let mut seen: Vec<String> = Vec::new();
        // start-driven scan: every bucket whose start key lies in the window
        let mut bi: usize = 0;
        while bi < self.start_ticks_index.len()
            invariant
                bi <= self.start_ticks_index@.len(),
                self.wf(),
                m == self.events(),
                scan_sound(m, start_ticks, end_ticks, result@),
                scan_nodup(result@),
                seen_matches(result@, seen@),
                forall|p: int, k: int|
                    #![trigger self.start_ticks_index@[p].ids@[k]]
                    0 <= p < bi && start_ticks <= self.start_ticks_index@[p].key
                        <= end_ticks && 0 <= k < self.start_ticks_index@[p].ids@.len()
                        ==> result_has(result@, self.start_ticks_index@[p].ids@[k]@),
            decreases self.start_ticks_index@.len() - bi,
        {
            let bkey = self.start_ticks_index[bi].key;
            if start_ticks <= bkey && bkey <= end_ticks {
                let mut k: usize = 0;
                while k < self.start_ticks_index[bi].ids.len()
                    invariant
                        bi < self.start_ticks_index@.len(),
                        k <= self.start_ticks_index@[bi as int].ids@.len(),
                        bkey == self.start_ticks_index@[bi as int].key,
                        start_ticks <= bkey <= end_ticks,
                        self.wf(),
                        m == self.events(),
                        scan_sound(m, start_ticks, end_ticks, result@),
                        scan_nodup(result@),
                        seen_matches(result@, seen@),
                        forall|p: int, k2: int|
                            #![trigger self.start_ticks_index@[p].ids@[k2]]
                            0 <= p < bi && start_ticks
                                <= self.start_ticks_index@[p].key <= end_ticks
                                && 0 <= k2 < self.start_ticks_index@[p].ids@.len()
                                ==> result_has(
                                result@,
                                self.start_ticks_index@[p].ids@[k2]@,
                            ),
                        forall|k2: int|
                            0 <= k2 < k ==> result_has(
                                result@,
                                self.start_ticks_index@[bi as int].ids@[k2]@,
                            ),
                    decreases self.start_ticks_index@[bi as int].ids@.len() - k,
                {
                    let bucket_ids = &self.start_ticks_index[bi].ids;
                    let id_ref = &bucket_ids[k];
                    proof {
                        assert(bucket_has(self.start_ticks_index@[bi as int].ids@, id_ref@));
                        assert(index_contains(self.start_ticks_index@, bkey, id_ref@));
                        assert(m.contains_key(id_ref@) && m[id_ref@].start_ticks == bkey);
                    }
                    let found = find_event_index(&self.events, id_ref);
                    proof {
                        if found is None {
                            assert(false);
                        }
                    }
                    let fi = found.unwrap();
                    let ev = &self.events[fi];
                    proof {
                        lemma_idx_of(self.events@, fi as int);
                        assert(ev.data() == m[id_ref@]);
                    }
                    match find_str_index(&seen, id_ref) {
                        Some(_) => {
                            proof {
                                assert(bucket_has(seen@, id_ref@));
                                assert(result_has(result@, id_ref@));
                            }
                        }
                        None => {
                            let ghost r_old = result@;
                            let ghost seen_old = seen@;
                            let sid = id_ref.clone();
                            proof {
                                assert(!bucket_has(seen_old, id_ref@));
                                lemma_scan_push(
                                    m, start_ticks, end_ticks, r_old, seen_old, ev, sid,
                                );
                            }
                            result.push(ev);
                            seen.push(sid);
                        }
                    }
                    k += 1;
                }
            }
            bi += 1;
        }
        // end-driven scan: every bucket whose end key reaches the window,
        // re-checked against the start bound and the guard list
        let mut bj: usize = 0;
        while bj < self.end_ticks_index.len()
            invariant
                bj <= self.end_ticks_index@.len(),
                self.wf(),
                m == self.events(),
                scan_sound(m, start_ticks, end_ticks, result@),
                scan_nodup(result@),
                seen_matches(result@, seen@),
                forall|p: int, k: int|
                    #![trigger self.start_ticks_index@[p].ids@[k]]
                    0 <= p < self.start_ticks_index@.len()
                        && start_ticks <= self.start_ticks_index@[p].key
                        <= end_ticks && 0 <= k < self.start_ticks_index@[p].ids@.len()
                        ==> result_has(result@, self.start_ticks_index@[p].ids@[k]@),
                forall|p: int, k: int|
                    #![trigger self.end_ticks_index@[p].ids@[k]]
                    0 <= p < bj && self.end_ticks_index@[p].key >= start_ticks
                        && 0 <= k < self.end_ticks_index@[p].ids@.len()
                        && m[self.end_ticks_index@[p].ids@[k]@].start_ticks <= end_ticks
                        ==> result_has(result@, self.end_ticks_index@[p].ids@[k]@),
            decreases self.end_ticks_index@.len() - bj,
        {
            let bkey = self.end_ticks_index[bj].key;
            if bkey >= start_ticks {
                let mut k: usize = 0;
                while k < self.end_ticks_index[bj].ids.len()
                    invariant
                        bj < self.end_ticks_index@.len(),
                        k <= self.end_ticks_index@[bj as int].ids@.len(),
                        bkey == self.end_ticks_index@[bj as int].key,
                        bkey >= start_ticks,
                        self.wf(),
                        m == self.events(),
                        scan_sound(m, start_ticks, end_ticks, result@),
                        scan_nodup(result@),
                        seen_matches(result@, seen@),
                        forall|p: int, k2: int|
                            #![trigger self.start_ticks_index@[p].ids@[k2]]
                            0 <= p < self.start_ticks_index@.len()
                                && start_ticks <= self.start_ticks_index@[p].key
                                <= end_ticks && 0 <= k2 < self.start_ticks_index@[p].ids@.len()
                                ==> result_has(
                                result@,
                                self.start_ticks_index@[p].ids@[k2]@,
                            ),
                        forall|p: int, k2: int|
                            #![trigger self.end_ticks_index@[p].ids@[k2]]
                            0 <= p < bj && self.end_ticks_index@[p].key
                                >= start_ticks
                                && 0 <= k2 < self.end_ticks_index@[p].ids@.len()
                                && m[self.end_ticks_index@[p].ids@[k2]@].start_ticks
                                <= end_ticks
                                ==> result_has(
                                result@,
                                self.end_ticks_index@[p].ids@[k2]@,
                            ),
                        forall|k2: int|
                            0 <= k2 < k
                                && m[self.end_ticks_index@[bj as int].ids@[k2]@].start_ticks
                                <= end_ticks
                                ==> result_has(
                                result@,
                                self.end_ticks_index@[bj as int].ids@[k2]@,
                            ),
                    decreases self.end_ticks_index@[bj as int].ids@.len() - k,
                {
                    let bucket_ids = &self.end_ticks_index[bj].ids;
                    let id_ref = &bucket_ids[k];
                    proof {
                        assert(bucket_has(self.end_ticks_index@[bj as int].ids@, id_ref@));
                        assert(index_contains(self.end_ticks_index@, bkey, id_ref@));
                        assert(m.contains_key(id_ref@) && m[id_ref@].end_ticks == bkey);
                    }
                    let found = find_event_index(&self.events, id_ref);
                    proof {
                        if found is None {
                            assert(false);
                        }
                    }
                    let fi = found.unwrap();
                    let ev = &self.events[fi];
                    proof {
                        lemma_idx_of(self.events@, fi as int);
                        assert(ev.data() == m[id_ref@]);
                    }
                    if ev.start_ticks <= end_ticks {
                        match find_str_index(&seen, id_ref) {
                            Some(_) => {
                                proof {
                                    assert(bucket_has(seen@, id_ref@));
                                    assert(result_has(result@, id_ref@));
                                }
                            }
                            None => {
                                let ghost r_old = result@;
                                let ghost seen_old = seen@;
                                let sid = id_ref.clone();
                                proof {
                                    assert(!bucket_has(seen_old, id_ref@));
                                    assert(may_match(ev.data(), start_ticks, end_ticks));
                                    lemma_scan_push(
                                        m, start_ticks, end_ticks, r_old, seen_old, ev, sid,
                                    );
                                }
                                result.push(ev);
                                seen.push(sid);
                            }
                        }
                    }
                    k += 1;
                }
            }
            bj += 1;
        }
        proof {
            assert forall|id: Seq<char>|
                m.contains_key(id) && overlaps(m[id], start_ticks, end_ticks)
                implies result_has(result@, id) by {
                let d = m[id];
                if start_ticks <= d.start_ticks && d.start_ticks <= end_ticks {
                    assert(index_contains(self.start_ticks_index@, d.start_ticks, id));
                    let p = choose|p: int|
                        0 <= p < self.start_ticks_index@.len()
                            && self.start_ticks_index@[p].key == d.start_ticks
                            && bucket_has(self.start_ticks_index@[p].ids@, id);
                    let k = choose|k: int|
                        0 <= k < self.start_ticks_index@[p].ids@.len()
                            && self.start_ticks_index@[p].ids@[k]@ == id;
                    assert(result_has(result@, self.start_ticks_index@[p].ids@[k]@));
                } else {
                    assert(d.start_ticks < start_ticks);
                    assert(d.end_ticks >= start_ticks);
                    assert(index_contains(self.end_ticks_index@, d.end_ticks, id));
                    let p = choose|p: int|
                        0 <= p < self.end_ticks_index@.len()
                            && self.end_ticks_index@[p].key == d.end_ticks
                            && bucket_has(self.end_ticks_index@[p].ids@, id);
                    let k = choose|k: int|
                        0 <= k < self.end_ticks_index@[p].ids@.len()
                            && self.end_ticks_index@[p].ids@[k]@ == id;
                    assert(result_has(result@, self.end_ticks_index@[p].ids@[k]@));
                }
            }
        }
        result
    }
}

/// After patching one record, an index from which that record's old entry
/// was removed and into which its new entry was inserted is again linked to
/// the record map; an untouched index stays linked when the patched field is
/// the one it is not keyed by.
proof fn lemma_update_relink(
    m0: EventMap,
    m2: EventMap,
    idx0: Seq<TickBucket>,
    idx2: Seq<TickBucket>,
    id: Seq<char>,
    patch: Option<u64>,
    nd: NoteData,
    by_start: bool,
)
    requires
        linked(m0, idx0, by_start),
        m0.contains_key(id),
        m2 == m0.insert(id, nd),
        key_field(nd, by_start) == match patch {
            Some(v) => v,
            None => key_field(m0[id], by_start),
        },
        match patch {
            Some(v) => {
                // the old entry was removed and the new one inserted
                &&& forall|k2: u64, x: Seq<char>|
                    #[trigger] index_contains(idx2, k2, x) ==> (index_contains(idx0, k2, x)
                        && !(k2 == key_field(m0[id], by_start) && x == id)) || (k2 == v && x
                        == id)
                &&& forall|k2: u64, x: Seq<char>|
                    #[trigger] index_contains(idx0, k2, x)
                        && !(k2 == key_field(m0[id], by_start) && x == id)
                        ==> index_contains(idx2, k2, x)
                &&& index_contains(idx2, v, id)
            },
            None => idx2 == idx0,
        },
    ensures
        linked(m2, idx2, by_start),
{
    assert forall|k: u64, x: Seq<char>| #[trigger] index_contains(idx2, k, x)
        implies m2.contains_key(x) && key_field(m2[x], by_start) == k by {
        match patch {
            Some(v) => {
                if k == v && x == id {
                    assert(m2[id] == nd);
                } else {
                    assert(index_contains(idx0, k, x)
                        && !(k == key_field(m0[id], by_start) && x == id));
                    assert(m0.contains_key(x) && key_field(m0[x], by_start) == k);
                    if x == id {
                        assert(k == key_field(m0[id], by_start));
                        assert(false);
                    }
                }
            }
            None => {
                assert(index_contains(idx0, k, x));
                assert(m0.contains_key(x) && key_field(m0[x], by_start) == k);
                if x == id {
                    assert(key_field(m2[id], by_start) == key_field(m0[id], by_start));
                }
            }
        }
    }
    assert forall|x: Seq<char>| #[trigger] m2.contains_key(x)
        implies index_contains(idx2, key_field(m2[x], by_start), x) by {
        match patch {
            Some(v) => {
                if x == id {
                    assert(key_field(m2[id], by_start) == v);
                } else {
                    assert(m0.contains_key(x));
                    assert(index_contains(idx0, key_field(m0[x], by_start), x));
                }
            }
            None => {
                if x == id {
                    assert(index_contains(idx0, key_field(m0[id], by_start), x));
                } else {
                    assert(m0.contains_key(x));
                    assert(index_contains(idx0, key_field(m0[x], by_start), x));
                }
            }
        }
    }
}

/// After removing one record and its entry, the index is again linked to
/// the shrunken record map.
proof fn lemma_delete_relink(
    m0: EventMap,
    m2: EventMap,
    idx0: Seq<TickBucket>,
    idx2: Seq<TickBucket>,
    id: Seq<char>,
    old_key: u64,
    by_start: bool,
)
    requires
        linked(m0, idx0, by_start),
        m0.contains_key(id),
        key_field(m0[id], by_start) == old_key,
        m2 == m0.remove(id),
        forall|k2: u64, x: Seq<char>|
            #[trigger] index_contains(idx2, k2, x)
                ==> index_contains(idx0, k2, x) && !(k2 == old_key && x == id),
        forall|k2: u64, x: Seq<char>|
            #[trigger] index_contains(idx0, k2, x) && !(k2 == old_key && x == id)
                ==> index_contains(idx2, k2, x),
    ensures
        linked(m2, idx2, by_start),
{
    assert forall|k: u64, x: Seq<char>| #[trigger] index_contains(idx2, k, x)
        implies m2.contains_key(x) && key_field(m2[x], by_start) == k by {
        assert(index_contains(idx0, k, x) && !(k == old_key && x == id));
        assert(m0.contains_key(x) && key_field(m0[x], by_start) == k);
        if x == id {
            assert(k == old_key);
            assert(false);
        }
    }
    assert forall|x: Seq<char>| #[trigger] m2.contains_key(x)
        implies index_contains(idx2, key_field(m2[x], by_start), x) by {
        assert(x != id);
        assert(m0.contains_key(x));
        assert(index_contains(idx0, key_field(m0[x], by_start), x));
    }
}

} // verus!
