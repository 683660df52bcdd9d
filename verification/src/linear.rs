//! The linear backend: records in an unordered sequence, every operation a
//! full scan. It is the correctness baseline, with the same contract as the
//! indexed backend.

use vstd::prelude::*;
use crate::event::{NoteEvent, NoteEventUpdate};
use crate::model::{
    EventMap, add_all_effect, delete_all_effect, lemma_idx_of, lemma_seq_map_push,
    lemma_seq_map_remove, lemma_seq_map_update, may_match, overlaps, result_has, seq_map,
    str_views, unique_ids, update_all_effect, update_effect_of,
};
use crate::store::NoteEventStore;
use crate::util::{find_event_index, replace_at};

verus! {

/// A store backed by one duplicate-free sequence of records.
pub struct VecNoteEventStore {
    store: Vec<NoteEvent>,
}

impl VecNoteEventStore {
    /// An empty store.
    pub fn new() -> (s: Self)
        ensures
            s.wf(),
            s.events() == EventMap::empty(),
    {
        let s = VecNoteEventStore { store: Vec::new() };
        proof {
            assert(seq_map(s.store@) =~= EventMap::empty());
        }
        s
    }
}

impl NoteEventStore for VecNoteEventStore {
    closed spec fn events(&self) -> EventMap {
        seq_map(self.store@)
    }

    closed spec fn wf(&self) -> bool {
        unique_ids(self.store@)
    }

    fn add_event(&mut self, event: NoteEvent) {
        let ghost s0 = self.store@;
        let ghost ev = event;
        match find_event_index(&self.store, &event.id) {
            Some(i) => {
                replace_at(&mut self.store, i, event);
                proof {
                    lemma_seq_map_update(s0, i as int, ev);
                }
            }
            None => {
                self.store.push(event);
                proof {
                    lemma_seq_map_push(s0, ev);
                }
            }
        }
    }

    fn add_events(&mut self, events: Vec<NoteEvent>) {
        let ghost m0 = self.events();
        let ghost all = events@;
        let mut evs = events;
        proof {
            assert(evs@ =~= all);
        }
        while evs.len() > 0
            invariant
                self.wf(),
                add_all_effect(self.events(), evs@) == add_all_effect(m0, all),
            decreases evs@.len(),
        {
            let ghost prev = evs@;
            let ghost m_prev = self.events();
            let ev = evs.remove(0);
            let ghost evg = ev;
            self.add_event(ev);
            proof {
                assert(prev[0] == evg);
                assert(evs@ =~= prev.drop_first());
                assert(add_all_effect(m_prev, prev)
                    == add_all_effect(m_prev.insert(evg.id@, evg.data()), prev.drop_first()));
            }
        }
        proof {
            assert(add_all_effect(self.events(), evs@) == self.events());
        }
    }

    fn update_event(&mut self, event: NoteEventUpdate) {
        let ghost s0 = self.store@;
        let ghost u = event;
        match find_event_index(&self.store, &event.id) {
            Some(i) => {
                let mut ev = self.store.remove(i);
                if let Some(v) = event.start_ticks {
                    ev.start_ticks = v;
                }
                if let Some(v) = event.end_ticks {
                    ev.end_ticks = v;
                }
                if let Some(v) = event.note_number {
                    ev.note_number = v;
                }
                if let Some(v) = event.velocity {
                    ev.velocity = v;
                }
                let ghost evg = ev;
                self.store.insert(i, ev);
                proof {
                    assert(self.store@ =~= s0.update(i as int, evg));
                    lemma_idx_of(s0, i as int);
                    lemma_seq_map_update(s0, i as int, evg);
                    assert(evg.data() == crate::model::patched(
                        seq_map(s0)[u.id@], u.start_ticks, u.end_ticks, u.note_number, u.velocity,
                    ));
                }
            }
            None => {
                proof {
                    assert(!seq_map(s0).contains_key(u.id@));
                }
            }
        }
    }

    fn update_events(&mut self, events: Vec<NoteEventUpdate>) {
        let ghost m0 = self.events();
        let ghost all = events@;
        let mut us = events;
        proof {
            assert(us@ =~= all);
        }
        while us.len() > 0
            invariant
                self.wf(),
                update_all_effect(self.events(), us@) == update_all_effect(m0, all),
            decreases us@.len(),
        {
            let ghost prev = us@;
            let ghost m_prev = self.events();
            let u = us.remove(0);
            let ghost ug = u;
            self.update_event(u);
            proof {
                assert(prev[0] == ug);
                assert(us@ =~= prev.drop_first());
                assert(update_all_effect(m_prev, prev)
                    == update_all_effect(update_effect_of(m_prev, ug), prev.drop_first()));
            }
        }
    }

    fn delete_event(&mut self, id: &str) {
        let ghost s0 = self.store@;
        let key: String = id.to_owned();
        match find_event_index(&self.store, &key) {
            Some(i) => {
                self.store.remove(i);
                proof {
                    lemma_seq_map_remove(s0, i as int);
                }
            }
            None => {
                proof {
                    assert(seq_map(s0).remove(id@) =~= seq_map(s0));
                }
            }
        }
    }

    fn delete_events(&mut self, ids: Vec<&str>) {
        let ghost m0 = self.events();
        let ghost all = str_views(ids@);
        let mut rest = ids;
        proof {
            assert(str_views(rest@) =~= all);
        }
        while rest.len() > 0
            invariant
                self.wf(),
                delete_all_effect(self.events(), str_views(rest@)) == delete_all_effect(m0, all),
            decreases rest@.len(),
        {
            let ghost prev = rest@;
            let ghost m_prev = self.events();
            let id = rest.remove(0);
            self.delete_event(id);
            proof {
                assert(str_views(prev)[0] == id@);
                assert(str_views(rest@) =~= str_views(prev).drop_first());
                assert(str_views(prev).len() > 0);
                assert(delete_all_effect(m_prev, str_views(prev))
                    == delete_all_effect(m_prev.remove(id@), str_views(prev).drop_first()));
            }
        }
        proof {
            assert(str_views(rest@).len() == 0);
        }
    }

    fn get_event(&self, id: &str) -> (r: Option<&NoteEvent>) {
        let key: String = id.to_owned();
        match find_event_index(&self.store, &key) {
            Some(i) => {
                proof {
                    lemma_idx_of(self.store@, i as int);
                }
                Some(&self.store[i])
            }
            None => None,
        }
    }

    fn get_events_by_range(&self, start_ticks: u64, end_ticks: u64) -> (r: Vec<&NoteEvent>) {
        let mut result: Vec<&NoteEvent> = Vec::new();
        let mut i: usize = 0;
        while i < self.store.len()
            invariant
                i <= self.store@.len(),
                unique_ids(self.store@),
                forall|t: int|
                    #![trigger result@[t]]
                    0 <= t < result@.len() ==> {
                        let j = crate::model::seq_idx_of(self.store@, result@[t].id@);
                        0 <= j < i && *result@[t] == self.store@[j]
                            && overlaps(self.store@[j].data(), start_ticks, end_ticks)
                    },
                forall|t: int, u: int|
                    #![trigger result@[t], result@[u]]
                    0 <= t < u < result@.len() ==> result@[t].id@ != result@[u].id@,
                forall|j: int|
                    0 <= j < i && overlaps(#[trigger] self.store@[j].data(), start_ticks, end_ticks)
                        ==> result_has(result@, self.store@[j].id@),
            decreases self.store@.len() - i,
        {
            let ev = &self.store[i];
            if ev.end_ticks >= start_ticks && ev.start_ticks <= end_ticks {
                let ghost r_old = result@;
                result.push(ev);
                proof {
                    lemma_idx_of(self.store@, i as int);
                    assert(*result@[r_old.len() as int] == self.store@[i as int]);
                    assert forall|t: int, u: int| 0 <= t < u < result@.len()
                        implies result@[t].id@ != result@[u].id@ by {
                        if u == r_old.len() as int {
                            assert(result@[t] == r_old[t]);
                            let j = crate::model::seq_idx_of(self.store@, result@[t].id@);
                            assert(0 <= j < i && *result@[t] == self.store@[j]);
                            if result@[t].id@ == result@[u].id@ {
                                lemma_idx_of(self.store@, j);
                                assert(j == i as int);
                            }
                        } else {
                            assert(r_old[t] == result@[t] && r_old[u] == result@[u]);
                        }
                    }
                    assert forall|j: int|
                        0 <= j < i + 1
                            && overlaps(self.store@[j].data(), start_ticks, end_ticks)
                        implies result_has(result@, self.store@[j].id@) by {
                        if j < i {
                            assert(result_has(r_old, self.store@[j].id@));
                        }
                        crate::model::lemma_result_has_push(r_old, ev, self.store@[j].id@);
                    }
                    assert forall|t: int|
                        #![trigger result@[t]]
                        0 <= t < result@.len() implies {
                            let j = crate::model::seq_idx_of(self.store@, result@[t].id@);
                            0 <= j < i + 1 && *result@[t] == self.store@[j]
                                && overlaps(self.store@[j].data(), start_ticks, end_ticks)
                        } by {
                        if t < r_old.len() {
                            assert(result@[t] == r_old[t]);
                        } else {
                            assert(*result@[t] == self.store@[i as int]);
                        }
                    }
                }
            }
            i += 1;
        }
        proof {
            let m = self.events();
            assert forall|t: int| 0 <= t < result@.len()
                implies m.contains_key(result@[t].id@) && result@[t].data() == m[result@[t].id@]
                    && may_match(result@[t].data(), start_ticks, end_ticks) by {
                let j = crate::model::seq_idx_of(self.store@, result@[t].id@);
                assert(0 <= j < self.store@.len() && *result@[t] == self.store@[j]);
                lemma_idx_of(self.store@, j);
            }
            assert forall|id: Seq<char>|
                m.contains_key(id) && overlaps(m[id], start_ticks, end_ticks)
                implies result_has(result@, id) by {
                let j = crate::model::seq_idx_of(self.store@, id);
                assert(0 <= j < self.store@.len() && self.store@[j].id@ == id);
                lemma_idx_of(self.store@, j);
                assert(overlaps(self.store@[j].data(), start_ticks, end_ticks));
            }
        }
        result
    }
}

} // verus!
