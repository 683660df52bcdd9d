//! Verified usage scenarios, generic over the backend: each drives a fresh
//! store through the contract and proves the observed results instead of
//! checking them at run time. Runnable tests instantiate each scenario with
//! both backends.

use vstd::prelude::*;
use crate::event::{NoteEvent, NoteEventUpdate};
use crate::model::{
    EventMap, add_all_effect, delete_all_effect, str_views, update_all_effect,
};
use crate::store::NoteEventStore;

verus! {

/// Adding one record makes it visible to a point lookup with every field
/// intact.
pub fn add_event<S: NoteEventStore>(store: &mut S)
    requires
        old(store).wf(),
        old(store).events() == EventMap::empty(),
    ensures
        final(store).wf(),
{
    store.add_event(NoteEvent {
        id: "0".to_owned(),
        start_ticks: 0,
        end_ticks: 10,
        note_number: 60,
        velocity: 100,
    });
    let event = store.get_event("0").unwrap();
    assert(event.id@ == "0"@);
    assert(event.start_ticks == 0);
    assert(event.end_ticks == 10);
    assert(event.note_number == 60);
    assert(event.velocity == 100);
}

/// Adding a batch makes every element visible with its own fields.
pub fn add_events<S: NoteEventStore>(store: &mut S)
    requires
        old(store).wf(),
        old(store).events() == EventMap::empty(),
    ensures
        final(store).wf(),
{
    let ghost m0 = store.events();
    let ev0 = NoteEvent {
        id: "0".to_owned(),
        start_ticks: 0,
        end_ticks: 10,
        note_number: 60,
        velocity: 100,
    };
    let ev1 = NoteEvent {
        id: "1".to_owned(),
        start_ticks: 10,
        end_ticks: 20,
        note_number: 70,
        velocity: 90,
    };
    let ghost e0 = ev0;
    let ghost e1 = ev1;
    let mut evs: Vec<NoteEvent> = Vec::new();
    evs.push(ev0);
    evs.push(ev1);
    let ghost all = evs@;
    store.add_events(evs);
    proof {
        reveal_strlit("0");
        reveal_strlit("1");
        assert("0"@[0] == '0' && "1"@[0] == '1');
        assert("0"@ != "1"@);
        assert(all[0] == e0 && all[1] == e1 && all.len() == 2);
        assert(all.drop_first() =~= seq![e1]);
        let m1 = m0.insert(e0.id@, e0.data());
        assert(add_all_effect(m0, all) == add_all_effect(m1, all.drop_first()));
        assert(add_all_effect(m1, seq![e1])
            == add_all_effect(m1.insert(e1.id@, e1.data()), seq![e1].drop_first()));
        assert(seq![e1].drop_first() =~= Seq::<NoteEvent>::empty());
        assert(add_all_effect(m1.insert(e1.id@, e1.data()), Seq::<NoteEvent>::empty())
            == m1.insert(e1.id@, e1.data()));
        assert(store.events() == m1.insert(e1.id@, e1.data()));
    }
    let event_0 = store.get_event("0").unwrap();
    let event_1 = store.get_event("1").unwrap();
    assert(event_0.id@ == "0"@);
    assert(event_0.start_ticks == 0);
    assert(event_0.end_ticks == 10);
    assert(event_0.note_number == 60);
    assert(event_0.velocity == 100);
    assert(event_1.id@ == "1"@);
    assert(event_1.start_ticks == 10);
    assert(event_1.end_ticks == 20);
    assert(event_1.note_number == 70);
    assert(event_1.velocity == 90);
}

/// A patch carrying every field overwrites every field.
pub fn update_event_all_fields<S: NoteEventStore>(store: &mut S)
    requires
        old(store).wf(),
        old(store).events() == EventMap::empty(),
    ensures
        final(store).wf(),
{
    store.add_event(NoteEvent {
        id: "0".to_owned(),
        start_ticks: 0,
        end_ticks: 10,
        note_number: 60,
        velocity: 100,
    });
    store.update_event(NoteEventUpdate {
        id: "0".to_owned(),
        start_ticks: Some(5),
        end_ticks: Some(15),
        note_number: Some(70),
        velocity: Some(90),
    });
    let event = store.get_event("0").unwrap();
    assert(event.id@ == "0"@);
    assert(event.start_ticks == 5);
    assert(event.end_ticks == 15);
    assert(event.note_number == 70);
    assert(event.velocity == 90);
}

/// A patch carrying a subset of fields changes exactly those fields.
pub fn update_event_partial<S: NoteEventStore>(store: &mut S)
    requires
        old(store).wf(),
        old(store).events() == EventMap::empty(),
    ensures
        final(store).wf(),
{
    store.add_event(NoteEvent {
        id: "0".to_owned(),
        start_ticks: 0,
        end_ticks: 10,
        note_number: 60,
        velocity: 100,
    });
    store.update_event(NoteEventUpdate {
        id: "0".to_owned(),
        start_ticks: Some(5),
        end_ticks: None,
        note_number: None,
        velocity: Some(90),
    });
    let event = store.get_event("0").unwrap();
    assert(event.id@ == "0"@);
    assert(event.start_ticks == 5);
    assert(event.end_ticks == 10);
    assert(event.note_number == 60);
    assert(event.velocity == 90);
}

/// A patch carrying no field at all succeeds and changes nothing.
pub fn update_event_all_none<S: NoteEventStore>(store: &mut S)
    requires
        old(store).wf(),
        old(store).events() == EventMap::empty(),
    ensures
        final(store).wf(),
{
    store.add_event(NoteEvent {
        id: "0".to_owned(),
        start_ticks: 0,
        end_ticks: 10,
        note_number: 60,
        velocity: 100,
    });
    store.update_event(NoteEventUpdate {
        id: "0".to_owned(),
        start_ticks: None,
        end_ticks: None,
        note_number: None,
        velocity: None,
    });
    let event = store.get_event("0").unwrap();
    assert(event.id@ == "0"@);
    assert(event.start_ticks == 0);
    assert(event.end_ticks == 10);
    assert(event.note_number == 60);
    assert(event.velocity == 100);
}

/// A patch naming an absent id is a silent no-op: the id stays absent.
pub fn update_event_not_found<S: NoteEventStore>(store: &mut S)
    requires
        old(store).wf(),
        old(store).events() == EventMap::empty(),
    ensures
        final(store).wf(),
{
    store.update_event(NoteEventUpdate {
        id: "0".to_owned(),
        start_ticks: Some(5),
        end_ticks: Some(15),
        note_number: Some(70),
        velocity: Some(90),
    });
    let r = store.get_event("0");
    assert(r is None);
}

/// A batch of patches applies in order, each to its own record.
pub fn update_events<S: NoteEventStore>(store: &mut S)
    requires
        old(store).wf(),
        old(store).events() == EventMap::empty(),
    ensures
        final(store).wf(),
{
    store.add_event(NoteEvent {
        id: "0".to_owned(),
        start_ticks: 0,
        end_ticks: 10,
        note_number: 60,
        velocity: 100,
    });
    store.add_event(NoteEvent {
        id: "1".to_owned(),
        start_ticks: 10,
        end_ticks: 20,
        note_number: 70,
        velocity: 90,
    });
    let ghost m0 = store.events();
    let u0 = NoteEventUpdate {
        id: "0".to_owned(),
        start_ticks: Some(5),
        end_ticks: Some(15),
        note_number: Some(70),
        velocity: Some(90),
    };
    let u1 = NoteEventUpdate {
        id: "1".to_owned(),
        start_ticks: Some(15),
        end_ticks: Some(25),
        note_number: Some(80),
        velocity: Some(80),
    };
    let ghost u0g = u0;
    let ghost u1g = u1;
    let mut us: Vec<NoteEventUpdate> = Vec::new();
    us.push(u0);
    us.push(u1);
    let ghost all = us@;
    store.update_events(us);
    proof {
        reveal_strlit("0");
        reveal_strlit("1");
        assert("0"@[0] == '0' && "1"@[0] == '1');
        assert("0"@ != "1"@);
        assert(all[0] == u0g && all[1] == u1g && all.len() == 2);
        assert(all.drop_first() =~= seq![u1g]);
        let ue1 = crate::model::update_effect_of(m0, u0g);
        assert(update_all_effect(m0, all) == update_all_effect(ue1, all.drop_first()));
        let ue2 = crate::model::update_effect_of(ue1, u1g);
        assert(update_all_effect(ue1, seq![u1g]) == update_all_effect(ue2, seq![u1g].drop_first()));
        assert(seq![u1g].drop_first() =~= Seq::<NoteEventUpdate>::empty());
        assert(update_all_effect(ue2, Seq::<NoteEventUpdate>::empty()) == ue2);
        assert(store.events() == ue2);
    }
    let event_0 = store.get_event("0").unwrap();
    let event_1 = store.get_event("1").unwrap();
    assert(event_0.id@ == "0"@);
    assert(event_0.start_ticks == 5);
    assert(event_0.end_ticks == 15);
    assert(event_0.note_number == 70);
    assert(event_0.velocity == 90);
    assert(event_1.id@ == "1"@);
    assert(event_1.start_ticks == 15);
    assert(event_1.end_ticks == 25);
    assert(event_1.note_number == 80);
    assert(event_1.velocity == 80);
}

/// Deleting a stored id removes it from lookups.
pub fn delete_event<S: NoteEventStore>(store: &mut S)
    requires
        old(store).wf(),
        old(store).events() == EventMap::empty(),
    ensures
        final(store).wf(),
{
    store.add_event(NoteEvent {
        id: "0".to_owned(),
        start_ticks: 0,
        end_ticks: 10,
        note_number: 60,
        velocity: 100,
    });
    store.delete_event("0");
    let r = store.get_event("0");
    assert(r is None);
}

/// Deleting an absent id neither fails nor makes it present.
pub fn delete_event_not_found<S: NoteEventStore>(store: &mut S)
    requires
        old(store).wf(),
        old(store).events() == EventMap::empty(),
    ensures
        final(store).wf(),
{
    store.delete_event("0");
    let r = store.get_event("0");
    assert(r is None);
}

/// Deleting a batch of ids removes each of them.
pub fn delete_events<S: NoteEventStore>(store: &mut S)
    requires
        old(store).wf(),
        old(store).events() == EventMap::empty(),
    ensures
        final(store).wf(),
{
    store.add_event(NoteEvent {
        id: "0".to_owned(),
        start_ticks: 0,
        end_ticks: 10,
        note_number: 60,
        velocity: 100,
    });
    store.add_event(NoteEvent {
        id: "1".to_owned(),
        start_ticks: 10,
        end_ticks: 20,
        note_number: 70,
        velocity: 90,
    });
    let ghost m0 = store.events();
    let mut ids: Vec<&str> = Vec::new();
    ids.push("0");
    ids.push("1");
    let ghost all = str_views(ids@);
    store.delete_events(ids);
    proof {
        assert(all.len() == 2 && all[0] == "0"@ && all[1] == "1"@);
        assert(all.drop_first() =~= seq!["1"@]);
        let d1 = m0.remove("0"@);
        assert(delete_all_effect(m0, all) == delete_all_effect(d1, all.drop_first()));
        assert(delete_all_effect(d1, seq!["1"@])
            == delete_all_effect(d1.remove("1"@), seq!["1"@].drop_first()));
        assert(seq!["1"@].drop_first() =~= Seq::<Seq<char>>::empty());
        assert(delete_all_effect(d1.remove("1"@), Seq::<Seq<char>>::empty())
            == d1.remove("1"@));
        assert(store.events() == m0.remove("0"@).remove("1"@));
    }
    let r0 = store.get_event("0");
    let r1 = store.get_event("1");
    assert(r0 is None);
    assert(r1 is None);
}

/// A stored record is returned by a point lookup with every field intact.
pub fn get_event<S: NoteEventStore>(store: &mut S)
    requires
        old(store).wf(),
        old(store).events() == EventMap::empty(),
    ensures
        final(store).wf(),
{
    store.add_event(NoteEvent {
        id: "0".to_owned(),
        start_ticks: 0,
        end_ticks: 10,
        note_number: 60,
        velocity: 100,
    });
    let event = store.get_event("0").unwrap();
    assert(event.id@ == "0"@);
    assert(event.start_ticks == 0);
    assert(event.end_ticks == 10);
    assert(event.note_number == 60);
    assert(event.velocity == 100);
}

/// Six stored intervals, query `[5, 10]`, and exactly the ids "1", "2",
/// "4" and "5" come back, each once.
pub fn get_events_by_range<S: NoteEventStore>(store: &mut S)
    requires
        old(store).wf(),
        old(store).events() == EventMap::empty(),
    ensures
        final(store).wf(),
{
    store.add_event(NoteEvent {
        id: "0".to_owned(),
        start_ticks: 0,
        end_ticks: 4,
        note_number: 60,
        velocity: 100,
    });
    store.add_event(NoteEvent {
        id: "1".to_owned(),
        start_ticks: 0,
        end_ticks: 5,
        note_number: 60,
        velocity: 100,
    });
    store.add_event(NoteEvent {
        id: "2".to_owned(),
        start_ticks: 10,
        end_ticks: 15,
        note_number: 60,
        velocity: 100,
    });
    store.add_event(NoteEvent {
        id: "3".to_owned(),
        start_ticks: 11,
        end_ticks: 15,
        note_number: 60,
        velocity: 100,
    });
    store.add_event(NoteEvent {
        id: "4".to_owned(),
        start_ticks: 0,
        end_ticks: 15,
        note_number: 60,
        velocity: 100,
    });
    store.add_event(NoteEvent {
        id: "5".to_owned(),
        start_ticks: 7,
        end_ticks: 8,
        note_number: 60,
        velocity: 100,
    });
    let ghost m = store.events();
    let events = store.get_events_by_range(5, 10);
    proof {
        reveal_strlit("0");
        reveal_strlit("1");
        reveal_strlit("2");
        reveal_strlit("3");
        reveal_strlit("4");
        reveal_strlit("5");
        assert("0"@[0] == '0' && "1"@[0] == '1' && "2"@[0] == '2' && "3"@[0] == '3'
            && "4"@[0] == '4' && "5"@[0] == '5');
        assert forall|id: Seq<char>| #[trigger] m.contains_key(id)
            implies m[id].start_ticks <= m[id].end_ticks by {
            assert(id == "0"@ || id == "1"@ || id == "2"@ || id == "3"@ || id == "4"@
                || id == "5"@);
        }
        crate::laws::lemma_range_result_exact(m, 5, 10, events@);
        assert(crate::model::range_ids(m, 5, 10).contains("1"@));
        assert(crate::model::range_ids(m, 5, 10).contains("2"@));
        assert(crate::model::range_ids(m, 5, 10).contains("4"@));
        assert(crate::model::range_ids(m, 5, 10).contains("5"@));
        assert(!crate::model::range_ids(m, 5, 10).contains("0"@));
        assert(!crate::model::range_ids(m, 5, 10).contains("3"@));
        assert(crate::model::result_has(events@, "1"@));
        assert(crate::model::result_has(events@, "2"@));
        assert(crate::model::result_has(events@, "4"@));
        assert(crate::model::result_has(events@, "5"@));
        assert(!crate::model::result_has(events@, "0"@));
        assert(!crate::model::result_has(events@, "3"@));
        // every returned id is one of the four expected ones
        assert forall|t: int| 0 <= t < events@.len() implies events@[t].id@ == "1"@
            || events@[t].id@ == "2"@ || events@[t].id@ == "4"@ || events@[t].id@ == "5"@ by {
            assert(crate::model::result_has(events@, events@[t].id@));
            assert(crate::model::range_ids(m, 5, 10).contains(events@[t].id@));
            assert(m.contains_key(events@[t].id@));
        }
        // the four expected ids give four distinct positions
        let t1 = choose|t: int| 0 <= t < events@.len() && events@[t].id@ == "1"@;
        let t2 = choose|t: int| 0 <= t < events@.len() && events@[t].id@ == "2"@;
        let t4 = choose|t: int| 0 <= t < events@.len() && events@[t].id@ == "4"@;
        let t5 = choose|t: int| 0 <= t < events@.len() && events@[t].id@ == "5"@;
        assert(t1 != t2 && t1 != t4 && t1 != t5 && t2 != t4 && t2 != t5 && t4 != t5);
        assert(events@.len() >= 4);
        // and no position carries a fifth id, so there are exactly four
        if events@.len() >= 5 {
            let x0 = events@[0].id@;
            let x1 = events@[1].id@;
            let x2 = events@[2].id@;
            let x3 = events@[3].id@;
            let x4 = events@[4].id@;
            assert(x0 != x1 && x0 != x2 && x0 != x3 && x0 != x4 && x1 != x2 && x1 != x3
                && x1 != x4 && x2 != x3 && x2 != x4 && x3 != x4);
            assert(false);
        }
        assert(events@.len() == 4);
    }
}

} // verus!
