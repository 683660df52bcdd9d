use note_event_store::NoteEvent;
use note_event_store::NoteEventStore;
use note_event_store::NoteEventUpdate;
use note_event_store::BTreeNoteEventStore;
use note_event_store::VecNoteEventStore;

fn ev(id: &str, start: u64, end: u64, note: u8, vel: u8) -> NoteEvent {
    NoteEvent {
        id: id.to_string(),
        start_ticks: start,
        end_ticks: end,
        note_number: note,
        velocity: vel,
    }
}

fn patch(
    id: &str,
    start: Option<u64>,
    end: Option<u64>,
    note: Option<u8>,
    vel: Option<u8>,
) -> NoteEventUpdate {
    NoteEventUpdate {
        id: id.to_string(),
        start_ticks: start,
        end_ticks: end,
        note_number: note,
        velocity: vel,
    }
}

fn sorted_range_ids(store: &impl NoteEventStore, s: u64, e: u64) -> Vec<String> {
    let mut ids: Vec<String> = store
        .get_events_by_range(s, e)
        .iter()
        .map(|r| r.id.clone())
        .collect();
    ids.sort();
    ids
}

fn snapshot(store: &impl NoteEventStore, ids: &[&str]) -> Vec<Option<(u64, u64, u8, u8)>> {
    ids.iter()
        .map(|id| {
            store
                .get_event(id)
                .map(|r| (r.start_ticks, r.end_ticks, r.note_number, r.velocity))
        })
        .collect()
}

/// Both backends, driven by one operation sequence, agree on every point
/// lookup and on every range query (as an id set) after each step.
#[test]
fn test_backend_equivalence() {
    let mut a = VecNoteEventStore::new();
    let mut b = BTreeNoteEventStore::new();
    let all_ids = ["0", "1", "2", "3", "9"];
    let windows = [(0u64, 0u64), (0, 100), (5, 10), (12, 30), (31, 31)];
    let check = |a: &VecNoteEventStore, b: &BTreeNoteEventStore| {
        assert_eq!(snapshot(a, &all_ids), snapshot(b, &all_ids));
        for (s, e) in windows {
            assert_eq!(sorted_range_ids(a, s, e), sorted_range_ids(b, s, e));
        }
    };
    check(&a, &b);
    for e in [ev("0", 0, 4, 60, 100), ev("1", 5, 12, 61, 99), ev("2", 12, 30, 62, 98)] {
        a.add_event(e.clone());
        b.add_event(e);
        check(&a, &b);
    }
    for p in [
        patch("0", Some(2), None, None, Some(50)),
        patch("1", None, Some(6), Some(70), None),
        patch("3", Some(1), Some(2), Some(3), Some(4)),
    ] {
        let q = patch(&p.id, p.start_ticks, p.end_ticks, p.note_number, p.velocity);
        a.update_event(q);
        b.update_event(p);
        check(&a, &b);
    }
    for id in ["1", "1", "missing"] {
        a.delete_event(id);
        b.delete_event(id);
        check(&a, &b);
    }
}

/// Round trip: an added record comes back equal in every field.
#[test]
fn test_round_trip() {
    let mut a = VecNoteEventStore::new();
    let mut b = BTreeNoteEventStore::new();
    a.add_event(ev("note-a", 3, 9, 64, 127));
    b.add_event(ev("note-a", 3, 9, 64, 127));
    for r in [a.get_event("note-a").unwrap(), b.get_event("note-a").unwrap()] {
        assert_eq!(r.id, "note-a");
        assert_eq!(r.start_ticks, 3);
        assert_eq!(r.end_ticks, 9);
        assert_eq!(r.note_number, 64);
        assert_eq!(r.velocity, 127);
    }
}

/// A partial patch changes exactly the carried fields.
#[test]
fn test_partial_update_fields() {
    let mut store = BTreeNoteEventStore::new();
    store.add_event(ev("0", 0, 10, 60, 100));
    store.update_event(patch("0", Some(5), None, None, Some(90)));
    let r = store.get_event("0").unwrap();
    assert_eq!(
        (r.start_ticks, r.end_ticks, r.note_number, r.velocity),
        (5, 10, 60, 90)
    );
}

/// Updating an unknown id leaves the observable state unchanged.
#[test]
fn test_update_missing_is_noop() {
    let mut store = BTreeNoteEventStore::new();
    store.add_event(ev("0", 0, 10, 60, 100));
    let before = (snapshot(&store, &["0", "nope"]), sorted_range_ids(&store, 0, 20));
    store.update_event(patch("nope", Some(1), Some(2), Some(3), Some(4)));
    let after = (snapshot(&store, &["0", "nope"]), sorted_range_ids(&store, 0, 20));
    assert_eq!(before, after);
}

/// Deleting twice, or deleting an unknown id, never errors and leaves the
/// id absent.
#[test]
fn test_delete_idempotent() {
    let mut store = BTreeNoteEventStore::new();
    store.add_event(ev("0", 0, 10, 60, 100));
    store.delete_event("0");
    assert!(store.get_event("0").is_none());
    store.delete_event("0");
    assert!(store.get_event("0").is_none());
    store.delete_event("never-there");
    assert!(store.get_event("never-there").is_none());
    assert_eq!(sorted_range_ids(&store, 0, u64::MAX), Vec::<String>::new());
}

/// Overlap correctness checked against a brute-force filter over several
/// query windows, on both backends.
#[test]
fn test_overlap_matches_brute_force() {
    let records = [
        ("a", 0u64, 4u64),
        ("b", 0, 5),
        ("c", 10, 15),
        ("d", 11, 15),
        ("e", 0, 15),
        ("f", 7, 8),
        ("g", 5, 5),
        ("h", 16, 20),
    ];
    let mut a = VecNoteEventStore::new();
    let mut b = BTreeNoteEventStore::new();
    for (id, s, e) in records {
        a.add_event(ev(id, s, e, 60, 100));
        b.add_event(ev(id, s, e, 60, 100));
    }
    for (s, e) in [(5u64, 10u64), (0, 0), (15, 16), (0, 100), (6, 6)] {
        let mut expected: Vec<String> = records
            .iter()
            .filter(|(_, rs, re)| *rs <= e && *re >= s)
            .map(|(id, _, _)| id.to_string())
            .collect();
        expected.sort();
        assert_eq!(sorted_range_ids(&a, s, e), expected);
        assert_eq!(sorted_range_ids(&b, s, e), expected);
    }
}

/// The six-interval window scenario, checked once more on both backends
/// with the exact expected id set.
#[test]
fn test_reference_window() {
    let mut a = VecNoteEventStore::new();
    let mut b = BTreeNoteEventStore::new();
    for (id, s, e) in [("0", 0u64, 4u64), ("1", 0, 5), ("2", 10, 15), ("3", 11, 15), ("4", 0, 15), ("5", 7, 8)] {
        a.add_event(ev(id, s, e, 60, 100));
        b.add_event(ev(id, s, e, 60, 100));
    }
    let expected = vec!["1".to_string(), "2".to_string(), "4".to_string(), "5".to_string()];
    assert_eq!(sorted_range_ids(&a, 5, 10), expected);
    assert_eq!(sorted_range_ids(&b, 5, 10), expected);
}

/// Several records may share one start tick and one end tick: the shared
/// index buckets fill, shrink and vanish without disturbing the others.
#[test]
fn test_equal_tick_keys() {
    let mut store = BTreeNoteEventStore::new();
    store.add_event(ev("x", 5, 9, 1, 2));
    store.add_event(ev("y", 5, 9, 3, 4));
    store.add_event(ev("z", 5, 20, 5, 6));
    assert_eq!(sorted_range_ids(&store, 5, 5), vec!["x", "y", "z"]);
    store.delete_event("y");
    assert_eq!(sorted_range_ids(&store, 5, 5), vec!["x", "z"]);
    store.update_event(patch("x", Some(6), Some(21), None, None));
    assert_eq!(sorted_range_ids(&store, 0, 5), vec!["z"]);
    assert_eq!(sorted_range_ids(&store, 21, 30), vec!["x"]);
}

/// Tick values at the ends of the integer range are handled exactly.
#[test]
fn test_extreme_ticks() {
    let mut store = BTreeNoteEventStore::new();
    store.add_event(ev("low", 0, 0, 0, 0));
    store.add_event(ev("high", u64::MAX, u64::MAX, 127, 127));
    store.add_event(ev("wide", 0, u64::MAX, 1, 1));
    assert_eq!(sorted_range_ids(&store, 0, 0), vec!["low", "wide"]);
    assert_eq!(sorted_range_ids(&store, u64::MAX, u64::MAX), vec!["high", "wide"]);
    assert_eq!(sorted_range_ids(&store, 1, u64::MAX - 1), vec!["wide"]);
}

/// Adding under an existing id overwrites the stored record in both
/// backends (the documented duplicate-id policy).
#[test]
fn test_add_overwrites_same_id() {
    let mut a = VecNoteEventStore::new();
    let mut b = BTreeNoteEventStore::new();
    a.add_event(ev("0", 0, 10, 60, 100));
    a.add_event(ev("0", 7, 8, 9, 10));
    b.add_event(ev("0", 0, 10, 60, 100));
    b.add_event(ev("0", 7, 8, 9, 10));
    for r in [a.get_event("0").unwrap(), b.get_event("0").unwrap()] {
        assert_eq!(
            (r.start_ticks, r.end_ticks, r.note_number, r.velocity),
            (7, 8, 9, 10)
        );
    }
    assert_eq!(a.get_events_by_range(0, u64::MAX).len(), 1);
    assert_eq!(b.get_events_by_range(0, u64::MAX).len(), 1);
}

/// A range query on an empty store returns nothing.
#[test]
fn test_empty_store_query() {
    let store = BTreeNoteEventStore::new();
    assert!(store.get_events_by_range(0, u64::MAX).is_empty());
    let store2 = VecNoteEventStore::new();
    assert!(store2.get_events_by_range(0, u64::MAX).is_empty());
}
