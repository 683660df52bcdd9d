use note_event_store::scenarios;
use note_event_store::BTreeNoteEventStore;
use note_event_store::VecNoteEventStore;

#[test]
fn btree_test_add_event() {
    let mut store = BTreeNoteEventStore::new();
    scenarios::add_event(&mut store);
}

#[test]
fn btree_test_add_events() {
    let mut store = BTreeNoteEventStore::new();
    scenarios::add_events(&mut store);
}

#[test]
fn btree_test_update_event_all_fields() {
    let mut store = BTreeNoteEventStore::new();
    scenarios::update_event_all_fields(&mut store);
}

#[test]
fn btree_test_update_event_partial() {
    let mut store = BTreeNoteEventStore::new();
    scenarios::update_event_partial(&mut store);
}

#[test]
fn btree_test_update_event_all_none() {
    let mut store = BTreeNoteEventStore::new();
    scenarios::update_event_all_none(&mut store);
}

#[test]
fn btree_test_update_event_not_found() {
    let mut store = BTreeNoteEventStore::new();
    scenarios::update_event_not_found(&mut store);
}

#[test]
fn btree_test_update_events() {
    let mut store = BTreeNoteEventStore::new();
    scenarios::update_events(&mut store);
}

#[test]
fn btree_test_delete_event() {
    let mut store = BTreeNoteEventStore::new();
    scenarios::delete_event(&mut store);
}

#[test]
fn btree_test_delete_event_not_found() {
    let mut store = BTreeNoteEventStore::new();
    scenarios::delete_event_not_found(&mut store);
}

#[test]
fn btree_test_delete_events() {
    let mut store = BTreeNoteEventStore::new();
    scenarios::delete_events(&mut store);
}

#[test]
fn btree_test_get_event() {
    let mut store = BTreeNoteEventStore::new();
    scenarios::get_event(&mut store);
}

#[test]
fn btree_test_get_events_by_range() {
    let mut store = BTreeNoteEventStore::new();
    scenarios::get_events_by_range(&mut store);
}

#[test]
fn vec_test_add_event() {
    let mut store = VecNoteEventStore::new();
    scenarios::add_event(&mut store);
}

#[test]
fn vec_test_add_events() {
    let mut store = VecNoteEventStore::new();
    scenarios::add_events(&mut store);
}

#[test]
fn vec_test_update_event_all_fields() {
    let mut store = VecNoteEventStore::new();
    scenarios::update_event_all_fields(&mut store);
}

#[test]
fn vec_test_update_event_partial() {
    let mut store = VecNoteEventStore::new();
    scenarios::update_event_partial(&mut store);
}

#[test]
fn vec_test_update_event_all_none() {
    let mut store = VecNoteEventStore::new();
    scenarios::update_event_all_none(&mut store);
}

#[test]
fn vec_test_update_event_not_found() {
    let mut store = VecNoteEventStore::new();
    scenarios::update_event_not_found(&mut store);
}

#[test]
fn vec_test_update_events() {
    let mut store = VecNoteEventStore::new();
    scenarios::update_events(&mut store);
}

#[test]
fn vec_test_delete_event() {
    let mut store = VecNoteEventStore::new();
    scenarios::delete_event(&mut store);
}

#[test]
fn vec_test_delete_event_not_found() {
    let mut store = VecNoteEventStore::new();
    scenarios::delete_event_not_found(&mut store);
}

#[test]
fn vec_test_delete_events() {
    let mut store = VecNoteEventStore::new();
    scenarios::delete_events(&mut store);
}

#[test]
fn vec_test_get_event() {
    let mut store = VecNoteEventStore::new();
    scenarios::get_event(&mut store);
}

#[test]
fn vec_test_get_events_by_range() {
    let mut store = VecNoteEventStore::new();
    scenarios::get_events_by_range(&mut store);
}
