use fast_clipboard::entry::{Entry, EntryKind};
use fast_clipboard::jsonfmt::emit_entries;
use fast_clipboard::store::{ClipboardStorage, ClipboardStorageError};
use fast_clipboard::Key;

const KEY: &Key = b"Thisisakeyof32bytesThisisakeyof3";

fn new_store() -> ClipboardStorage {
    ClipboardStorage::new(Vec::new(), *KEY)
}

#[test]
fn test_store_can_encode_and_decode_entry() {
    let bytes = vec![1, 2, 3, 4];
    let entry = Entry::new(&bytes, EntryKind::Text);
    let encrypted = entry.encode(KEY).unwrap();
    let decoded = encrypted.try_into_entry(KEY).unwrap();
    assert_eq!(entry.content(), decoded.content());
}

#[test]
fn test_store_can_add_entry() {
    let mut clipboard = new_store();
    assert_eq!(clipboard.size(), 0);
    clipboard.add_entry(Entry::new(&vec![], EntryKind::Text)).unwrap();
    assert_eq!(clipboard.size(), 1);
}

#[test]
fn test_store_can_remove_entry_from_clipboard() {
    let mut clipboard = new_store();
    clipboard.add_entry(Entry::new(&vec![], EntryKind::Text)).unwrap();
    assert_eq!(clipboard.size(), 1);
    clipboard.remove_entry(0).unwrap();
    assert_eq!(clipboard.size(), 0);
}

#[test]
fn test_store_doesnt_change_length_over_max() {
    let mut clipboard = new_store();
    clipboard.set_max_entries(1);
    clipboard.add_entry(Entry::new(&vec![1], EntryKind::Text)).unwrap();
    assert_eq!(clipboard.size(), 1);
    clipboard.add_entry(Entry::new(&vec![2], EntryKind::Text)).unwrap();
    assert_eq!(clipboard.size(), 1);
}

#[test]
fn test_store_replaces_oldest_entry() {
    let mut clipboard = new_store();
    clipboard.set_max_entries(1);
    clipboard.add_entry(Entry::new(&vec![1], EntryKind::Text)).unwrap();
    clipboard.add_entry(Entry::new(&vec![2], EntryKind::Text)).unwrap();
    assert_eq!(clipboard.list_entries()[0].content(), vec![2]);
}

#[test]
fn test_store_lastest_entry_is_first() {
    let mut clipboard = new_store();
    clipboard.set_max_entries(2);
    clipboard.add_entry(Entry::new(&vec![1], EntryKind::Text)).unwrap();
    clipboard.add_entry(Entry::new(&vec![2], EntryKind::Text)).unwrap();
    assert_eq!(clipboard.list_entries()[0].content(), vec![2]);
    clipboard.add_entry(Entry::new(&vec![3], EntryKind::Text)).unwrap();
    assert_eq!(clipboard.list_entries()[0].content(), vec![3]);
}

#[test]
fn test_store_load_works() {
    let bytes = vec![1, 2, 3, 4];
    let entry = Entry::new(&bytes, EntryKind::Text);
    let encoded = entry.encode(KEY).unwrap();
    let image = emit_entries(&vec![encoded]);
    let mut clipboard = ClipboardStorage::new(image, *KEY);
    clipboard.load().unwrap();
    assert_eq!(clipboard.size(), 1);
}

#[test]
fn out_of_range_removal_is_refused() {
    let mut clipboard = new_store();
    clipboard.add_entry(Entry::new(&vec![7], EntryKind::Text)).unwrap();
    let r = clipboard.remove_entry(clipboard.size());
    assert!(matches!(r, Err(ClipboardStorageError::InvalidOperation(_))));
    let r = clipboard.remove_entry(100);
    assert!(matches!(r, Err(ClipboardStorageError::InvalidOperation(_))));
    assert_eq!(clipboard.size(), 1);
    assert_eq!(clipboard.list_entries()[0].content(), vec![7]);
}

#[test]
fn persistence_round_trip_preserves_order_and_content() {
    let mut store = new_store();
    store.add_entry(Entry::new(&vec![1], EntryKind::Text)).unwrap();
    store.add_entry(Entry::new(&vec![2, 2], EntryKind::Image)).unwrap();
    store.add_entry(Entry::new(&vec![3, 3, 3], EntryKind::Text)).unwrap();
    store.save().unwrap();
    let mut store2 = ClipboardStorage::new(store.storage_bytes().clone(), *KEY);
    store2.load().unwrap();
    assert_eq!(store2.list_entries(), store.list_entries());
}

#[test]
fn eviction_scenario_keeps_most_recent_two() {
    let mut store = new_store();
    store.set_max_entries(2);
    store.add_entry(Entry::new(&vec![1], EntryKind::Text)).unwrap();
    store.add_entry(Entry::new(&vec![2], EntryKind::Text)).unwrap();
    let contents: Vec<Vec<u8>> =
        store.list_entries().iter().map(|e| e.content().to_vec()).collect();
    assert_eq!(contents, vec![vec![2], vec![1]]);
    store.add_entry(Entry::new(&vec![3], EntryKind::Text)).unwrap();
    let contents: Vec<Vec<u8>> =
        store.list_entries().iter().map(|e| e.content().to_vec()).collect();
    assert_eq!(contents, vec![vec![3], vec![2]]);
}

#[test]
fn duplicate_content_moves_to_front_without_growing() {
    let mut store = new_store();
    store.set_max_entries(2);
    store.add_entry(Entry::new(&vec![1], EntryKind::Text)).unwrap();
    store.add_entry(Entry::new(&vec![2], EntryKind::Text)).unwrap();
    store.add_entry(Entry::new(&vec![1], EntryKind::Text)).unwrap();
    assert_eq!(store.size(), 2);
    let contents: Vec<Vec<u8>> =
        store.list_entries().iter().map(|e| e.content().to_vec()).collect();
    assert_eq!(contents, vec![vec![1], vec![2]]);
}

#[test]
fn duplicate_keeps_stored_kind_and_timestamp() {
    let mut store = new_store();
    let first = Entry::new(&vec![9], EntryKind::Image);
    let stored_stamp = first.datetime.clone();
    store.add_entry(first).unwrap();
    store.add_entry(Entry::new(&vec![8], EntryKind::Text)).unwrap();
    store.add_entry(Entry::new(&vec![9], EntryKind::Text)).unwrap();
    assert_eq!(store.size(), 2);
    assert_eq!(store.list_entries()[0].kind(), EntryKind::Image);
    assert_eq!(store.list_entries()[0].datetime, stored_stamp);
}

#[test]
fn loading_garbage_is_a_serialization_error() {
    let mut store = ClipboardStorage::new(b"not a history file".to_vec(), *KEY);
    let r = store.load();
    assert!(matches!(r, Err(ClipboardStorageError::Serialization(_))));
    assert_eq!(store.size(), 0);
}

#[test]
fn loading_under_the_wrong_key_is_a_serialization_error() {
    let mut store = new_store();
    store.add_entry(Entry::new(&vec![5], EntryKind::Text)).unwrap();
    let other_key: &Key = b"Anotherkeyof32bytesAnotherkeyof3";
    let mut store2 = ClipboardStorage::new(store.storage_bytes().clone(), *other_key);
    let r = store2.load();
    assert!(matches!(r, Err(ClipboardStorageError::Serialization(_))));
}

#[test]
fn loading_an_empty_image_normalizes_it() {
    let mut store = new_store();
    store.load().unwrap();
    assert_eq!(store.size(), 0);
    assert_eq!(store.storage_bytes(), b"[]");
    store.load().unwrap();
    assert_eq!(store.storage_bytes(), b"[]");
}

#[test]
fn get_entry_wraps_past_the_end() {
    let mut store = new_store();
    store.add_entry(Entry::new(&vec![1], EntryKind::Text)).unwrap();
    store.add_entry(Entry::new(&vec![2], EntryKind::Text)).unwrap();
    assert_eq!(store.get_entry(0).content(), store.get_entry(4).content());
    assert_eq!(store.get_entry(1).content(), store.get_entry(5).content());
    assert_eq!(store.get_entry(3).content(), vec![1]);
}

#[test]
fn set_max_entries_drops_the_oldest() {
    let mut store = new_store();
    store.add_entry(Entry::new(&vec![1], EntryKind::Text)).unwrap();
    store.add_entry(Entry::new(&vec![2], EntryKind::Text)).unwrap();
    store.add_entry(Entry::new(&vec![3], EntryKind::Text)).unwrap();
    store.set_max_entries(1);
    assert_eq!(store.size(), 1);
    assert_eq!(store.list_entries()[0].content(), vec![3]);
}
