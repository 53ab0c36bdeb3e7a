use fast_clipboard::entry::{Entry, EntryError, EntryKind};
use fast_clipboard::Key;

const KEY: &Key = b"Thisisakeyof32bytesThisisakeyof3";

#[test]
fn can_encode_and_decode_entry() {
    let bytes = vec![1, 2, 3, 4];
    let entry = Entry::new(&bytes, EntryKind::Text);
    let encrypted = entry.encode(KEY).unwrap();
    let decoded = encrypted.try_into_entry(KEY).unwrap();
    assert_eq!(entry.content(), decoded.content());
    assert_eq!(entry.kind(), decoded.kind());
}

#[test]
fn round_trip_preserves_the_whole_entry() {
    let entry = Entry::new(&vec![0, 255, 17], EntryKind::Image);
    let decoded = entry.encode(KEY).unwrap().try_into_entry(KEY).unwrap();
    assert_eq!(decoded, entry);
}

#[test]
fn two_encodings_of_one_entry_differ() {
    let entry = Entry::new(&vec![42; 16], EntryKind::Text);
    let first = entry.encode(KEY).unwrap();
    let second = entry.encode(KEY).unwrap();
    assert!(first.nonce != second.nonce || first.ciphertext != second.ciphertext);
}

#[test]
fn ciphertext_is_not_the_plaintext() {
    let entry = Entry::new(&vec![1, 2, 3, 4, 5], EntryKind::Text);
    let encrypted = entry.encode(KEY).unwrap();
    assert_eq!(encrypted.nonce.len(), 12);
    // framed plaintext: 8 length bytes, the timestamp, the content; the
    // cipher appends a 16-byte tag
    assert_eq!(encrypted.ciphertext.len(), 8 + entry.datetime.len() + entry.content().len() + 16);
    assert_ne!(encrypted.ciphertext, entry.content().to_vec());
}

#[test]
fn decoding_under_the_wrong_key_fails() {
    let other_key: &Key = b"Anotherkeyof32bytesAnotherkeyof3";
    let entry = Entry::new(&vec![1, 2, 3], EntryKind::Text);
    let encrypted = entry.encode(KEY).unwrap();
    let r = encrypted.try_into_entry(other_key);
    assert!(matches!(r, Err(EntryError::Decode(_))));
}

#[test]
fn decoding_tampered_ciphertext_fails() {
    let entry = Entry::new(&vec![1, 2, 3], EntryKind::Text);
    let mut encrypted = entry.encode(KEY).unwrap();
    encrypted.ciphertext[0] ^= 1;
    let r = encrypted.try_into_entry(KEY);
    assert!(matches!(r, Err(EntryError::Decode(_))));
}

#[test]
fn decoding_truncated_ciphertext_fails() {
    let entry = Entry::new(&vec![1, 2, 3], EntryKind::Text);
    let mut encrypted = entry.encode(KEY).unwrap();
    encrypted.ciphertext.truncate(4);
    let r = encrypted.try_into_entry(KEY);
    assert!(matches!(r, Err(EntryError::Decode(_))));
}

#[test]
fn decoding_with_a_short_nonce_fails() {
    let entry = Entry::new(&vec![1, 2, 3], EntryKind::Text);
    let mut encrypted = entry.encode(KEY).unwrap();
    encrypted.nonce.truncate(11);
    let r = encrypted.try_into_entry(KEY);
    assert!(matches!(r, Err(EntryError::Decode(_))));
}

#[test]
fn entry_timestamp_is_printable_ascii() {
    let entry = Entry::new(&vec![], EntryKind::Text);
    assert!(!entry.datetime.is_empty());
    assert!(entry.datetime.iter().all(|b| (32..127).contains(b)));
}
