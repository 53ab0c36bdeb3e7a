use fast_clipboard::config::{Config, ConfigFile};
use fast_clipboard::entry::{Entry, EntryKind};
use fast_clipboard::hub::Hub;
use fast_clipboard::jsonfmt::{emit_entries, parse_entries};
use fast_clipboard::query::{default_addr, get_entries_json, ping};
use fast_clipboard::tracker::Tracker;

#[test]
fn tracker_resolves_once_per_change() {
    let mut tracker = Tracker::new();
    let first = tracker.observe(Some(b"hello".to_vec()));
    assert_eq!(first, Some(b"hello".to_vec()));
    for _ in 0..3 {
        assert_eq!(tracker.observe(Some(b"hello".to_vec())), None);
    }
    let second = tracker.observe(Some(b"world".to_vec()));
    assert_eq!(second, Some(b"world".to_vec()));
    assert_eq!(tracker.observe(Some(b"world".to_vec())), None);
}

#[test]
fn tracker_treats_an_unreadable_clipboard_as_no_change() {
    let mut tracker = Tracker::new();
    assert_eq!(tracker.observe(None), None);
    assert_eq!(tracker.observe(Some(b"a".to_vec())), Some(b"a".to_vec()));
    assert_eq!(tracker.observe(None), None);
    // the unreadable snapshot did not clear the last observed one
    assert_eq!(tracker.observe(Some(b"a".to_vec())), None);
}

#[test]
fn tracker_polls_at_the_default_interval() {
    let tracker = Tracker::new();
    assert_eq!(tracker.poll_interval_ms(), 1000);
}

#[test]
fn hub_publish_without_subscribers_is_not_an_error() {
    let hub = Hub::new();
    let delivered = hub.publish(b"x".to_vec());
    assert_eq!(delivered, 0);
    // a subscriber registered afterward does not retroactively receive it
    let mut sub = hub.subscribe();
    assert_eq!(sub.try_next(), None);
    // the next publication reaches it
    let delivered = hub.publish(b"y".to_vec());
    assert_eq!(delivered, 1);
    assert_eq!(sub.try_next(), Some(b"y".to_vec()));
}

#[test]
fn hub_delivers_to_every_current_subscriber() {
    let hub = Hub::new();
    let mut a = hub.subscribe();
    let mut b = hub.subscribe();
    assert_eq!(hub.publish(b"z".to_vec()), 2);
    assert_eq!(a.try_next(), Some(b"z".to_vec()));
    assert_eq!(b.try_next(), Some(b"z".to_vec()));
}

#[test]
fn ping_answers_pong() {
    assert_eq!(ping(), "pong");
}

#[test]
fn default_addr_is_the_local_port() {
    assert_eq!(default_addr(), "127.0.0.1:22766");
}

#[test]
fn get_entries_json_lays_out_the_history() {
    let entries = vec![
        Entry { bytes: vec![1], kind: EntryKind::Text, datetime: vec![] },
        Entry { bytes: vec![200, 3], kind: EntryKind::Image, datetime: b"t".to_vec() },
    ];
    let json = get_entries_json(&entries);
    assert_eq!(
        String::from_utf8(json).unwrap(),
        "[{\"bytes\":[1],\"kind\":\"Text\",\"datetime\":[]},\
         {\"bytes\":[200,3],\"kind\":\"Image\",\"datetime\":[116]}]"
    );
}

#[test]
fn get_entries_json_of_an_empty_history() {
    let json = get_entries_json(&Vec::new());
    assert_eq!(json, b"[]".to_vec());
}

#[test]
fn emitted_image_is_canonical_json() {
    let recs = vec![fast_clipboard::entry::EncryptedEntry {
        ciphertext: vec![0, 255],
        nonce: vec![1, 2, 3, 4, 5, 6, 7, 8, 9, 10, 11, 12],
        kind: EntryKind::Text,
    }];
    let img = emit_entries(&recs);
    assert_eq!(
        String::from_utf8(img).unwrap(),
        "[{\"ciphertext\":[0,255],\"nonce\":[1,2,3,4,5,6,7,8,9,10,11,12],\"kind\":\"Text\"}]"
    );
}

#[test]
fn parsing_an_emitted_image_recovers_the_records() {
    let recs = vec![
        fast_clipboard::entry::EncryptedEntry {
            ciphertext: vec![],
            nonce: vec![0; 12],
            kind: EntryKind::Image,
        },
        fast_clipboard::entry::EncryptedEntry {
            ciphertext: vec![7, 70, 107],
            nonce: vec![255; 12],
            kind: EntryKind::Text,
        },
    ];
    let img = emit_entries(&recs);
    let parsed = parse_entries(&img).unwrap();
    assert_eq!(parsed.len(), recs.len());
    for (p, r) in parsed.iter().zip(recs.iter()) {
        assert_eq!(p.ciphertext, r.ciphertext);
        assert_eq!(p.nonce, r.nonce);
        assert_eq!(p.kind, r.kind);
    }
}

#[test]
fn parser_rejects_what_the_emitter_never_writes() {
    assert!(parse_entries(&b"".to_vec()).is_none());
    assert!(parse_entries(&b"{}".to_vec()).is_none());
    assert!(parse_entries(&b"[".to_vec()).is_none());
    assert!(parse_entries(&b"[]x".to_vec()).is_none());
    assert!(parse_entries(&b"[{\"ciphertext\":[256],\"nonce\":[],\"kind\":\"Text\"}]".to_vec())
        .is_none());
    assert!(parse_entries(&b"[{\"ciphertext\":[],\"nonce\":[],\"kind\":\"Other\"}]".to_vec())
        .is_none());
}

#[test]
fn config_starts_from_defaults() {
    let path = String::from("config.json");
    let file = ConfigFile::new(&path);
    assert_eq!(file.path, path);
    assert_eq!(file.config.clipboard_size, 5);
    assert!(file.config.key_path().is_none());
}

#[test]
fn config_remembers_the_key_path() {
    let mut config = Config::default();
    config.update_key_path(String::from("key.bin"));
    assert_eq!(config.key_path().unwrap().as_str(), "key.bin");
}
