//! Snapshots and fingerprints of retained messages.

use mqtt_hub::message::WireAppProps;
use mqtt_hub::retained::RETAINED_CHUNK_BYTES;
use mqtt_hub::snapshot::{app_bytes, chunk_retained, entry_bytes, retained_digest, retained_value};
use mqtt_hub::wire::RetainedWireEntry;

fn no_props() -> WireAppProps {
    WireAppProps {
        payload_format: None,
        content_type: None,
        response_topic: None,
        correlation_data: None,
        user_properties: Vec::new(),
    }
}

fn entry(topic: &str, payload: Vec<u8>) -> RetainedWireEntry {
    RetainedWireEntry {
        topic: topic.to_string(),
        payload,
        qos: 0,
        epoch: 0,
        offset: 0,
        props: no_props(),
    }
}

/// A small stable hash, for telling images apart.
fn stable_id(bytes: &[u8]) -> u64 {
    let mut h: u64 = 0xcbf2_9ce4_8422_2325;
    for b in bytes {
        h ^= u64::from(*b);
        h = h.wrapping_mul(0x0000_0100_0000_01b3);
    }
    h
}

fn ids(entries: &[(&str, &[u8], u8)]) -> Vec<(u64, u64)> {
    entries
        .iter()
        .map(|(topic, payload, qos)| {
            let image = retained_value(topic, &payload.to_vec(), *qos, &Vec::new());
            (stable_id(topic.as_bytes()), stable_id(&image))
        })
        .collect()
}

#[test]
fn a_large_retained_set_is_chunked_under_the_frame_budget() {
    let payload = vec![0u8; 1024 * 1024];
    let entries: Vec<RetainedWireEntry> =
        (0..9).map(|i| entry(&format!("t/{i}"), payload.clone())).collect();
    let chunks = chunk_retained(entries);
    assert!(chunks.len() >= 3, "9 MiB must not fit 2 chunks of 4 MiB");
    for chunk in &chunks {
        let bytes: usize = chunk.iter().map(|e| e.topic.len() + e.payload.len() + 48).sum();
        assert!(bytes <= RETAINED_CHUNK_BYTES, "chunk over budget");
    }
    let total: usize = chunks.iter().map(Vec::len).sum();
    assert_eq!(total, 9, "every entry appears in exactly one chunk");
}

#[test]
fn an_oversized_single_retained_message_is_skipped_not_sent() {
    let huge = vec![0u8; RETAINED_CHUNK_BYTES + 1];
    let chunks = chunk_retained(vec![entry("ok", vec![1u8; 8]), entry("huge", huge)]);
    let all: Vec<&str> = chunks.iter().flatten().map(|e| e.topic.as_str()).collect();
    assert_eq!(all, vec!["ok"], "the oversized entry is dropped, the rest kept");
}

#[test]
fn the_retained_digest_is_order_independent_and_set_sensitive() {
    let one: (&str, &[u8], u8) = ("x", b"1", 0);
    let two: (&str, &[u8], u8) = ("y", b"2", 1);
    let three: (&str, &[u8], u8) = ("z", b"3", 0);
    let full = retained_digest(&ids(&[one, two, three]));
    let shuffled = retained_digest(&ids(&[three, one, two]));
    assert_eq!(full, shuffled, "order must not matter");
    let subset = retained_digest(&ids(&[one, two]));
    assert_ne!(full, subset, "a different set must differ");
    let two_changed: (&str, &[u8], u8) = ("y", b"CHANGED", 1);
    let diverged = retained_digest(&ids(&[one, two_changed, three]));
    assert_eq!(full.1, diverged.1, "topic-set hash ignores values");
    assert_ne!(full.2, diverged.2, "value hash must see the changed payload");
    assert_eq!(retained_digest(&Vec::new()), (0, 0, 0));
}

#[test]
fn a_digest_counts_and_folds() {
    assert_eq!(retained_digest(&vec![(1, 8), (2, 16), (4, 32)]), (3, 7, 56));
    assert_eq!(retained_digest(&vec![(5, 9), (5, 9)]), (2, 0, 0));
}

#[test]
fn a_value_is_recognised_by_its_parts_in_order() {
    let image = retained_value("ab", &vec![7, 8], 2, &vec![9]);
    assert_eq!(image, vec![0, 0, 0, 0, 0, 0, 0, 2, b'a', b'b', 7, 8, 2, 9]);
    let long = "t".repeat(258);
    let image = retained_value(&long, &Vec::new(), 0, &Vec::new());
    assert_eq!(&image[..8], &[0, 0, 0, 0, 0, 0, 1, 2]);
}

#[test]
fn the_room_of_an_entry_counts_bytes() {
    let mut e = entry("aé", vec![1, 2, 3]);
    assert_eq!(entry_bytes(&e), 3 + 3 + 48);
    e.props = WireAppProps {
        payload_format: Some(1),
        content_type: Some("json".to_string()),
        response_topic: Some("r".to_string()),
        correlation_data: Some(vec![1, 2]),
        user_properties: vec![("k".to_string(), "vv".to_string())],
    };
    assert_eq!(app_bytes(&e.props), 1 + 4 + 1 + 2 + 3);
    assert_eq!(entry_bytes(&e), 3 + 3 + 11 + 48);
}
