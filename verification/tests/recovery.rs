//! Recovery-by-replay at its edges: clean terminators, truncated and
//! corrupt logs, and binary safety across a reopen.

use breakout1_kv_store::{Engine, StoreError};

#[test]
fn empty_log_loads_empty() {
    let engine = Engine::load(Vec::new()).unwrap();
    assert_eq!(engine.file_size(), 0);
    assert_eq!(engine.get(b"anything").unwrap(), None);
}

#[test]
fn dangling_length_prefix_is_a_clean_terminator() {
    let mut engine = Engine::load(Vec::new()).unwrap();
    engine.set(b"k".to_vec(), b"v".to_vec()).unwrap();
    let good_len = engine.file_size();
    let mut bytes = engine.into_file();
    // A crash after writing only the 8-byte length prefix of the next
    // record: replay stops cleanly and the dangling bytes are dropped.
    bytes.extend_from_slice(&999u64.to_le_bytes());

    let mut engine = Engine::load(bytes).unwrap();
    assert_eq!(engine.file_size(), good_len);
    assert_eq!(engine.get(b"k").unwrap(), Some(b"v".to_vec()));

    // Appending after the reopen lands on a frame boundary.
    engine.set(b"k2".to_vec(), b"v2".to_vec()).unwrap();
    let engine = Engine::load(engine.into_file()).unwrap();
    assert_eq!(engine.get(b"k").unwrap(), Some(b"v".to_vec()));
    assert_eq!(engine.get(b"k2").unwrap(), Some(b"v2".to_vec()));
}

#[test]
fn partial_length_prefix_is_a_clean_terminator() {
    let mut engine = Engine::load(Vec::new()).unwrap();
    engine.set(b"k".to_vec(), b"v".to_vec()).unwrap();
    let good_len = engine.file_size();
    let mut bytes = engine.into_file();
    bytes.extend_from_slice(&[1, 2, 3]);

    let engine = Engine::load(bytes).unwrap();
    assert_eq!(engine.file_size(), good_len);
    assert_eq!(engine.get(b"k").unwrap(), Some(b"v".to_vec()));
}

#[test]
fn truncated_record_is_reported() {
    // A prefix announcing 100 payload bytes with only 10 present.
    let mut bytes = Vec::new();
    bytes.extend_from_slice(&100u64.to_le_bytes());
    bytes.extend_from_slice(&[0u8; 10]);
    assert_eq!(Engine::load(bytes).unwrap_err(), StoreError::Truncation);
}

#[test]
fn undecodable_record_is_reported() {
    // A whole frame whose payload is not a record.
    let mut bytes = Vec::new();
    bytes.extend_from_slice(&20u64.to_le_bytes());
    bytes.extend_from_slice(&[0u8; 20]);
    assert_eq!(Engine::load(bytes).unwrap_err(), StoreError::Corruption);
}

#[test]
fn truncation_after_good_frames_is_still_reported() {
    let mut engine = Engine::load(Vec::new()).unwrap();
    engine.set(b"k".to_vec(), b"v".to_vec()).unwrap();
    let mut bytes = engine.into_file();
    bytes.extend_from_slice(&100u64.to_le_bytes());
    bytes.extend_from_slice(&[0u8; 10]);
    assert_eq!(Engine::load(bytes).unwrap_err(), StoreError::Truncation);
}

#[test]
fn every_byte_value_round_trips_across_reopen() {
    let key: Vec<u8> = (0u8..=255).collect();
    let value: Vec<u8> = (0u8..=255).rev().collect();
    let bytes = {
        let mut engine = Engine::load(Vec::new()).unwrap();
        engine.set(key.clone(), value.clone()).unwrap();
        engine.into_file()
    };
    let engine = Engine::load(bytes).unwrap();
    assert_eq!(engine.get(&key).unwrap(), Some(value));
}

#[test]
fn empty_value_is_distinct_from_not_found() {
    let mut engine = Engine::load(Vec::new()).unwrap();
    engine.set(b"k".to_vec(), Vec::new()).unwrap();
    let found = engine.get(b"k").unwrap();
    assert_eq!(found, Some(Vec::new()));
    assert_ne!(found, None);
    assert_eq!(engine.get(b"other").unwrap(), None);
}

#[test]
fn compaction_survives_reopen() {
    let bytes = {
        let mut engine = Engine::load(Vec::new()).unwrap();
        for i in 0..10u32 {
            engine.set(b"k".to_vec(), i.to_le_bytes().to_vec()).unwrap();
        }
        engine.del(b"dead".to_vec()).unwrap();
        engine.compact().unwrap();
        engine.into_file()
    };
    let engine = Engine::load(bytes).unwrap();
    assert_eq!(engine.get(b"k").unwrap(), Some(9u32.to_le_bytes().to_vec()));
    assert_eq!(engine.get(b"dead").unwrap(), None);
}

#[test]
fn file_bytes_matches_into_file() {
    let mut engine = Engine::load(Vec::new()).unwrap();
    engine.set(b"a".to_vec(), b"1".to_vec()).unwrap();
    let copy = engine.file_bytes();
    let moved = engine.into_file();
    assert_eq!(copy, moved);
}
