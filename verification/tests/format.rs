//! The on-disk shape: the record codec, the frame layout, and the exact
//! sizes the log takes.

use breakout1_kv_store::codec::{decode_record, encode_record};
use breakout1_kv_store::{DataFileEntry, Engine, SetRequest, StoreError};

#[test]
fn codec_round_trips_live_record() {
    let rec = DataFileEntry {
        tstamp: 7,
        key: vec![1, 2, 3],
        value: Some(vec![9, 8]),
    };
    let payload = encode_record(&rec);
    assert_eq!(payload.len(), 25 + 3 + 2);
    let back = decode_record(&payload).unwrap();
    assert_eq!(back.tstamp, 7);
    assert_eq!(back.key, vec![1, 2, 3]);
    assert_eq!(back.value, Some(vec![9, 8]));
}

#[test]
fn codec_round_trips_tombstone_and_negative_timestamp() {
    let rec = DataFileEntry {
        tstamp: -12345,
        key: vec![0xFF, 0x00],
        value: None,
    };
    let payload = encode_record(&rec);
    assert_eq!(payload.len(), 17 + 2);
    let back = decode_record(&payload).unwrap();
    assert_eq!(back.tstamp, -12345);
    assert_eq!(back.key, vec![0xFF, 0x00]);
    assert_eq!(back.value, None);
}

#[test]
fn codec_round_trips_empty_key_and_empty_value() {
    let rec = DataFileEntry {
        tstamp: 0,
        key: Vec::new(),
        value: Some(Vec::new()),
    };
    let payload = encode_record(&rec);
    assert_eq!(payload.len(), 25);
    let back = decode_record(&payload).unwrap();
    assert_eq!(back.key, Vec::<u8>::new());
    assert_eq!(back.value, Some(Vec::new()));
}

#[test]
fn codec_rejects_short_payload() {
    assert_eq!(decode_record(&[0u8; 10]).unwrap_err(), StoreError::Corruption);
}

#[test]
fn codec_rejects_trailing_garbage() {
    // A well-formed tombstone for an empty key is 17 bytes; 20 bytes
    // with the same start do not decode.
    assert_eq!(decode_record(&[0u8; 20]).unwrap_err(), StoreError::Corruption);
}

#[test]
fn codec_rejects_bad_presence_flag() {
    let mut payload = vec![0u8; 17];
    payload[16] = 7;
    assert_eq!(decode_record(&payload).unwrap_err(), StoreError::Corruption);
}

#[test]
fn handwritten_frame_is_understood() {
    // ts = 0, key = "k", flag = live, value = "v", all lengths
    // little-endian: the documented layout, written out by hand.
    let mut payload = Vec::new();
    payload.extend_from_slice(&0u64.to_le_bytes());
    payload.extend_from_slice(&1u64.to_le_bytes());
    payload.push(b'k');
    payload.push(1);
    payload.extend_from_slice(&1u64.to_le_bytes());
    payload.push(b'v');
    let mut bytes = Vec::new();
    bytes.extend_from_slice(&(payload.len() as u64).to_le_bytes());
    bytes.extend_from_slice(&payload);

    let engine = Engine::load(bytes).unwrap();
    assert_eq!(engine.get(b"k").unwrap(), Some(b"v".to_vec()));
}

#[test]
fn one_binding_takes_exactly_one_frame() {
    let mut engine = Engine::load(Vec::new()).unwrap();
    engine.set(b"k".to_vec(), b"v".to_vec()).unwrap();
    assert_eq!(engine.file_size(), 35);
    engine.set(b"k".to_vec(), b"w".to_vec()).unwrap();
    assert_eq!(engine.file_size(), 70);
    engine.compact().unwrap();
    assert_eq!(engine.file_size(), 35);
    assert_eq!(engine.get(b"k").unwrap(), Some(b"w".to_vec()));
}

#[test]
fn compacting_only_tombstones_empties_the_log() {
    let mut engine = Engine::load(Vec::new()).unwrap();
    engine.set(b"k".to_vec(), b"v".to_vec()).unwrap();
    engine.del(b"k".to_vec()).unwrap();
    assert_eq!(engine.file_size(), 35 + 26);
    engine.compact().unwrap();
    assert_eq!(engine.file_size(), 0);
    assert_eq!(engine.get(b"k").unwrap(), None);
}

#[test]
fn set_request_carries_key_and_value() {
    let req = SetRequest {
        key: String::from("name"),
        value: String::from("alice"),
    };
    assert_eq!(req.key, "name");
    assert_eq!(req.value, "alice");
}
