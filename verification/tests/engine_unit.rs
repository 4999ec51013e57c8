//! The engine's own unit tests, run against the library from outside.

use breakout1_kv_store::Engine;

fn temp_engine() -> Engine {
    Engine::load(Vec::new()).unwrap()
}

#[test]
fn engine_test_set_and_get() {
    let mut engine = temp_engine();
    engine.set(b"name".to_vec(), b"alice".to_vec()).unwrap();
    let val = engine.get(b"name").unwrap();
    assert_eq!(val, Some(b"alice".to_vec()));
}

#[test]
fn engine_test_get_nonexistent_key_returns_none() {
    let engine = temp_engine();
    let val = engine.get(b"ghost").unwrap();
    assert_eq!(val, None);
}

#[test]
fn engine_test_delete_key() {
    let mut engine = temp_engine();
    engine.set(b"key".to_vec(), b"value".to_vec()).unwrap();
    engine.del(b"key".to_vec()).unwrap();
    let val = engine.get(b"key").unwrap();
    assert_eq!(val, None);
}

#[test]
fn engine_test_delete_nonexistent_key_is_ok() {
    let mut engine = temp_engine();
    // should not panic or error
    engine.del(b"nothing".to_vec()).unwrap();
}

#[test]
fn engine_test_overwrite_key() {
    let mut engine = temp_engine();
    engine.set(b"k".to_vec(), b"v1".to_vec()).unwrap();
    engine.set(b"k".to_vec(), b"v2".to_vec()).unwrap();
    let val = engine.get(b"k").unwrap();
    assert_eq!(val, Some(b"v2".to_vec()));
}

#[test]
fn engine_test_multiple_keys() {
    let mut engine = temp_engine();
    engine.set(b"a".to_vec(), b"1".to_vec()).unwrap();
    engine.set(b"b".to_vec(), b"2".to_vec()).unwrap();
    engine.set(b"c".to_vec(), b"3".to_vec()).unwrap();

    assert_eq!(engine.get(b"a").unwrap(), Some(b"1".to_vec()));
    assert_eq!(engine.get(b"b").unwrap(), Some(b"2".to_vec()));
    assert_eq!(engine.get(b"c").unwrap(), Some(b"3".to_vec()));
}

#[test]
fn engine_test_index_rebuilt_after_reload() {
    let bytes = {
        let mut engine = Engine::load(Vec::new()).unwrap();
        engine.set(b"foo".to_vec(), b"bar".to_vec()).unwrap();
        engine.set(b"hello".to_vec(), b"world".to_vec()).unwrap();
        engine.into_file()
    }; // engine dropped, bytes stay

    // reload engine from the same bytes
    let engine = Engine::load(bytes).unwrap();
    assert_eq!(engine.get(b"foo").unwrap(), Some(b"bar".to_vec()));
    assert_eq!(engine.get(b"hello").unwrap(), Some(b"world".to_vec()));
}

#[test]
fn engine_test_delete_persists_after_reload() {
    let bytes = {
        let mut engine = Engine::load(Vec::new()).unwrap();
        engine.set(b"key".to_vec(), b"val".to_vec()).unwrap();
        engine.del(b"key".to_vec()).unwrap();
        engine.into_file()
    };

    let engine = Engine::load(bytes).unwrap();
    assert_eq!(engine.get(b"key").unwrap(), None);
}

#[test]
fn engine_test_overwrite_persists_after_reload() {
    let bytes = {
        let mut engine = Engine::load(Vec::new()).unwrap();
        engine.set(b"k".to_vec(), b"old".to_vec()).unwrap();
        engine.set(b"k".to_vec(), b"new".to_vec()).unwrap();
        engine.into_file()
    };

    let engine = Engine::load(bytes).unwrap();
    assert_eq!(engine.get(b"k").unwrap(), Some(b"new".to_vec()));
}

#[test]
fn engine_test_empty_value() {
    let mut engine = temp_engine();
    engine.set(b"empty".to_vec(), b"".to_vec()).unwrap();
    assert_eq!(engine.get(b"empty").unwrap(), Some(b"".to_vec()));
}

#[test]
fn engine_test_large_value() {
    let mut engine = temp_engine();
    let large_val = vec![0xABu8; 1024 * 1024]; // 1MB
    engine.set(b"big".to_vec(), large_val.clone()).unwrap();
    assert_eq!(engine.get(b"big").unwrap(), Some(large_val));
}

#[test]
fn engine_test_binary_keys_and_values() {
    let mut engine = temp_engine();
    let key = vec![0x00, 0xFF, 0x42, 0x13];
    let val = vec![0xDE, 0xAD, 0xBE, 0xEF];
    engine.set(key.clone(), val.clone()).unwrap();
    assert_eq!(engine.get(&key).unwrap(), Some(val));
}

#[test]
fn engine_test_many_overwrites_index_stays_correct() {
    let mut engine = temp_engine();
    for i in 0..100u32 {
        engine
            .set(b"counter".to_vec(), i.to_le_bytes().to_vec())
            .unwrap();
    }
    assert_eq!(
        engine.get(b"counter").unwrap(),
        Some(99u32.to_le_bytes().to_vec())
    );
}
