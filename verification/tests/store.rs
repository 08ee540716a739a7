use my_redis::store::{hash, shard_of, Shard, Store};

#[test]
fn get_on_empty_store_is_none() {
    let store = Store::new(5);
    assert_eq!(store.get(b"missing"), None);
}

#[test]
fn set_then_get_returns_value() {
    let mut store = Store::new(5);
    store.set(b"foo", b"bar".to_vec());
    assert_eq!(store.get(b"foo"), Some(b"bar".to_vec()));
}

#[test]
fn set_overwrites() {
    let mut store = Store::new(5);
    store.set(b"foo", b"one".to_vec());
    store.set(b"foo", b"two".to_vec());
    assert_eq!(store.get(b"foo"), Some(b"two".to_vec()));
}

#[test]
fn distinct_keys_are_independent() {
    let mut store = Store::new(5);
    for i in 0..100u32 {
        let key = format!("key-{}", i).into_bytes();
        let value = format!("value-{}", i).into_bytes();
        store.set(&key, value);
    }
    for i in 0..100u32 {
        let key = format!("key-{}", i).into_bytes();
        let expected = format!("value-{}", i).into_bytes();
        assert_eq!(store.get(&key), Some(expected));
    }
    assert_eq!(store.get(b"key-100"), None);
}

#[test]
fn single_shard_store_works() {
    let mut store = Store::new(1);
    store.set(b"a", b"1".to_vec());
    store.set(b"b", b"2".to_vec());
    assert_eq!(store.get(b"a"), Some(b"1".to_vec()));
    assert_eq!(store.get(b"b"), Some(b"2".to_vec()));
}

#[test]
fn shard_count_is_fixed() {
    let store = Store::new(7);
    assert_eq!(store.num_shards(), 7);
}

#[test]
fn hash_is_stable_across_calls() {
    let first = hash(b"hello");
    for _ in 0..10 {
        assert_eq!(hash(b"hello"), first);
    }
}

#[test]
fn hash_matches_fnv1a_reference_values() {
    // FNV-1a 64-bit published reference points.
    assert_eq!(hash(b""), 0xcbf29ce484222325);
    assert_eq!(hash(b"a"), 0xaf63dc4c8601ec8c);
    assert_eq!(hash(b"foobar"), 0x85944171f73967e8);
}

#[test]
fn shard_of_is_deterministic_and_in_range() {
    for num_shards in 1..10usize {
        for key in [&b"foo"[..], b"bar", b"", b"a much longer key"] {
            let first = shard_of(key, num_shards);
            assert!(first < num_shards);
            for _ in 0..5 {
                assert_eq!(shard_of(key, num_shards), first);
            }
        }
    }
}

#[test]
fn shard_get_and_set() {
    let mut shard = Shard::new();
    assert_eq!(shard.get(b"k"), None);
    shard.set(b"k", b"v".to_vec());
    assert_eq!(shard.get(b"k"), Some(b"v".to_vec()));
    shard.set(b"k", b"w".to_vec());
    assert_eq!(shard.get(b"k"), Some(b"w".to_vec()));
    assert_eq!(shard.get(b"other"), None);
}

#[test]
fn empty_key_and_value_are_allowed() {
    let mut store = Store::new(3);
    store.set(b"", Vec::new());
    assert_eq!(store.get(b""), Some(Vec::new()));
}
