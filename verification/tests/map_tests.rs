use candy_typed::codec::Codec;
use candy_typed::keys::build_map_key;
use candy_typed::map::CandyTypedStore;
use candy_typed::store::CandyStore;

#[test]
fn end_to_end_set_and_replace() {
    let mut store = CandyStore::new();
    let map: CandyTypedStore<String, String> = CandyTypedStore::new();
    let k = "k".to_string();
    assert_eq!(map.set(&mut store, &k, &"v1".to_string()).unwrap(), None);
    assert_eq!(
        map.set(&mut store, &k, &"v2".to_string()).unwrap(),
        Some("v1".to_string())
    );
    // A mismatched expectation writes nothing and comes back empty.
    assert_eq!(
        map.replace(&mut store, &k, &"v3".to_string(), Some(&"wrong".to_string()))
            .unwrap(),
        None
    );
    assert_eq!(map.get(&store, &k).unwrap(), Some("v2".to_string()));
    // A matching expectation swaps the value and returns the old one.
    assert_eq!(
        map.replace(&mut store, &k, &"v3".to_string(), Some(&"v2".to_string()))
            .unwrap(),
        Some("v2".to_string())
    );
    assert_eq!(map.get(&store, &k).unwrap(), Some("v3".to_string()));
}

#[test]
fn replace_on_absent_key_writes_nothing() {
    let mut store = CandyStore::new();
    let map: CandyTypedStore<String, String> = CandyTypedStore::new();
    let k = "missing".to_string();
    assert_eq!(
        map.replace(&mut store, &k, &"v".to_string(), None).unwrap(),
        None
    );
    assert!(!map.contains(&store, &k).unwrap());
    // Without an expectation, an existing entry is overwritten.
    map.set(&mut store, &k, &"v0".to_string()).unwrap();
    assert_eq!(
        map.replace(&mut store, &k, &"v1".to_string(), None).unwrap(),
        Some("v0".to_string())
    );
    assert_eq!(map.get(&store, &k).unwrap(), Some("v1".to_string()));
}

#[test]
fn different_key_types_never_collide() {
    // u32 and i32 keys with the same raw encoding: the tags keep them apart.
    let mut store = CandyStore::new();
    let m1: CandyTypedStore<u32, String> = CandyTypedStore::new();
    let m2: CandyTypedStore<i32, String> = CandyTypedStore::new();
    assert_eq!(5u32.encode(), 5i32.encode());
    m1.set(&mut store, &5u32, &"from u32".to_string()).unwrap();
    assert_eq!(m2.get(&store, &5i32).unwrap(), None);
    assert!(!m2.contains(&store, &5i32).unwrap());
    m2.set(&mut store, &5i32, &"from i32".to_string()).unwrap();
    assert_eq!(m1.get(&store, &5u32).unwrap(), Some("from u32".to_string()));
    assert_eq!(m2.get(&store, &5i32).unwrap(), Some("from i32".to_string()));
    assert_eq!(m1.remove(&mut store, &5u32).unwrap(), Some("from u32".to_string()));
    assert_eq!(m2.get(&store, &5i32).unwrap(), Some("from i32".to_string()));
}

#[test]
fn composite_key_layout() {
    // The composite key is the encoded key, the tag bytes (as bytemuck lays
    // a u32 out in memory on this target), and the namespace marker.
    let key = build_map_key(&5u32);
    let mut expected = 5u32.encode();
    expected.extend_from_slice(bytemuck::bytes_of(&3u32));
    expected.push(2);
    assert_eq!(key, expected);
}

#[test]
fn get_or_create_inserts_once() {
    let mut store = CandyStore::new();
    let map: CandyTypedStore<u64, u32> = CandyTypedStore::new();
    assert_eq!(map.get_or_create(&mut store, &9u64, &7u32).unwrap(), 7);
    map.set(&mut store, &9u64, &8u32).unwrap();
    assert_eq!(map.get_or_create(&mut store, &9u64, &7u32).unwrap(), 8);
}

#[test]
fn remove_returns_prior_value() {
    let mut store = CandyStore::new();
    let map: CandyTypedStore<String, u32> = CandyTypedStore::new();
    let k = "x".to_string();
    assert_eq!(map.remove(&mut store, &k).unwrap(), None);
    map.set(&mut store, &k, &42u32).unwrap();
    assert!(map.contains(&store, &k).unwrap());
    assert_eq!(map.remove(&mut store, &k).unwrap(), Some(42));
    assert!(!map.contains(&store, &k).unwrap());
}

#[test]
fn big_values_use_their_own_path() {
    let mut store = CandyStore::new();
    let map: CandyTypedStore<String, String> = CandyTypedStore::new();
    let k = "big".to_string();
    let payload = "p".repeat(4096);
    assert!(map.set_big(&mut store, &k, &payload).unwrap());
    assert!(!map.set_big(&mut store, &k, &payload).unwrap());
    assert_eq!(map.get_big(&store, &k).unwrap(), Some(payload));
    // The normal path does not see the big entry.
    assert_eq!(map.get(&store, &k).unwrap(), None);
    assert!(map.remove_big(&mut store, &k).unwrap());
    assert!(!map.remove_big(&mut store, &k).unwrap());
    assert_eq!(map.get_big(&store, &k).unwrap(), None);
}

#[test]
fn decode_error_is_reported() {
    // Store a string, read it back as a u32: the bytes do not parse.
    let mut store = CandyStore::new();
    let writer: CandyTypedStore<u64, String> = CandyTypedStore::new();
    let reader: CandyTypedStore<u64, u32> = CandyTypedStore::new();
    writer.set(&mut store, &1u64, &"ab".to_string()).unwrap();
    assert!(reader.get(&store, &1u64).is_err());
}
