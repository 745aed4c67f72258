use revisionstore::indexedlogdatastore::IndexedLogDataStore;
use revisionstore::log::RotateLog;
use revisionstore::metadata::Metadata;
use revisionstore::types::{Delta, Key, StoreError};

fn node(seed: &str) -> Vec<u8> {
    let mut n = seed.as_bytes().to_vec();
    while n.len() < 20 {
        n.push(0);
    }
    n.truncate(20);
    n
}

fn key(path: &str, seed: &str) -> Key {
    Key { path: path.as_bytes().to_vec(), node: node(seed) }
}

#[test]
fn test_empty() {
    let log = IndexedLogDataStore::new();
    let shards = log.close();
    let reopened = IndexedLogDataStore::open(shards).unwrap();
    let err = reopened.get_delta(&key("a", "1"));
    assert!(matches!(err, Err(StoreError::NotFound(_))));
}

#[test]
fn test_add() {
    let mut log = IndexedLogDataStore::new();
    let delta = Delta { data: vec![1, 2, 3, 4], base: None, key: key("a", "1") };
    let metadata = Metadata::default();
    log.add(&delta, &metadata).unwrap();
    log.close();
}

#[test]
fn test_add_get() {
    let mut log = IndexedLogDataStore::new();
    let delta = Delta { data: vec![1, 2, 3, 4], base: None, key: key("a", "1") };
    let metadata = Metadata::default();
    log.add(&delta, &metadata).unwrap();
    let shards = log.close();

    let log = IndexedLogDataStore::open(shards).unwrap();
    let read_delta = log.get_delta(&delta.key).unwrap();
    assert_eq!(read_delta.data, vec![1, 2, 3, 4]);
    assert!(read_delta.base.is_none());
    assert_eq!(read_delta.key.path, delta.key.path);
    assert_eq!(read_delta.key.node, delta.key.node);
}

#[test]
fn test_lookup_failure() {
    let log = IndexedLogDataStore::new();
    let k = key("a", "1");
    let err = log.get_delta(&k);
    match err {
        Err(StoreError::NotFound(missing)) => {
            assert_eq!(missing.node, k.node);
        }
        _ => panic!("Lookup didn't fail"),
    }
}

#[test]
fn test_add_chain() {
    let mut log = IndexedLogDataStore::new();
    let delta = Delta { data: vec![1, 2, 3, 4], base: Some(key("a", "1")), key: key("a", "2") };
    let metadata = Metadata::default();
    assert!(log.add(&delta, &metadata).is_err());
}

#[test]
fn test_rejected_add_stays_missing() {
    let mut log = IndexedLogDataStore::new();
    let delta = Delta { data: vec![9, 9], base: Some(key("a", "1")), key: key("a", "2") };
    let metadata = Metadata::default();
    assert!(matches!(log.add(&delta, &metadata), Err(StoreError::InvalidWrite)));
    let missing = log.get_missing(&vec![key("a", "2")]).unwrap();
    assert_eq!(missing.len(), 1);
    assert_eq!(missing[0].node, key("a", "2").node);
}

#[test]
fn test_get_missing_order() {
    let mut log = IndexedLogDataStore::new();
    let d1 = Delta { data: vec![1], base: None, key: key("a", "1") };
    log.add(&d1, &Metadata::default()).unwrap();
    let probe = vec![key("z", "9"), key("a", "1"), key("b", "7")];
    let missing = log.get_missing(&probe).unwrap();
    assert_eq!(missing.len(), 2);
    assert_eq!(missing[0].node, node("9"));
    assert_eq!(missing[1].node, node("7"));
}

#[test]
fn test_get_meta_and_chain() {
    let mut log = IndexedLogDataStore::new();
    let delta = Delta { data: vec![5, 6, 7], base: None, key: key("p", "x") };
    let meta = Metadata { entries: vec![(1, vec![0, 0, 0, 0, 0, 0, 0, 3])] };
    log.add(&delta, &meta).unwrap();
    let m = log.get_meta(&delta.key).unwrap();
    assert_eq!(m.entries.len(), 1);
    assert_eq!(m.entries[0].0, 1);
    assert_eq!(m.entries[0].1, vec![0, 0, 0, 0, 0, 0, 0, 3]);
    let chain = log.get_delta_chain(&delta.key).unwrap();
    assert_eq!(chain.len(), 1);
    assert!(chain[0].base.is_none());
    assert_eq!(chain[0].data, vec![5, 6, 7]);
}

#[test]
fn test_newest_entry_wins() {
    let mut log = IndexedLogDataStore::new();
    let k = key("a", "1");
    let d1 = Delta { data: vec![1], base: None, key: Key { path: k.path.clone(), node: k.node.clone() } };
    let d2 = Delta { data: vec![2], base: None, key: Key { path: k.path.clone(), node: k.node.clone() } };
    log.add(&d1, &Metadata::default()).unwrap();
    log.add(&d2, &Metadata::default()).unwrap();
    assert_eq!(log.get_delta(&k).unwrap().data, vec![2]);
}

#[test]
fn test_rotation_drops_oldest() {
    // Tiny caps: every entry rotates to a fresh shard, two shards kept.
    let mut log = RotateLog::new(2, 1);
    let m = Metadata::default();
    let k1 = key("a", "1");
    let k2 = key("a", "2");
    let k3 = key("a", "3");
    log.append(&k1, &m, vec![1]);
    log.append(&k2, &m, vec![2]);
    log.append(&k3, &m, vec![3]);
    assert!(log.find(&k1.node).is_none());
    assert!(log.find(&k2.node).is_some());
    assert!(log.find(&k3.node).is_some());
}
