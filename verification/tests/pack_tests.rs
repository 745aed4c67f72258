use revisionstore::datapack::DataPack;
use revisionstore::indexedlogdatastore::IndexedLogDataStore;
use revisionstore::mutablehistorypack::MutableHistoryPack;
use revisionstore::union::{make_mutabledeltastore, make_mutablehistorystore};
use revisionstore::historypack::{HistEntry, HistSection, HistoryPack};
use revisionstore::metadata::Metadata;
use revisionstore::mutabledatapack::MutableDataPack;
use revisionstore::packstore::{should_delete_corrupt, CorruptionPolicy, DataPackStore};
use revisionstore::types::{Delta, Key, NodeInfo, StoreError};

fn node(seed: &str) -> Vec<u8> {
    let mut n = seed.as_bytes().to_vec();
    while n.len() < 20 {
        n.push(0);
    }
    n.truncate(20);
    n
}

fn key(path: &str, seed: &str) -> Key {
    Key { path: path.as_bytes().to_vec(), node: node(seed) }
}

fn null() -> Vec<u8> {
    vec![0; 20]
}

#[test]
fn test_pack_roundtrip_hundred_keys() {
    let mut builder = MutableDataPack::new();
    let mut keys = Vec::new();
    for i in 0..100u32 {
        let seed = format!("k{}", i);
        let k = key("file", &seed);
        let delta = Delta {
            data: format!("content-{}", i).into_bytes(),
            base: None,
            key: Key { path: k.path.clone(), node: k.node.clone() },
        };
        builder.add(&delta, &Metadata::default()).unwrap();
        keys.push(k);
    }
    let (pack_bytes, index_bytes, name) = builder.finalize().unwrap();
    assert_eq!(name.len(), 40);
    let pack = DataPack::open(&pack_bytes, &index_bytes).unwrap();
    for i in 0..100u32 {
        let content = pack.get(&keys[i as usize]).unwrap();
        assert_eq!(content, format!("content-{}", i).into_bytes());
        let d = pack.get_delta(&keys[i as usize]).unwrap();
        assert_eq!(d.data, format!("content-{}", i).into_bytes());
        assert!(d.base.is_none());
    }
}

#[test]
fn test_pack_metadata_roundtrip() {
    let mut builder = MutableDataPack::new();
    let k = key("m", "1");
    let meta = Metadata { entries: vec![(1, vec![1, 2]), (2, vec![3]), (9, vec![4, 5, 6])] };
    let delta = Delta {
        data: vec![42],
        base: None,
        key: Key { path: k.path.clone(), node: k.node.clone() },
    };
    builder.add(&delta, &meta).unwrap();
    let (pb, ib, _name) = builder.finalize().unwrap();
    let pack = DataPack::open(&pb, &ib).unwrap();
    let m = pack.get_meta(&k).unwrap();
    assert_eq!(m.entries, vec![(1u8, vec![1u8, 2]), (2, vec![3]), (9, vec![4, 5, 6])]);
}

#[test]
fn test_pack_get_missing() {
    let mut builder = MutableDataPack::new();
    let k = key("a", "1");
    let delta = Delta {
        data: vec![1],
        base: None,
        key: Key { path: k.path.clone(), node: k.node.clone() },
    };
    builder.add(&delta, &Metadata::default()).unwrap();
    let (pb, ib, _) = builder.finalize().unwrap();
    let pack = DataPack::open(&pb, &ib).unwrap();
    let missing = pack.get_missing(&vec![key("a", "1"), key("a", "2")]).unwrap();
    assert_eq!(missing.len(), 1);
    assert_eq!(missing[0].node, node("2"));
}

#[test]
fn test_delta_chain_termination() {
    // c2 patches c1; c1 is the full text. The patch replaces bytes 0..3
    // with "xyz": fragment start=0, end=3, len=3, data "xyz".
    let mut builder = MutableDataPack::new();
    let full = Delta { data: b"abcdef".to_vec(), base: None, key: key("f", "1") };
    let mut patch = Vec::new();
    patch.extend_from_slice(&0u32.to_be_bytes());
    patch.extend_from_slice(&3u32.to_be_bytes());
    patch.extend_from_slice(&3u32.to_be_bytes());
    patch.extend_from_slice(b"xyz");
    let deltaed = Delta { data: patch, base: Some(key("f", "1")), key: key("f", "2") };
    builder.add(&full, &Metadata::default()).unwrap();
    builder.add(&deltaed, &Metadata::default()).unwrap();
    let (pb, ib, _) = builder.finalize().unwrap();
    let pack = DataPack::open(&pb, &ib).unwrap();

    let chain = pack.get_delta_chain(&key("f", "2")).unwrap();
    assert_eq!(chain.len(), 2);
    assert!(chain[0].base.is_some());
    assert!(chain[chain.len() - 1].base.is_none());

    let content = pack.get(&key("f", "2")).unwrap();
    assert_eq!(content, b"xyzdef".to_vec());

    let missing_base = pack.get_delta_chain(&key("f", "9"));
    assert!(matches!(missing_base, Err(StoreError::NotFound(_))));
}

#[test]
fn test_broken_chain_reported() {
    let mut builder = MutableDataPack::new();
    let deltaed = Delta { data: vec![0], base: Some(key("f", "zz")), key: key("f", "2") };
    builder.add(&deltaed, &Metadata::default()).unwrap();
    let (pb, ib, _) = builder.finalize().unwrap();
    let pack = DataPack::open(&pb, &ib).unwrap();
    let r = pack.get_delta_chain(&key("f", "2"));
    assert!(matches!(r, Err(StoreError::BrokenChain(_))));
}

#[test]
fn test_corrupt_index_rejected_and_policy() {
    let mut builder = MutableDataPack::new();
    let delta = Delta { data: vec![1, 2], base: None, key: key("a", "1") };
    builder.add(&delta, &Metadata::default()).unwrap();
    let (pb, mut ib, _) = builder.finalize().unwrap();
    // Flip one byte in the middle of the index.
    let mid = ib.len() / 2;
    ib[mid] ^= 0xFF;
    assert!(DataPack::open(&pb, &ib).is_err());
    assert!(should_delete_corrupt(&CorruptionPolicy::REMOVE));
    assert!(!should_delete_corrupt(&CorruptionPolicy::IGNORE));
}

fn hist_pack_two_nodes() -> HistoryPack {
    // a:1 has parents (a:0, null); a:0 has no parents.
    let e1 = HistEntry {
        node: node("1"),
        p1: node("0"),
        p2: null(),
        link: node("l1"),
        copyfrom: None,
    };
    let e0 = HistEntry {
        node: node("0"),
        p1: null(),
        p2: null(),
        link: node("l0"),
        copyfrom: None,
    };
    let sections = vec![HistSection { path: b"a".to_vec(), entries: vec![e1, e0] }];
    let bytes = revisionstore::historypack::serialize_hist(&sections);
    HistoryPack::open(&bytes).unwrap()
}

#[test]
fn test_ancestors_bfs() {
    let pack = hist_pack_two_nodes();
    let ancestors = pack.get_ancestors(&key("a", "1")).unwrap();
    assert_eq!(ancestors.len(), 2);
    let nodes: Vec<&Vec<u8>> = ancestors.iter().map(|(k, _)| &k.node).collect();
    assert!(nodes.contains(&&node("1")));
    assert!(nodes.contains(&&node("0")));
    for (k, info) in &ancestors {
        if k.node == node("1") {
            assert_eq!(info.p1.node, node("0"));
            assert_eq!(info.p2.node, null());
            assert_eq!(info.linknode, node("l1"));
        } else {
            assert_eq!(info.p1.node, null());
            assert_eq!(info.linknode, node("l0"));
        }
    }
}

#[test]
fn test_node_info_and_copyfrom() {
    let e = HistEntry {
        node: node("n"),
        p1: node("p"),
        p2: null(),
        link: node("l"),
        copyfrom: Some(b"old/name".to_vec()),
    };
    let sections = vec![HistSection { path: b"new/name".to_vec(), entries: vec![e] }];
    let bytes = revisionstore::historypack::serialize_hist(&sections);
    let pack = HistoryPack::open(&bytes).unwrap();
    let info = pack.get_node_info(&key("new/name", "n")).unwrap();
    assert_eq!(info.p1.path, b"old/name".to_vec());
    assert_eq!(info.p1.node, node("p"));
    assert_eq!(info.p2.path, b"new/name".to_vec());
    assert_eq!(info.copyfrom, Some(b"old/name".to_vec()));
    let missing = pack.get_missing(&vec![key("new/name", "n"), key("other", "n")]).unwrap();
    assert_eq!(missing.len(), 1);
    assert_eq!(missing[0].path, b"other".to_vec());
}

#[test]
fn test_hist_pack_corrupt_bytes_rejected() {
    let e = HistEntry {
        node: node("n"),
        p1: null(),
        p2: null(),
        link: node("l"),
        copyfrom: None,
    };
    let sections = vec![HistSection { path: b"a".to_vec(), entries: vec![e] }];
    let mut bytes = revisionstore::historypack::serialize_hist(&sections);
    let last = bytes.len() - 1;
    bytes[last] ^= 0x55;
    assert!(HistoryPack::open(&bytes).is_err());
}

#[test]
fn test_duplicate_key_first_record_wins() {
    let mut builder = MutableDataPack::new();
    let k = key("a", "1");
    let d1 = Delta {
        data: vec![1],
        base: None,
        key: Key { path: k.path.clone(), node: k.node.clone() },
    };
    let d2 = Delta {
        data: vec![2],
        base: None,
        key: Key { path: k.path.clone(), node: k.node.clone() },
    };
    builder.add(&d1, &Metadata::default()).unwrap();
    builder.add(&d2, &Metadata::default()).unwrap();
    let (pb, ib, _) = builder.finalize().unwrap();
    let pack = DataPack::open(&pb, &ib).unwrap();
    assert_eq!(pack.get_delta(&k).unwrap().data, vec![1]);
}

#[test]
fn test_pack_store_probes_all_packs() {
    let mut store = DataPackStore::new(CorruptionPolicy::IGNORE, 1);
    for seed in ["1", "2"] {
        let mut builder = MutableDataPack::new();
        let k = key("a", seed);
        let delta = Delta {
            data: seed.as_bytes().to_vec(),
            base: None,
            key: Key { path: k.path.clone(), node: k.node.clone() },
        };
        builder.add(&delta, &Metadata::default()).unwrap();
        let (pb, ib, _) = builder.finalize().unwrap();
        store.add_pack(DataPack::open(&pb, &ib).unwrap());
    }
    assert_eq!(store.get_delta(&key("a", "1")).unwrap().data, b"1".to_vec());
    assert_eq!(store.get_delta(&key("a", "2")).unwrap().data, b"2".to_vec());
    assert!(matches!(store.get_delta(&key("a", "3")), Err(StoreError::NotFound(_))));
    let missing = store.get_missing(&vec![key("a", "2"), key("a", "9")]).unwrap();
    assert_eq!(missing.len(), 1);
    assert_eq!(missing[0].node, node("9"));
}

#[test]
fn test_ancestors_missing_start() {
    let pack = hist_pack_two_nodes();
    let r = pack.get_ancestors(&key("a", "9"));
    assert!(matches!(r, Err(StoreError::NotFound(_))));
    let r2 = pack.get_ancestors(&key("b", "1"));
    assert!(matches!(r2, Err(StoreError::NotFound(_))));
}

#[test]
fn test_node_info_not_found() {
    let pack = hist_pack_two_nodes();
    let _ = NodeInfo {
        p1: key("a", "0"),
        p2: key("a", ""),
        linknode: node("l"),
        copyfrom: None,
    };
    assert!(matches!(pack.get_node_info(&key("a", "7")), Err(StoreError::NotFound(_))));
}

#[test]
fn test_history_builder_roundtrip_ancestors() {
    let mut builder = MutableHistoryPack::new();
    let info1 = NodeInfo {
        p1: key("a", "0"),
        p2: Key { path: b"a".to_vec(), node: null() },
        linknode: node("l1"),
        copyfrom: None,
    };
    let info0 = NodeInfo {
        p1: Key { path: b"a".to_vec(), node: null() },
        p2: Key { path: b"a".to_vec(), node: null() },
        linknode: node("l0"),
        copyfrom: None,
    };
    builder.add(&key("a", "1"), &info1).unwrap();
    builder.add(&key("a", "0"), &info0).unwrap();
    let (pack_bytes, index_bytes, name) = builder.finalize().unwrap();
    assert_eq!(name.len(), 40);
    // The name is the hex of the index file's trailing digest.
    let trailing = index_bytes[index_bytes.len() - 20..].to_vec();
    assert_eq!(name, revisionstore::hashing::to_hex(&trailing));
    let pack = HistoryPack::open(&pack_bytes).unwrap();
    let ancestors = pack.get_ancestors(&key("a", "1")).unwrap();
    assert_eq!(ancestors.len(), 2);
    let info = pack.get_node_info(&key("a", "1")).unwrap();
    assert_eq!(info.p1.node, node("0"));
    assert_eq!(info.linknode, node("l1"));
}

#[test]
fn test_history_builder_sorts_paths() {
    let mut builder = MutableHistoryPack::new();
    let no_parents = |link: &str| NodeInfo {
        p1: Key { path: b"x".to_vec(), node: null() },
        p2: Key { path: b"x".to_vec(), node: null() },
        linknode: node(link),
        copyfrom: None,
    };
    builder.add(&key("zz", "1"), &no_parents("l1")).unwrap();
    builder.add(&key("aa", "2"), &no_parents("l2")).unwrap();
    builder.add(&key("zz", "3"), &no_parents("l3")).unwrap();
    assert_eq!(builder.sections.len(), 2);
    assert_eq!(builder.sections[0].path, b"aa".to_vec());
    assert_eq!(builder.sections[1].path, b"zz".to_vec());
    assert_eq!(builder.sections[1].entries.len(), 2);
    let (pb, _ib, _nm) = builder.finalize().unwrap();
    let pack = HistoryPack::open(&pb).unwrap();
    assert!(pack.get_node_info(&key("aa", "2")).is_ok());
    assert!(pack.get_node_info(&key("zz", "3")).is_ok());
}

#[test]
fn test_mutable_store_selection() {
    assert!(matches!(make_mutabledeltastore(false, false), Err(_)));
    assert!(matches!(make_mutablehistorystore(false), Err(_)));
    let mut store = make_mutabledeltastore(true, false).unwrap();
    let delta = Delta { data: vec![1, 2], base: None, key: key("a", "1") };
    store.add(&delta, &Metadata::default()).unwrap();
    assert_eq!(store.get_delta(&key("a", "1")).unwrap().data, vec![1, 2]);
    match store.flush().unwrap() {
        Some((pb, ib, _name)) => {
            let pack = DataPack::open(&pb, &ib).unwrap();
            assert_eq!(pack.get_delta(&key("a", "1")).unwrap().data, vec![1, 2]);
        }
        None => panic!("a pack flush yields the pack"),
    }
    let mut log_store = make_mutabledeltastore(false, true).unwrap();
    log_store.add(&delta, &Metadata::default()).unwrap();
    assert_eq!(log_store.get_delta(&key("a", "1")).unwrap().data, vec![1, 2]);
    assert!(matches!(log_store.flush().unwrap(), None));
    let store = make_mutablehistorystore(true).unwrap();
    assert!(matches!(store.flush().unwrap(), Some(_)));
}

#[test]
fn test_store_rescan_decision_and_stem_memory() {
    let mut store = DataPackStore::new(CorruptionPolicy::IGNORE, 10);
    // A fresh store wants a scan; a finished scan quiets it until the
    // interval passes or a rescan is forced.
    assert!(store.should_rescan(100));
    store.mark_scanned(100);
    assert!(!store.should_rescan(105));
    assert!(store.should_rescan(110));
    store.force_rescan();
    assert!(store.should_rescan(101));
    // A failed stem is remembered and not retried.
    assert!(!store.is_known_failed(&b"deadbeef".to_vec()));
    store.note_failed(b"deadbeef".to_vec());
    assert!(store.is_known_failed(&b"deadbeef".to_vec()));
    assert!(!store.is_known_failed(&b"cafe".to_vec()));
}

#[test]
fn test_content_read_twice_equal() {
    // Two reads of one stored node hand back the same bytes.
    let mut log = IndexedLogDataStore::new();
    let delta = Delta { data: vec![9, 8, 7], base: None, key: key("a", "1") };
    log.add(&delta, &Metadata::default()).unwrap();
    let shards = log.close();
    let log = IndexedLogDataStore::open(shards).unwrap();
    let first = log.get_delta(&key("a", "1")).unwrap().data;
    let second = log.get_delta(&key("a", "1")).unwrap().data;
    assert_eq!(first, second);
    assert_eq!(first, vec![9, 8, 7]);
}
