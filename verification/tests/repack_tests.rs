use revisionstore::datapack::DataPack;
use revisionstore::metadata::Metadata;
use revisionstore::mutabledatapack::MutableDataPack;
use revisionstore::packstore::compute_store_size;
use revisionstore::historypack::{HistEntry, HistSection, HistoryPack};
use revisionstore::repack::{filter_incrementalpacks, list_packs, repack_datapacks,
    repack_historypacks};
use revisionstore::types::{Delta, Key};

fn node(seed: &str) -> Vec<u8> {
    let mut n = seed.as_bytes().to_vec();
    while n.len() < 20 {
        n.push(0);
    }
    n.truncate(20);
    n
}

fn key(path: &str, seed: &str) -> Key {
    Key { path: path.as_bytes().to_vec(), node: node(seed) }
}

const MIB: u64 = 1024 * 1024;

#[test]
fn test_incremental_filter_small_packs_selected() {
    let packs: Vec<(Vec<u8>, u64)> = vec![
        (b"p10".to_vec(), 10 * MIB),
        (b"p20".to_vec(), 20 * MIB),
        (b"p30".to_vec(), 30 * MIB),
        (b"p500".to_vec(), 500 * MIB),
        (b"p600".to_vec(), 600 * MIB),
    ];
    let sel = filter_incrementalpacks(&packs);
    let names: Vec<&[u8]> = sel.iter().map(|(n, _)| n.as_slice()).collect();
    assert_eq!(names, vec![b"p10".as_slice(), b"p20".as_slice(), b"p30".as_slice()]);
}

#[test]
fn test_incremental_filter_many_small() {
    let packs: Vec<(Vec<u8>, u64)> = vec![
        (b"a".to_vec(), 10 * MIB),
        (b"b".to_vec(), 10 * MIB),
        (b"c".to_vec(), 10 * MIB),
        (b"d".to_vec(), 10 * MIB),
        (b"e".to_vec(), 10 * MIB),
        (b"big".to_vec(), 500 * MIB),
    ];
    let sel = filter_incrementalpacks(&packs);
    let names: Vec<&[u8]> = sel.iter().map(|(n, _)| n.as_slice()).collect();
    assert_eq!(
        names,
        vec![b"a".as_slice(), b"b".as_slice(), b"c".as_slice(), b"d".as_slice(), b"e".as_slice()]
    );
}

#[test]
fn test_incremental_filter_all_huge_is_noop() {
    let packs: Vec<(Vec<u8>, u64)> =
        vec![(b"x".to_vec(), 500 * MIB), (b"y".to_vec(), 600 * MIB)];
    let sel = filter_incrementalpacks(&packs);
    assert!(sel.is_empty());
}

fn one_key_pack(path: &str, seed: &str, data: &[u8]) -> DataPack {
    let mut builder = MutableDataPack::new();
    let delta = Delta { data: data.to_vec(), base: None, key: key(path, seed) };
    builder.add(&delta, &Metadata::default()).unwrap();
    let (pb, ib, _) = builder.finalize().unwrap();
    DataPack::open(&pb, &ib).unwrap()
}

#[test]
fn test_repack_dedups_and_keeps_first() {
    let p1 = one_key_pack("a", "1", b"first");
    let p2 = one_key_pack("a", "1", b"second");
    let p3 = one_key_pack("b", "2", b"other");
    let packs = vec![p1, p2, p3];
    let (pb, ib, _name) = repack_datapacks(&packs).unwrap();
    let merged = DataPack::open(&pb, &ib).unwrap();
    // Every key present, the duplicate kept once with the first occurrence.
    assert_eq!(merged.records.len(), 2);
    assert_eq!(merged.get_delta(&key("a", "1")).unwrap().data, b"first".to_vec());
    assert_eq!(merged.get_delta(&key("b", "2")).unwrap().data, b"other".to_vec());
}

#[test]
fn test_repack_deterministic() {
    let packs1 = vec![one_key_pack("a", "1", b"x"), one_key_pack("b", "2", b"y")];
    let packs2 = vec![one_key_pack("a", "1", b"x"), one_key_pack("b", "2", b"y")];
    let (pb1, ib1, n1) = repack_datapacks(&packs1).unwrap();
    let (pb2, ib2, n2) = repack_datapacks(&packs2).unwrap();
    assert_eq!(pb1, pb2);
    assert_eq!(ib1, ib2);
    assert_eq!(n1, n2);
}

#[test]
fn test_list_packs_filters_extension() {
    let names: Vec<Vec<u8>> = vec![
        b"aa.datapack".to_vec(),
        b"aa.dataidx".to_vec(),
        b"bb.datapack".to_vec(),
        b"junk.txt".to_vec(),
        b"datapack".to_vec(),
    ];
    let picked = list_packs(&names, &b"datapack".to_vec());
    assert_eq!(picked, vec![b"aa.datapack".to_vec(), b"bb.datapack".to_vec()]);
}

#[test]
fn test_compute_store_size() {
    let files: Vec<(Vec<u8>, u64)> = vec![
        (b"aa.datapack".to_vec(), 100),
        (b"aa.dataidx".to_vec(), 20),
        (b"bb.datapack".to_vec(), 300),
        (b"bb.dataidx".to_vec(), 40),
        (b"noise.log".to_vec(), 999),
    ];
    let (count, size) = compute_store_size(&files, &b"datapack".to_vec(), &b"dataidx".to_vec());
    assert_eq!(count, 2);
    assert_eq!(size, 460);
}

#[test]
fn test_pack_name_is_index_digest_hex() {
    let mut builder = MutableDataPack::new();
    let delta = Delta { data: vec![7], base: None, key: key("a", "1") };
    builder.add(&delta, &Metadata::default()).unwrap();
    let (_pb, ib, name) = builder.finalize().unwrap();
    // The name is the hex of the index file's own trailing digest, which is
    // the digest of everything before it.
    let trailing = ib[ib.len() - 20..].to_vec();
    assert_eq!(name, revisionstore::hashing::to_hex(&trailing));
    let body = ib[..ib.len() - 20].to_vec();
    assert_eq!(trailing, revisionstore::hashing::sha1_digest(&body));
}

#[test]
fn test_repack_historypacks_dedups() {
    let entry = |seed: &str, link: &str| HistEntry {
        node: node(seed),
        p1: vec![0; 20],
        p2: vec![0; 20],
        link: node(link),
        copyfrom: None,
    };
    let pack_of = |path: &str, seed: &str, link: &str| {
        let sections = vec![HistSection {
            path: path.as_bytes().to_vec(),
            entries: vec![entry(seed, link)],
        }];
        let bytes = revisionstore::historypack::serialize_hist(&sections);
        HistoryPack::open(&bytes).unwrap()
    };
    let p1 = pack_of("a", "1", "first");
    let p2 = pack_of("a", "1", "second");
    let p3 = pack_of("b", "2", "other");
    let (pb, _ib, _nm) = repack_historypacks(&vec![p1, p2, p3]).unwrap();
    let merged = HistoryPack::open(&pb).unwrap();
    assert_eq!(merged.sections.len(), 2);
    let info = merged.get_node_info(&key("a", "1")).unwrap();
    assert_eq!(info.linknode, node("first"));
    assert!(merged.get_node_info(&key("b", "2")).is_ok());
}
