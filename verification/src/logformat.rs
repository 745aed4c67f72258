use vstd::prelude::*;

use crate::codec::{be16, be16_val, be64, be64_val, lemma_be16_roundtrip, lemma_be64_roundtrip,
    push_be16, push_be64, push_bytes, read_be16, read_be64, read_bytes};
use crate::metadata::{lemma_meta_roundtrip, meta_entries_wf, meta_parse, meta_ser, parse_meta,
    serialize_meta, Metadata};
use crate::types::{is_node, Key, KeyV, StoreError};

verus! {

// The entry encoding of the indexed rotating log: node, path, metadata and
// the LZ4-compressed payload, each in sequence. The node stands first so the
// primary index can key entries by their leading bytes.

/// One log entry as the format sees it.
#[verifier::ext_equal]
pub struct EntryV {
    pub key: KeyV,
    pub meta: Seq<(u8, Seq<u8>)>,
    pub compressed: Seq<u8>,
}

impl EntryV {
    pub open spec fn wf(self) -> bool {
        &&& self.key.wf()
        &&& meta_entries_wf(self.meta)
        &&& self.compressed.len() <= 0xFFFF_FFFF_FFFF_FFFFu64
    }
}

pub open spec fn entry_ser(e: EntryV) -> Seq<u8> {
    e.key.node + be16(e.key.path.len() as u16) + e.key.path + meta_ser(e.meta) + be64(
        e.compressed.len() as u64,
    ) + e.compressed
}

/// Parse one entry at `pos`; yields the entry and the position just past it.
pub open spec fn entry_parse(s: Seq<u8>, pos: int) -> Option<(EntryV, int)> {
    if pos < 0 || pos + 22 > s.len() {
        None
    } else {
        let node = s.subrange(pos, pos + 20);
        let plen = be16_val(s.subrange(pos + 20, pos + 22)) as int;
        if pos + 22 + plen > s.len() {
            None
        } else {
            let path = s.subrange(pos + 22, pos + 22 + plen);
            match meta_parse(s, pos + 22 + plen) {
                None => None,
                Some((meta, p2)) => {
                    if p2 + 8 > s.len() {
                        None
                    } else {
                        let clen = be64_val(s.subrange(p2, p2 + 8)) as int;
                        if p2 + 8 + clen > s.len() {
                            None
                        } else {
                            let compressed = s.subrange(p2 + 8, p2 + 8 + clen);
                            Some(
                                (EntryV { key: KeyV { path, node }, meta, compressed },
                                p2 + 8 + clen),
                            )
                        }
                    }
                },
            }
        }
    }
}

/// A byte sequence has `w` as its window at `pos`.
pub open spec fn has_window(s: Seq<u8>, pos: int, w: Seq<u8>) -> bool {
    &&& 0 <= pos
    &&& pos + w.len() <= s.len()
    &&& s.subrange(pos, pos + w.len()) == w
}

pub proof fn lemma_window_index(s: Seq<u8>, pos: int, w: Seq<u8>, j: int)
    requires
        has_window(s, pos, w),
        0 <= j < w.len(),
    ensures
        s[pos + j] == w[j],
{
    assert(s.subrange(pos, pos + w.len())[j] == s[pos + j]);
}

pub proof fn lemma_sub_window(s: Seq<u8>, pos: int, w: Seq<u8>, lo: int, hi: int)
    requires
        has_window(s, pos, w),
        0 <= lo <= hi <= w.len(),
    ensures
        has_window(s, pos + lo, w.subrange(lo, hi)),
{
    assert(s.subrange(pos + lo, pos + lo + (hi - lo)) =~= w.subrange(lo, hi)) by {
        assert forall|j: int| 0 <= j < hi - lo implies #[trigger] s.subrange(
            pos + lo,
            pos + lo + (hi - lo),
        )[j] == w.subrange(lo, hi)[j] by {
            assert(s.subrange(pos + lo, pos + lo + (hi - lo))[j] == s[pos + lo + j]);
            lemma_window_index(s, pos, w, lo + j);
        }
    }
}

/// Parsing one entry reads back exactly what serialization wrote, wherever
/// the entry stands inside a larger byte sequence.
pub proof fn lemma_entry_roundtrip(s: Seq<u8>, pos: int, e: EntryV)
    requires
        e.wf(),
        has_window(s, pos, entry_ser(e)),
    ensures
        entry_parse(s, pos) == Some((e, pos + entry_ser(e).len())),
{
    let w = entry_ser(e);
    let node = e.key.node;
    let path = e.key.path;
    let ms = meta_ser(e.meta);
    let plen = path.len() as int;
    let mpos = pos + 22 + plen;
    lemma_be16_roundtrip(path.len() as u16);
    lemma_be64_roundtrip(e.compressed.len() as u64);
    assert(node.len() == 20);
    assert(w == node + be16(path.len() as u16) + path + ms + be64(e.compressed.len() as u64)
        + e.compressed);
    assert(w.len() == 22 + plen + ms.len() + 8 + e.compressed.len());
    lemma_sub_window(s, pos, w, 0, 20);
    assert(w.subrange(0, 20) =~= node);
    assert(s.subrange(pos, pos + 20) == node);
    lemma_sub_window(s, pos, w, 20, 22);
    assert(w.subrange(20, 22) =~= be16(path.len() as u16));
    assert(s.subrange(pos + 20, pos + 22) == be16(path.len() as u16));
    lemma_sub_window(s, pos, w, 22, 22 + plen);
    assert(w.subrange(22, 22 + plen) =~= path);
    assert(s.subrange(pos + 22, pos + 22 + plen) == path);
    // The metadata window.
    lemma_sub_window(s, pos, w, 22 + plen, 22 + plen + ms.len());
    assert(w.subrange(22 + plen, 22 + plen + ms.len()) =~= ms);
    lemma_meta_roundtrip(s, mpos, e.meta);
    assert(meta_parse(s, mpos) == Some((e.meta, mpos + ms.len())));
    let p2 = mpos + ms.len();
    // The payload length and the payload.
    lemma_sub_window(s, pos, w, 22 + plen + ms.len(), 22 + plen + ms.len() + 8);
    assert(w.subrange(22 + plen + ms.len(), 22 + plen + ms.len() + 8) =~= be64(
        e.compressed.len() as u64,
    ));
    assert(s.subrange(p2, p2 + 8) == be64(e.compressed.len() as u64));
    lemma_sub_window(s, pos, w, 22 + plen + ms.len() + 8, w.len() as int);
    assert(w.subrange(22 + plen + ms.len() + 8, w.len() as int) =~= e.compressed);
    assert(s.subrange(p2 + 8, p2 + 8 + e.compressed.len()) == e.compressed);
    assert(entry_parse(s, pos) == Some((e, p2 + 8 + e.compressed.len()))) by {
        let parsed_key = KeyV { path: s.subrange(pos + 22, pos + 22 + plen), node: s.subrange(pos, pos + 20) };
        assert(parsed_key =~= e.key);
        let parsed = EntryV {
            key: parsed_key,
            meta: e.meta,
            compressed: s.subrange(p2 + 8, p2 + 8 + e.compressed.len()),
        };
        assert(parsed =~= e);
    }
}

/// A successful entry parse consumes exactly the entry's serialization, and
/// yields a well-formed entry.
pub proof fn lemma_entry_parse_window(s: Seq<u8>, pos: int, e: EntryV, end: int)
    requires
        entry_parse(s, pos) == Some((e, end)),
    ensures
        0 <= pos < end <= s.len(),
        entry_ser(e) == s.subrange(pos, end),
        e.wf(),
{
    let node = s.subrange(pos, pos + 20);
    let plen = be16_val(s.subrange(pos + 20, pos + 22)) as int;
    let path = s.subrange(pos + 22, pos + 22 + plen);
    let mpos = pos + 22 + plen;
    let meta_pair = meta_parse(s, mpos)->Some_0;
    let meta = meta_pair.0;
    let p2 = meta_pair.1;
    let clen = be64_val(s.subrange(p2, p2 + 8)) as int;
    crate::metadata::lemma_meta_parse_window(s, mpos, meta, p2);
    assert(e.key.node == node);
    assert(e.key.path == path);
    assert(e.meta == meta);
    assert(e.compressed == s.subrange(p2 + 8, p2 + 8 + clen));
    assert(end == p2 + 8 + clen);
    crate::codec::lemma_be16_inverse(s.subrange(pos + 20, pos + 22));
    crate::codec::lemma_be64_inverse(s.subrange(p2, p2 + 8));
    assert(be16(e.key.path.len() as u16) == s.subrange(pos + 20, pos + 22)) by {
        assert(e.key.path.len() == plen);
    }
    assert(be64(e.compressed.len() as u64) == s.subrange(p2, p2 + 8)) by {
        assert(e.compressed.len() == clen);
    }
    crate::codec::lemma_subrange_concat(s, pos, pos + 20, pos + 22);
    crate::codec::lemma_subrange_concat(s, pos, pos + 22, mpos);
    crate::codec::lemma_subrange_concat(s, pos, mpos, p2);
    crate::codec::lemma_subrange_concat(s, pos, p2, p2 + 8);
    crate::codec::lemma_subrange_concat(s, pos, p2 + 8, end);
    assert(entry_ser(e) =~= s.subrange(pos, end));
    assert(e.wf()) by {
        assert(e.key.node.len() == 20);
        assert(e.key.path.len() <= 0xFFFF);
        assert(e.compressed.len() <= 0xFFFF_FFFF_FFFF_FFFFu64);
    }
}

/// Serialization of a sequence of entries, one after the other.
pub open spec fn entries_ser(es: Seq<EntryV>) -> Seq<u8>
    decreases es.len(),
{
    if es.len() == 0 {
        Seq::empty()
    } else {
        entries_ser(es.drop_last()) + entry_ser(es.last())
    }
}

pub open spec fn entries_wf(es: Seq<EntryV>) -> bool {
    forall|i: int| 0 <= i < es.len() ==> (#[trigger] es[i]).wf()
}

/// Parse entries from `pos` to the very end of the sequence.
pub open spec fn entries_parse(s: Seq<u8>, pos: int) -> Option<Seq<EntryV>>
    decreases s.len() - pos
        when 0 <= pos <= s.len()
{
    if pos == s.len() {
        Some(Seq::empty())
    } else {
        match entry_parse(s, pos) {
            None => None,
            Some((e, p2)) => {
                if p2 <= pos || p2 > s.len() {
                    None
                } else {
                    match entries_parse(s, p2) {
                        None => None,
                        Some(rest) => Some(seq![e] + rest),
                    }
                }
            },
        }
    }
}

/// Parsing a whole serialized shard reads back exactly the entries written.
pub proof fn lemma_entries_roundtrip(s: Seq<u8>, pos: int, es: Seq<EntryV>)
    requires
        entries_wf(es),
        0 <= pos,
        pos + entries_ser(es).len() == s.len(),
        s.subrange(pos, s.len() as int) == entries_ser(es),
    ensures
        entries_parse(s, pos) == Some(es),
    decreases es.len(),
{
    let ser = entries_ser(es);
    if es.len() == 0 {
        assert(ser.len() == 0);
    } else {
        // Front-to-back unfolding: the serialization groups at the back, so
        // first restate it front-first.
        lemma_entries_ser_front(es);
        let e = es[0];
        let head = entry_ser(e);
        let tail = entries_ser(es.drop_first());
        assert(ser == head + tail);
        assert(has_window(s, pos, head)) by {
            assert(s.subrange(pos, pos + head.len()) =~= head) by {
                assert forall|j: int| 0 <= j < head.len() implies #[trigger] s.subrange(
                    pos,
                    pos + head.len(),
                )[j] == head[j] by {
                    assert(s.subrange(pos, pos + head.len())[j] == s[pos + j]);
                    assert(s[pos + j] == s.subrange(pos, s.len() as int)[j]);
                    assert(ser[j] == (head + tail)[j]);
                }
            }
        }
        assert(es[0].wf());
        lemma_entry_roundtrip(s, pos, e);
        let p2 = pos + head.len();
        assert(s.subrange(p2, s.len() as int) =~= tail) by {
            assert forall|j: int| 0 <= j < tail.len() implies #[trigger] s.subrange(
                p2,
                s.len() as int,
            )[j] == tail[j] by {
                assert(s.subrange(p2, s.len() as int)[j] == s[p2 + j]);
                assert(s[p2 + j] == s.subrange(pos, s.len() as int)[head.len() + j]);
                assert(ser[head.len() + j] == (head + tail)[head.len() + j]);
            }
        }
        assert(entries_wf(es.drop_first())) by {
            assert(forall|i: int|
                0 <= i < es.drop_first().len() ==> #[trigger] es.drop_first()[i] == es[i + 1]);
        }
        lemma_entries_roundtrip(s, p2, es.drop_first());
        assert(head.len() >= 22);
        assert(seq![e] + es.drop_first() =~= es);
    }
}

/// entries_ser grouped from the front instead of the back.
pub proof fn lemma_entries_ser_front(es: Seq<EntryV>)
    requires
        es.len() > 0,
    ensures
        entries_ser(es) == entry_ser(es[0]) + entries_ser(es.drop_first()),
    decreases es.len(),
{
    if es.len() == 1 {
        assert(es.drop_last() =~= Seq::<EntryV>::empty());
        assert(es.drop_first() =~= Seq::<EntryV>::empty());
        assert(entries_ser(es) =~= entry_ser(es[0]) + entries_ser(es.drop_first()));
    } else {
        lemma_entries_ser_front(es.drop_last());
        assert(es.drop_last()[0] == es[0]);
        assert(es.drop_last().drop_first() =~= es.drop_first().drop_last());
        assert(es.drop_first().last() == es.last());
        assert(entries_ser(es) == entries_ser(es.drop_last()) + entry_ser(es.last()));
        assert(entry_ser(es[0]) + (entries_ser(es.drop_first().drop_last()) + entry_ser(
            es.drop_first().last(),
        )) =~= (entry_ser(es[0]) + entries_ser(es.drop_first().drop_last())) + entry_ser(
            es.last(),
        ));
    }
}

/// Serialize one entry from its parts.
pub fn encode_entry(key: &Key, meta: &Metadata, compressed: &Vec<u8>) -> (r: Vec<u8>)
    requires
        key.wf(),
        meta.wf(),
    ensures
        r@ == entry_ser(EntryV { key: key@, meta: meta@, compressed: compressed@ }),
        r@.len() >= 22,
{
    let mut buf: Vec<u8> = Vec::new();
    push_bytes(&mut buf, &key.node);
    push_be16(&mut buf, key.path.len() as u16);
    push_bytes(&mut buf, &key.path);
    let ms = serialize_meta(meta);
    push_bytes(&mut buf, &ms);
    push_be64(&mut buf, compressed.len() as u64);
    push_bytes(&mut buf, compressed);
    proof {
        assert(buf@ =~= entry_ser(EntryV { key: key@, meta: meta@, compressed: compressed@ }));
    }
    buf
}

/// Parse one entry at `pos`. Succeeds exactly when the spec-level parse does.
pub fn parse_entry(buf: &Vec<u8>, pos: usize) -> (r: Result<(Key, Metadata, Vec<u8>, usize), StoreError>)
    ensures
        match r {
            Ok((key, meta, compressed, end)) => {
                &&& entry_parse(buf@, pos as int) == Some(
                    (EntryV { key: key@, meta: meta@, compressed: compressed@ }, end as int),
                )
                &&& key.wf()
                &&& meta.wf()
                &&& pos < end <= buf@.len()
            },
            Err(_) => entry_parse(buf@, pos as int) is None,
        },
{
    let n = buf.len();
    if pos >= n || n - pos < 22 {
        return Err(StoreError::Corrupt);
    }
    let node = read_bytes(buf, pos, 20);
    let plen = read_be16(buf, pos + 20) as usize;
    if plen > n - (pos + 22) {
        return Err(StoreError::Corrupt);
    }
    let path = read_bytes(buf, pos + 22, plen);
    let (meta, p2) = match parse_meta(buf, pos + 22 + plen) {
        Ok(x) => x,
        Err(e) => {
            return Err(e);
        },
    };
    if n - p2 < 8 {
        return Err(StoreError::Corrupt);
    }
    let clen64 = read_be64(buf, p2);
    if clen64 > (n - (p2 + 8)) as u64 {
        return Err(StoreError::Corrupt);
    }
    let clen = clen64 as usize;
    let compressed = read_bytes(buf, p2 + 8, clen);
    let key = Key { path, node };
    proof {
        assert(is_node(key.node@));
        assert(key@.path.len() <= 0xFFFF);
    }
    Ok((key, meta, compressed, p2 + 8 + clen))
}

} // verus!
