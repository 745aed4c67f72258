use vstd::prelude::*;

use crate::codec::{be16, be16_val, be32, be32_val, be64, be64_val, lemma_be16_inverse,
    lemma_be16_roundtrip, lemma_be32_inverse, lemma_be32_roundtrip, lemma_be64_inverse,
    lemma_be64_roundtrip, lemma_subrange_concat, push_be16, push_be32, push_be64, push_bytes,
    read_be16, read_be32, read_be64, read_bytes};
use crate::metadata::{lemma_meta_parse_window, lemma_meta_roundtrip, meta_entries_wf, meta_parse,
    meta_ser, parse_meta, serialize_meta, Metadata};
use crate::types::{is_node, is_path, Key, StoreError};

verus! {

// The data-pack record format: path, node, base node, payload and metadata,
// one record after the other behind a single version byte.

/// The version byte of a data pack.
pub const DATAPACK_VERSION: u8 = 1;

/// One data record as the format sees it.
#[verifier::ext_equal]
pub struct DataRecordV {
    pub path: Seq<u8>,
    pub node: Seq<u8>,
    pub base_node: Seq<u8>,
    pub data: Seq<u8>,
    pub meta: Seq<(u8, Seq<u8>)>,
}

impl DataRecordV {
    pub open spec fn wf(self) -> bool {
        &&& is_path(self.path)
        &&& is_node(self.node)
        &&& is_node(self.base_node)
        &&& self.data.len() <= 0xFFFF_FFFF_FFFF_FFFFu64
        &&& meta_entries_wf(self.meta)
        &&& meta_ser(self.meta).len() <= 0xFFFF_FFFFu32
    }
}

/// One data record held by a reader or builder.
pub struct DataRecord {
    pub path: Vec<u8>,
    pub node: Vec<u8>,
    pub base_node: Vec<u8>,
    pub data: Vec<u8>,
    pub meta: Metadata,
}

impl View for DataRecord {
    type V = DataRecordV;

    open spec fn view(&self) -> DataRecordV {
        DataRecordV {
            path: self.path@,
            node: self.node@,
            base_node: self.base_node@,
            data: self.data@,
            meta: self.meta@,
        }
    }
}

pub open spec fn record_ser(r: DataRecordV) -> Seq<u8> {
    be16(r.path.len() as u16) + r.path + r.node + r.base_node + be64(r.data.len() as u64) + r.data
        + be32(meta_ser(r.meta).len() as u32) + meta_ser(r.meta)
}

/// Parse one record at `pos`; yields the record and the position just past
/// it.
pub open spec fn record_parse(s: Seq<u8>, pos: int) -> Option<(DataRecordV, int)> {
    if pos < 0 || pos + 2 > s.len() {
        None
    } else {
        let plen = be16_val(s.subrange(pos, pos + 2)) as int;
        if pos + 2 + plen + 40 + 8 > s.len() {
            None
        } else {
            let path = s.subrange(pos + 2, pos + 2 + plen);
            let node = s.subrange(pos + 2 + plen, pos + 2 + plen + 20);
            let base_node = s.subrange(pos + 2 + plen + 20, pos + 2 + plen + 40);
            let dpos = pos + 2 + plen + 40;
            let dlen = be64_val(s.subrange(dpos, dpos + 8)) as int;
            if dpos + 8 + dlen + 4 > s.len() {
                None
            } else {
                let data = s.subrange(dpos + 8, dpos + 8 + dlen);
                let mpos = dpos + 8 + dlen + 4;
                let mlen = be32_val(s.subrange(dpos + 8 + dlen, mpos)) as int;
                if mpos + mlen > s.len() {
                    None
                } else {
                    match meta_parse(s, mpos) {
                        None => None,
                        Some((meta, mend)) => {
                            if mend != mpos + mlen {
                                None
                            } else {
                                Some(
                                    (DataRecordV { path, node, base_node, data, meta }, mend),
                                )
                            }
                        },
                    }
                }
            }
        }
    }
}

/// Parsing one record reads back exactly what serialization wrote.
pub proof fn lemma_record_roundtrip(s: Seq<u8>, pos: int, r: DataRecordV)
    requires
        r.wf(),
        0 <= pos,
        pos + record_ser(r).len() <= s.len(),
        s.subrange(pos, pos + record_ser(r).len()) == record_ser(r),
    ensures
        record_parse(s, pos) == Some((r, pos + record_ser(r).len())),
{
    let w = record_ser(r);
    let plen = r.path.len() as int;
    let ms = meta_ser(r.meta);
    let dlen = r.data.len() as int;
    lemma_be16_roundtrip(r.path.len() as u16);
    lemma_be64_roundtrip(r.data.len() as u64);
    lemma_be32_roundtrip(ms.len() as u32);
    assert(w.len() == 2 + plen + 40 + 8 + dlen + 4 + ms.len());
    let dpos = pos + 2 + plen + 40;
    let mpos = dpos + 8 + dlen + 4;
    assert forall|lo: int, hi: int|
        0 <= lo <= hi <= w.len() implies #[trigger] s.subrange(pos + lo, pos + hi) =~= w.subrange(
        lo,
        hi,
    ) by {
        assert forall|j: int| 0 <= j < hi - lo implies #[trigger] s.subrange(pos + lo, pos + hi)[j]
            == w.subrange(lo, hi)[j] by {
            assert(s.subrange(pos + lo, pos + hi)[j] == s[pos + lo + j]);
            assert(s.subrange(pos, pos + w.len())[lo + j] == s[pos + lo + j]);
        }
    }
    assert(w.subrange(0, 2) =~= be16(r.path.len() as u16));
    assert(w.subrange(2, 2 + plen) =~= r.path);
    assert(w.subrange(2 + plen, 2 + plen + 20) =~= r.node);
    assert(w.subrange(2 + plen + 20, 2 + plen + 40) =~= r.base_node);
    assert(w.subrange(2 + plen + 40, 2 + plen + 48) =~= be64(r.data.len() as u64));
    assert(w.subrange(2 + plen + 48, 2 + plen + 48 + dlen) =~= r.data);
    assert(w.subrange(2 + plen + 48 + dlen, 2 + plen + 52 + dlen) =~= be32(ms.len() as u32));
    assert(w.subrange(2 + plen + 52 + dlen, w.len() as int) =~= ms);
    assert(s.subrange(pos, pos + 2) == be16(r.path.len() as u16));
    assert(s.subrange(pos + 2, pos + 2 + plen) == r.path);
    assert(s.subrange(pos + 2 + plen, pos + 2 + plen + 20) == r.node);
    assert(s.subrange(pos + 2 + plen + 20, pos + 2 + plen + 40) == r.base_node);
    assert(s.subrange(dpos, dpos + 8) == be64(r.data.len() as u64));
    assert(s.subrange(dpos + 8, dpos + 8 + dlen) == r.data);
    assert(s.subrange(dpos + 8 + dlen, mpos) == be32(ms.len() as u32));
    assert(s.subrange(mpos, pos + w.len()) == ms);
    lemma_meta_roundtrip(s, mpos, r.meta);
    assert(record_parse(s, pos) == Some((r, pos + w.len()))) by {
        let parsed = DataRecordV {
            path: s.subrange(pos + 2, pos + 2 + plen),
            node: s.subrange(pos + 2 + plen, pos + 2 + plen + 20),
            base_node: s.subrange(pos + 2 + plen + 20, pos + 2 + plen + 40),
            data: s.subrange(dpos + 8, dpos + 8 + dlen),
            meta: r.meta,
        };
        assert(parsed =~= r);
    }
}

/// A successful record parse consumes exactly the record's serialization,
/// and yields a well-formed record.
pub proof fn lemma_record_parse_window(s: Seq<u8>, pos: int, r: DataRecordV, end: int)
    requires
        record_parse(s, pos) == Some((r, end)),
    ensures
        0 <= pos < end <= s.len(),
        record_ser(r) == s.subrange(pos, end),
        r.wf(),
{
    let plen = be16_val(s.subrange(pos, pos + 2)) as int;
    let dpos = pos + 2 + plen + 40;
    let dlen = be64_val(s.subrange(dpos, dpos + 8)) as int;
    let mpos = dpos + 8 + dlen + 4;
    let mlen = be32_val(s.subrange(dpos + 8 + dlen, mpos)) as int;
    let meta_pair = meta_parse(s, mpos)->Some_0;
    lemma_meta_parse_window(s, mpos, meta_pair.0, meta_pair.1);
    assert(r.meta == meta_pair.0);
    assert(end == meta_pair.1);
    assert(meta_ser(r.meta) == s.subrange(mpos, end));
    lemma_be16_inverse(s.subrange(pos, pos + 2));
    lemma_be64_inverse(s.subrange(dpos, dpos + 8));
    lemma_be32_inverse(s.subrange(dpos + 8 + dlen, mpos));
    assert(r.path.len() == plen);
    assert(r.data.len() == dlen);
    assert(meta_ser(r.meta).len() == end - mpos);
    assert(end - mpos == mlen);
    assert(be16(r.path.len() as u16) == s.subrange(pos, pos + 2));
    assert(be64(r.data.len() as u64) == s.subrange(dpos, dpos + 8));
    assert(be32(meta_ser(r.meta).len() as u32) == s.subrange(dpos + 8 + dlen, mpos)) by {
        assert(mlen <= 0xFFFF_FFFFu32);
    }
    lemma_subrange_concat(s, pos, pos + 2, pos + 2 + plen);
    lemma_subrange_concat(s, pos, pos + 2 + plen, pos + 2 + plen + 20);
    lemma_subrange_concat(s, pos, pos + 2 + plen + 20, dpos);
    lemma_subrange_concat(s, pos, dpos, dpos + 8);
    lemma_subrange_concat(s, pos, dpos + 8, dpos + 8 + dlen);
    lemma_subrange_concat(s, pos, dpos + 8 + dlen, mpos);
    lemma_subrange_concat(s, pos, mpos, end);
    assert(record_ser(r) =~= s.subrange(pos, end));
    assert(r.wf());
}

/// The records of a pack with the byte offset each one starts at.
pub open spec fn pairs_of(rs: Seq<DataRecordV>, pos: int) -> Seq<(int, DataRecordV)>
    decreases rs.len(),
{
    if rs.len() == 0 {
        Seq::empty()
    } else {
        seq![(pos, rs[0])] + pairs_of(rs.drop_first(), pos + record_ser(rs[0]).len())
    }
}

/// Parse records from `pos` to the very end, recording their offsets.
pub open spec fn records_parse(s: Seq<u8>, pos: int) -> Option<Seq<(int, DataRecordV)>>
    decreases s.len() - pos
        when 0 <= pos <= s.len()
{
    if pos == s.len() {
        Some(Seq::empty())
    } else {
        match record_parse(s, pos) {
            None => None,
            Some((r, p2)) => {
                if p2 <= pos || p2 > s.len() {
                    None
                } else {
                    match records_parse(s, p2) {
                        None => None,
                        Some(rest) => Some(seq![(pos, r)] + rest),
                    }
                }
            },
        }
    }
}

/// The whole pack: a version byte, then records to the end of the file.
pub open spec fn pack_ser(rs: Seq<DataRecordV>) -> Seq<u8>
    decreases rs.len(),
{
    if rs.len() == 0 {
        seq![DATAPACK_VERSION]
    } else {
        pack_ser(rs.drop_last()) + record_ser(rs.last())
    }
}

pub open spec fn pack_parse(s: Seq<u8>) -> Option<Seq<(int, DataRecordV)>> {
    if s.len() >= 1 && s[0] == DATAPACK_VERSION {
        records_parse(s, 1)
    } else {
        None
    }
}

pub open spec fn records_wf(rs: Seq<DataRecordV>) -> bool {
    forall|i: int| 0 <= i < rs.len() ==> (#[trigger] rs[i]).wf()
}

/// pack_ser grouped from the front.
pub proof fn lemma_pack_ser_front(rs: Seq<DataRecordV>)
    requires
        rs.len() > 0,
    ensures
        pack_ser(rs) == seq![DATAPACK_VERSION] + records_ser(rs),
    decreases rs.len(),
{
    if rs.len() == 1 {
        assert(rs.drop_last() =~= Seq::<DataRecordV>::empty());
        assert(records_ser(rs) == records_ser(rs.drop_last()) + record_ser(rs.last()));
        assert(records_ser(rs.drop_last()) =~= Seq::<u8>::empty());
        assert(pack_ser(rs) =~= seq![DATAPACK_VERSION] + records_ser(rs));
    } else {
        lemma_pack_ser_front(rs.drop_last());
        assert(pack_ser(rs) == pack_ser(rs.drop_last()) + record_ser(rs.last()));
        assert(records_ser(rs) == records_ser(rs.drop_last()) + record_ser(rs.last()));
        assert((seq![DATAPACK_VERSION] + records_ser(rs.drop_last())) + record_ser(rs.last())
            =~= seq![DATAPACK_VERSION] + records_ser(rs));
    }
}

/// Serialization of the records alone, one after the other.
pub open spec fn records_ser(rs: Seq<DataRecordV>) -> Seq<u8>
    decreases rs.len(),
{
    if rs.len() == 0 {
        Seq::empty()
    } else {
        records_ser(rs.drop_last()) + record_ser(rs.last())
    }
}

/// records_ser grouped from the front.
pub proof fn lemma_records_ser_front(rs: Seq<DataRecordV>)
    requires
        rs.len() > 0,
    ensures
        records_ser(rs) == record_ser(rs[0]) + records_ser(rs.drop_first()),
    decreases rs.len(),
{
    if rs.len() == 1 {
        assert(rs.drop_last() =~= Seq::<DataRecordV>::empty());
        assert(rs.drop_first() =~= Seq::<DataRecordV>::empty());
        assert(records_ser(rs) =~= record_ser(rs[0]) + records_ser(rs.drop_first()));
    } else {
        lemma_records_ser_front(rs.drop_last());
        assert(rs.drop_last()[0] == rs[0]);
        assert(rs.drop_last().drop_first() =~= rs.drop_first().drop_last());
        assert(rs.drop_first().last() == rs.last());
        assert(records_ser(rs) == records_ser(rs.drop_last()) + record_ser(rs.last()));
        assert((record_ser(rs[0]) + records_ser(rs.drop_first().drop_last())) + record_ser(
            rs.last(),
        ) =~= record_ser(rs[0]) + (records_ser(rs.drop_first().drop_last()) + record_ser(
            rs.drop_first().last(),
        )));
    }
}

/// Parsing a whole serialized run of records reads back exactly the records
/// written, at their serialized offsets.
pub proof fn lemma_records_roundtrip(s: Seq<u8>, pos: int, rs: Seq<DataRecordV>)
    requires
        records_wf(rs),
        0 <= pos,
        pos + records_ser(rs).len() == s.len(),
        s.subrange(pos, s.len() as int) == records_ser(rs),
    ensures
        records_parse(s, pos) == Some(pairs_of(rs, pos)),
    decreases rs.len(),
{
    let ser = records_ser(rs);
    if rs.len() == 0 {
        assert(ser.len() == 0);
        assert(pairs_of(rs, pos) =~= Seq::<(int, DataRecordV)>::empty());
    } else {
        lemma_records_ser_front(rs);
        let r = rs[0];
        let head = record_ser(r);
        let tail = records_ser(rs.drop_first());
        assert(ser == head + tail);
        assert(s.subrange(pos, pos + head.len()) =~= head) by {
            assert forall|j: int| 0 <= j < head.len() implies #[trigger] s.subrange(
                pos,
                pos + head.len(),
            )[j] == head[j] by {
                assert(s.subrange(pos, pos + head.len())[j] == s[pos + j]);
                assert(s[pos + j] == s.subrange(pos, s.len() as int)[j]);
                assert(ser[j] == (head + tail)[j]);
            }
        }
        assert(rs[0].wf());
        lemma_record_roundtrip(s, pos, r);
        let p2 = pos + head.len();
        assert(s.subrange(p2, s.len() as int) =~= tail) by {
            assert forall|j: int| 0 <= j < tail.len() implies #[trigger] s.subrange(
                p2,
                s.len() as int,
            )[j] == tail[j] by {
                assert(s.subrange(p2, s.len() as int)[j] == s[p2 + j]);
                assert(s[p2 + j] == s.subrange(pos, s.len() as int)[head.len() + j]);
                assert(ser[head.len() + j] == (head + tail)[head.len() + j]);
            }
        }
        assert(records_wf(rs.drop_first())) by {
            assert(forall|i: int|
                0 <= i < rs.drop_first().len() ==> #[trigger] rs.drop_first()[i] == rs[i + 1]);
        }
        lemma_records_roundtrip(s, p2, rs.drop_first());
        assert(head.len() >= 50);
        assert(seq![(pos, r)] + pairs_of(rs.drop_first(), p2) =~= pairs_of(rs, pos));
    }
}

/// The pack-level round trip: a serialized pack parses back to its records.
pub proof fn lemma_pack_roundtrip(rs: Seq<DataRecordV>)
    requires
        records_wf(rs),
    ensures
        pack_parse(pack_ser(rs)) == Some(pairs_of(rs, 1)),
{
    let s = pack_ser(rs);
    lemma_pack_ser_front_any(rs);
    assert(s == seq![DATAPACK_VERSION] + records_ser(rs));
    assert(s[0] == DATAPACK_VERSION);
    assert(s.subrange(1, s.len() as int) =~= records_ser(rs));
    lemma_records_roundtrip(s, 1, rs);
}

/// pack_ser grouped from the front, covering the empty pack too.
pub proof fn lemma_pack_ser_front_any(rs: Seq<DataRecordV>)
    ensures
        pack_ser(rs) == seq![DATAPACK_VERSION] + records_ser(rs),
{
    if rs.len() == 0 {
        assert(pack_ser(rs) =~= seq![DATAPACK_VERSION] + records_ser(rs));
    } else {
        lemma_pack_ser_front(rs);
    }
}

/// Serialize one record from its parts.
pub fn encode_record(rec: &DataRecord, buf: &mut Vec<u8>) -> (r: Result<(), StoreError>)
    requires
        is_path(rec.path@),
        is_node(rec.node@),
        is_node(rec.base_node@),
        rec.meta.wf(),
    ensures
        match r {
            Ok(()) => rec@.wf() && final(buf)@ == old(buf)@ + record_ser(rec@),
            Err(_) => !rec@.wf() && final(buf)@ == old(buf)@,
        },
{
    let ms = serialize_meta(&rec.meta);
    if ms.len() > 0xFFFF_FFFFusize {
        return Err(StoreError::Invariant);
    }
    push_be16(buf, rec.path.len() as u16);
    push_bytes(buf, &rec.path);
    push_bytes(buf, &rec.node);
    push_bytes(buf, &rec.base_node);
    push_be64(buf, rec.data.len() as u64);
    push_bytes(buf, &rec.data);
    push_be32(buf, ms.len() as u32);
    push_bytes(buf, &ms);
    proof {
        assert(buf@ =~= old(buf)@ + record_ser(rec@));
    }
    Ok(())
}

/// Parse one record at `pos`. Succeeds exactly when the spec-level parse
/// does.
pub fn parse_record(buf: &Vec<u8>, pos: usize) -> (r: Result<(DataRecord, usize), StoreError>)
    ensures
        match r {
            Ok((rec, end)) => record_parse(buf@, pos as int) == Some((rec@, end as int)) && pos
                < end <= buf@.len(),
            Err(_) => record_parse(buf@, pos as int) is None,
        },
{
    let n = buf.len();
    if pos >= n || n - pos < 2 {
        return Err(StoreError::Corrupt);
    }
    let plen = read_be16(buf, pos) as usize;
    if plen > n - pos - 2 || 48 > n - pos - 2 - plen {
        return Err(StoreError::Corrupt);
    }
    let path = read_bytes(buf, pos + 2, plen);
    let node = read_bytes(buf, pos + 2 + plen, 20);
    let base_node = read_bytes(buf, pos + 2 + plen + 20, 20);
    let dpos = pos + 2 + plen + 40;
    let dlen64 = read_be64(buf, dpos);
    if dlen64 > (n - dpos - 8) as u64 || 4 > (n - dpos - 8) as u64 - dlen64 {
        return Err(StoreError::Corrupt);
    }
    let dlen = dlen64 as usize;
    let data = read_bytes(buf, dpos + 8, dlen);
    let mlen = read_be32(buf, dpos + 8 + dlen) as usize;
    let mpos = dpos + 8 + dlen + 4;
    if mlen > n - mpos {
        return Err(StoreError::Corrupt);
    }
    let (meta, mend) = match parse_meta(buf, mpos) {
        Ok(x) => x,
        Err(e) => {
            return Err(e);
        },
    };
    if mend != mpos + mlen {
        return Err(StoreError::Corrupt);
    }
    let rec = DataRecord { path, node, base_node, data, meta };
    Ok((rec, mend))
}

/// The version byte and every record of a pack file, with offsets.
pub fn parse_pack(buf: &Vec<u8>) -> (r: Result<(Vec<DataRecord>, Vec<u64>), StoreError>)
    ensures
        match r {
            Ok((recs, offs)) => {
                &&& pack_parse(buf@) matches Some(prs)
                &&& recs@.len() == offs@.len()
                &&& prs.len() == recs@.len()
                &&& forall|i: int|
                    0 <= i < recs@.len() ==> #[trigger] pack_parse(buf@)->Some_0[i] == (
                    offs@[i] as int,
                    recs@[i]@,
                )
            },
            Err(_) => pack_parse(buf@) is None,
        },
{
    let n = buf.len();
    if n < 1 || buf[0] != DATAPACK_VERSION {
        return Err(StoreError::Corrupt);
    }
    let mut recs: Vec<DataRecord> = Vec::new();
    let mut offs: Vec<u64> = Vec::new();
    let mut pos: usize = 1;
    while pos < n
        invariant
            1 <= pos <= n,
            n == buf@.len(),
            n >= 1,
            buf@[0] == DATAPACK_VERSION,
            recs@.len() == offs@.len(),
            records_parse(buf@, 1) == (match records_parse(buf@, pos as int) {
                Some(rest) => Some(
                    Seq::new(recs@.len(), |i: int| (offs@[i] as int, recs@[i]@)) + rest,
                ),
                None => None,
            }),
        decreases n - pos,
    {
        let (rec, end) = match parse_record(buf, pos) {
            Ok(x) => x,
            Err(e) => {
                return Err(e);
            },
        };
        let ghost prev = Seq::new(recs@.len(), |i: int| (offs@[i] as int, recs@[i]@));
        let ghost rv = rec@;
        let ghost oldpos = pos as int;
        offs.push(pos as u64);
        recs.push(rec);
        pos = end;
        proof {
            let cur = Seq::new(recs@.len(), |i: int| (offs@[i] as int, recs@[i]@));
            assert(cur =~= prev.push((oldpos, rv)));
            match records_parse(buf@, pos as int) {
                Some(rest) => {
                    assert(prev + (seq![(oldpos, rv)] + rest) =~= cur + rest);
                },
                None => {},
            }
        }
    }
    proof {
        assert(records_parse(buf@, pos as int) == Some(Seq::<(int, DataRecordV)>::empty()));
        let cur = Seq::new(recs@.len(), |i: int| (offs@[i] as int, recs@[i]@));
        assert(cur + Seq::<(int, DataRecordV)>::empty() =~= cur);
    }
    Ok((recs, offs))
}

/// Append one record's serialization to a pack under construction.
pub fn append_record_bytes(buf: &mut Vec<u8>, rec: &DataRecord) -> (r: Result<(), StoreError>)
    requires
        is_path(rec.path@),
        is_node(rec.node@),
        is_node(rec.base_node@),
        rec.meta.wf(),
    ensures
        match r {
            Ok(()) => rec@.wf() && final(buf)@ == old(buf)@ + record_ser(rec@),
            Err(_) => !rec@.wf() && final(buf)@ == old(buf)@,
        },
{
    encode_record(rec, buf)
}

/// The serialized length of a record never falls under fifty bytes, so
/// offsets always move forward.
pub proof fn lemma_record_ser_min(r: DataRecordV)
    requires
        r.wf(),
    ensures
        record_ser(r).len() >= 50,
{
}

} // verus!
