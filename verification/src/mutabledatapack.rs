use vstd::prelude::*;

use crate::codec::clone_bytes;
use crate::hashing::{hex_of, sha1_of, to_hex};
use crate::metadata::{meta_ser, serialize_meta, Metadata};
use crate::packformat::{append_record_bytes, pack_ser, records_ser, DataRecord, DataRecordV,
    DATAPACK_VERSION};
use crate::packindex::{build_index, build_index_bytes, index_full_ser, index_of, pair_seq,
    pairs_nodes_wf, INDEX_VERSION_DATA};
use crate::types::{null_node, spec_null_node, Delta, DeltaV, Key, StoreError};

verus! {

// The write side of a data pack: records accumulate in order; finalizing
// lays them out behind the version byte, builds the canonical index with its
// trailing digest, and names the pack after the hex of that digest.

/// What one accepted delta becomes on disk.
pub open spec fn record_of(d: DeltaV, m: Seq<(u8, Seq<u8>)>) -> DataRecordV {
    DataRecordV {
        path: d.key.path,
        node: d.key.node,
        base_node: match d.base {
            Some(b) => b.node,
            None => spec_null_node(),
        },
        data: d.data,
        meta: m,
    }
}

/// The offsets of records laid out from `pos`: each record starts where the
/// previous one ended.
pub proof fn lemma_pairs_of_snoc(rs: Seq<DataRecordV>, r: DataRecordV, pos: int)
    ensures
        crate::packformat::pairs_of(rs.push(r), pos) == crate::packformat::pairs_of(
            rs,
            pos,
        ).push((pos + records_ser(rs).len(), r)),
    decreases rs.len(),
{
    let lhs = crate::packformat::pairs_of(rs.push(r), pos);
    if rs.len() == 0 {
        assert(rs.push(r)[0] == r);
        assert(rs.push(r).drop_first() =~= Seq::<DataRecordV>::empty());
        assert(records_ser(rs).len() == 0);
        assert(lhs == seq![(pos, r)] + crate::packformat::pairs_of(
            rs.push(r).drop_first(),
            pos + crate::packformat::record_ser(r).len(),
        ));
        assert(crate::packformat::pairs_of(
            rs.push(r).drop_first(),
            pos + crate::packformat::record_ser(r).len(),
        ) == Seq::<(int, DataRecordV)>::empty());
        assert(lhs =~= crate::packformat::pairs_of(rs, pos).push((pos, r)));
    } else {
        assert(rs.push(r)[0] == rs[0]);
        assert(rs.push(r).drop_first() =~= rs.drop_first().push(r));
        lemma_pairs_of_snoc(rs.drop_first(), r, pos + crate::packformat::record_ser(rs[0]).len());
        crate::packformat::lemma_records_ser_front(rs);
        assert(records_ser(rs.drop_first()).len() + crate::packformat::record_ser(rs[0]).len()
            == records_ser(rs).len());
        assert(lhs =~= crate::packformat::pairs_of(rs, pos).push(
            (pos + records_ser(rs).len(), r),
        ));
    }
}

/// The mutable data pack builder.
pub struct MutableDataPack {
    pub records: Vec<DataRecord>,
}

impl MutableDataPack {
    pub open spec fn view_records(&self) -> Seq<DataRecordV> {
        crate::datapack::recs_view(self.records@)
    }

    pub open spec fn wf(&self) -> bool {
        forall|i: int| 0 <= i < self.records@.len() ==> (#[trigger] self.records@[i]@).wf()
    }

    /// A fresh, empty builder.
    pub fn new() -> (r: MutableDataPack)
        ensures
            r.wf(),
            r.view_records() == Seq::<DataRecordV>::empty(),
    {
        let r = MutableDataPack { records: Vec::new() };
        proof {
            assert(r.view_records() =~= Seq::<DataRecordV>::empty());
        }
        r
    }

    /// Append one delta and its metadata as the next record. Refused exactly
    /// when the serialized metadata cannot fit its length field.
    pub fn add(&mut self, delta: &Delta, metadata: &Metadata) -> (r: Result<(), StoreError>)
        requires
            old(self).wf(),
            delta.wf(),
            metadata.wf(),
        ensures
            final(self).wf(),
            r is Err <==> meta_ser(metadata@).len() > 0xFFFF_FFFFu32,
            match r {
                Ok(()) => final(self).view_records() == old(self).view_records().push(
                    record_of(delta@, metadata@),
                ),
                Err(_) => *final(self) == *old(self),
            },
    {
        let ms = serialize_meta(metadata);
        if ms.len() > 0xFFFF_FFFFusize {
            return Err(StoreError::Invariant);
        }
        let dl = delta.data.len();
        let base_node = match delta.base {
            Some(ref b) => clone_bytes(&b.node),
            None => null_node(),
        };
        let rec = DataRecord {
            path: clone_bytes(&delta.key.path),
            node: clone_bytes(&delta.key.node),
            base_node,
            data: clone_bytes(&delta.data),
            meta: metadata.clone_meta(),
        };
        proof {
            assert(rec@ =~= record_of(delta@, metadata@));
            assert(rec.data@.len() == dl);
            assert(rec@.wf());
        }
        self.records.push(rec);
        proof {
            assert(self.view_records() =~= old(self).view_records().push(
                record_of(delta@, metadata@),
            ));
            assert forall|i: int| 0 <= i < self.records@.len() implies (
            #[trigger] self.records@[i]@).wf() by {
                if i < self.records@.len() - 1 {
                    assert(self.records@[i] == old(self).records@[i]);
                }
            }
        }
        Ok(())
    }

    /// Lay the records out, build the canonical index, and name the pack
    /// after the hex of the index digest. Yields the pack bytes, the index
    /// bytes and the name.
    pub fn finalize(self) -> (r: Result<(Vec<u8>, Vec<u8>, Vec<u8>), StoreError>)
        requires
            self.wf(),
        ensures
            match r {
                Ok((pb, ib, nm)) => {
                    &&& self.view_records().len() < 0xFFFF_FFFF
                    &&& pb@ == pack_ser(self.view_records())
                    &&& ib@ == index_full_ser(
                        index_of(crate::packformat::pairs_of(self.view_records(), 1)),
                        INDEX_VERSION_DATA,
                    )
                    &&& nm@ == hex_of(
                        sha1_of(
                            crate::packindex::index_body_ser(
                                index_of(crate::packformat::pairs_of(self.view_records(), 1)),
                                INDEX_VERSION_DATA,
                            ),
                        ),
                    )
                },
                Err(_) => self.view_records().len() >= 0xFFFF_FFFF,
            },
    {
        if self.records.len() >= 0xFFFF_FFFFusize {
            return Err(StoreError::Invariant);
        }
        let mut pack_bytes: Vec<u8> = Vec::new();
        pack_bytes.push(DATAPACK_VERSION);
        let mut offsets: Vec<u64> = Vec::new();
        let mut i: usize = 0;
        proof {
            assert(pack_bytes@ =~= pack_ser(self.view_records().subrange(0, 0)));
            assert(pair_seq(self.records@.subrange(0, 0), offsets@)
                =~= crate::packformat::pairs_of(self.view_records().subrange(0, 0), 1));
        }
        while i < self.records.len()
            invariant
                i <= self.records@.len(),
                self.wf(),
                self.records@.len() < 0xFFFF_FFFF,
                offsets@.len() == i,
                pack_bytes@ == pack_ser(self.view_records().subrange(0, i as int)),
                pack_bytes@.len() >= 1,
                pair_seq(self.records@.subrange(0, i as int), offsets@)
                    == crate::packformat::pairs_of(self.view_records().subrange(0, i as int), 1),
            decreases self.records@.len() - i,
        {
            let ghost pre = self.view_records().subrange(0, i as int);
            let ghost post = self.view_records().subrange(0, i + 1);
            let off = pack_bytes.len();
            offsets.push(off as u64);
            proof {
                assert(self.records@[i as int]@.wf());
            }
            let res = append_record_bytes(&mut pack_bytes, &self.records[i]);
            match res {
                Ok(()) => {},
                Err(_) => {
                    proof {
                        assert(false);
                    }
                    return Err(StoreError::Invariant);
                },
            }
            i = i + 1;
            proof {
                assert(post.drop_last() =~= pre);
                assert(post.last() == self.view_records()[i - 1]);
                assert(pack_ser(post) == pack_ser(pre) + crate::packformat::record_ser(
                    post.last(),
                ));
                assert(pack_bytes@ == pack_ser(post));
                crate::packformat::lemma_pack_ser_front_any(pre);
                assert(off as int == 1 + records_ser(pre).len());
                assert(post =~= pre.push(self.view_records()[i - 1]));
                lemma_pairs_of_snoc(pre, self.view_records()[i - 1], 1);
                assert(pair_seq(self.records@.subrange(0, i as int), offsets@)
                    =~= crate::packformat::pairs_of(pre, 1).push(
                    (off as int, self.view_records()[i - 1]),
                ));
            }
        }
        proof {
            assert(self.view_records().subrange(0, self.records@.len() as int)
                =~= self.view_records());
            assert(self.records@.subrange(0, self.records@.len() as int) =~= self.records@);
            assert(pairs_nodes_wf(crate::packformat::pairs_of(self.view_records(), 1))) by {
                let pairs = pair_seq(self.records@, offsets@);
                assert forall|k: int| 0 <= k < pairs.len() implies (#[trigger] pairs[k]).1.node.len()
                    == 20 by {
                    assert(pairs[k].1 == self.records@[k]@);
                }
            }
            crate::packindex::lemma_index_of_props(crate::packformat::pairs_of(
                self.view_records(),
                1,
            ));
            crate::packindex::lemma_index_len(crate::packformat::pairs_of(
                self.view_records(),
                1,
            ));
        }
        let index = build_index(&self.records, &offsets);
        let (index_bytes, digest) = build_index_bytes(&index, INDEX_VERSION_DATA);
        let name = to_hex(&digest);
        Ok((pack_bytes, index_bytes, name))
    }
}

} // verus!
