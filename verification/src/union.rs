use vstd::prelude::*;

use crate::datapack::{delta_of, first_match, lemma_first_match_at, lemma_first_match_none};
use crate::indexedlogdatastore::IndexedLogDataStore;
use crate::log::{log_find, log_push};
use crate::logformat::EntryV;
use crate::compress::lz4_block_of;
use crate::metadata::Metadata;
use crate::mutabledatapack::{record_of, MutableDataPack};
use crate::mutablehistorypack::{entry_of, hist_add, MutableHistoryPack};
use crate::codec::{bytes_eq, clone_bytes};
use crate::types::{is_null_node, Delta, Key, NodeInfo, StoreError};

verus! {

// The uniform mutable stores: one writable front that is either a pack
// builder or the rotating log, chosen the way callers ask for it.

/// A writable data store: a pack under construction, or the rotating log.
pub enum MutableDeltaStore {
    Pack(MutableDataPack),
    Log(IndexedLogDataStore),
}

impl MutableDeltaStore {
    pub open spec fn wf(&self) -> bool {
        match self {
            MutableDeltaStore::Pack(p) => p.wf(),
            MutableDeltaStore::Log(l) => l.wf(),
        }
    }

    /// Store one delta. The pack takes any delta; the log only full texts.
    pub fn add(&mut self, delta: &Delta, metadata: &Metadata) -> (r: Result<(), StoreError>)
        requires
            old(self).wf(),
            delta.wf(),
            metadata.wf(),
        ensures
            final(self).wf(),
            ((*old(self)) is Pack && (*final(self)) is Pack) || ((*old(self)) is Log
                && (*final(self)) is Log),
            (*old(self)) matches MutableDeltaStore::Pack(p) ==> ((r is Err <==> crate::metadata::meta_ser(
                metadata@,
            ).len() > 0xFFFF_FFFFu32) && (r is Ok ==> ((*final(self)) matches MutableDeltaStore::Pack(p2)
                && p2.view_records() == p.view_records().push(record_of(delta@, metadata@))))),
            (*old(self)) matches MutableDeltaStore::Log(l) ==> (delta.base is Some ==> r is Err)
                && (delta.base is None ==> (r is Ok && ((*final(self)) matches MutableDeltaStore::Log(l2) && l2@ == log_push(
                l@,
                l.log.max_log_count as int,
                l.log.max_bytes_per_log as int,
                EntryV {
                    key: delta.key@,
                    meta: metadata@,
                    compressed: lz4_block_of(delta.data@),
                },
            )))),
    {
        match self {
            MutableDeltaStore::Pack(p) => p.add(delta, metadata),
            MutableDeltaStore::Log(l) => l.add(delta, metadata),
        }
    }

    /// Make the store durable: a pack finalizes to its bytes and name; the
    /// log's in-memory state is already its durable form.
    pub fn flush(self) -> (r: Result<Option<(Vec<u8>, Vec<u8>, Vec<u8>)>, StoreError>)
        requires
            self.wf(),
        ensures
            self is Log ==> (r matches Ok(opt) && opt is None),
            self matches MutableDeltaStore::Pack(p) ==> ((r is Err <==> p.view_records().len()
                >= 0xFFFF_FFFF) && (r matches Ok(opt) ==> (opt matches Some(out) && out.0@
                == crate::packformat::pack_ser(p.view_records()) && out.2@ == crate::hashing::hex_of(
                crate::hashing::sha1_of(
                    crate::packindex::index_body_ser(
                        crate::packindex::index_of(
                            crate::packformat::pairs_of(p.view_records(), 1),
                        ),
                        crate::packindex::INDEX_VERSION_DATA,
                    ),
                ),
            )))),
    {
        match self {
            MutableDeltaStore::Pack(p) => {
                match p.finalize() {
                    Ok(out) => Ok(Some(out)),
                    Err(e) => Err(e),
                }
            },
            MutableDeltaStore::Log(_) => Ok(None),
        }
    }

    /// Read back a pending delta: the first record under the node in a pack
    /// under construction, or the newest entry of the log.
    pub fn get_delta(&self, key: &Key) -> (r: Result<Delta, StoreError>)
        requires
            self.wf(),
            key.wf(),
        ensures
            (*self) is Pack ==> (match r {
                Ok(d) => first_match((self->Pack_0).view_records(), key@.node) matches Some(rec)
                    && d@ == delta_of(rec),
                Err(err) => err matches StoreError::NotFound(k) && k@ == key@ && first_match(
                    (self->Pack_0).view_records(),
                    key@.node,
                ) is None,
            }),
            (*self) is Log ==> (match r {
                Ok(d) => log_find((self->Log_0)@, key@.node) matches Some(f) && d.key@ == key@
                    && d.base is None && crate::compress::lz4_unblock(f.compressed) == Some(
                    d.data@,
                ),
                Err(err) => (err matches StoreError::NotFound(k) && k@ == key@ && log_find(
                    (self->Log_0)@,
                    key@.node,
                ) is None) || (err is Corrupt && (log_find((self->Log_0)@, key@.node)
                    matches Some(f) && crate::compress::lz4_unblock(f.compressed) is None)),
            }),
    {
        match self {
            MutableDeltaStore::Pack(p) => {
                proof {
                    assert((*self) is Pack);
                    assert(self->Pack_0 == *p);
                    assert((self->Pack_0).view_records() =~= p.view_records());
                }
                let mut i: usize = 0;
                while i < p.records.len()
                    invariant
                        p.wf(),
                        (*self) is Pack,
                        self->Pack_0 == *p,
                        key.wf(),
                        i <= p.records@.len(),
                        forall|k: int|
                            0 <= k < i ==> (#[trigger] p.records@[k]@).node != key@.node,
                    decreases p.records@.len() - i,
                {
                    proof {
                        assert(p.view_records()[i as int] == p.records@[i as int]@);
                    }
                    if bytes_eq(&p.records[i].node, &key.node) {
                        proof {
                            lemma_first_match_at(p.view_records(), key@.node, i as int);
                        }
                        let rec = &p.records[i];
                        let base = if is_null_node(&rec.base_node) {
                            None
                        } else {
                            Some(
                                Key {
                                    path: clone_bytes(&rec.path),
                                    node: clone_bytes(&rec.base_node),
                                },
                            )
                        };
                        let d = Delta {
                            key: Key {
                                path: clone_bytes(&rec.path),
                                node: clone_bytes(&rec.node),
                            },
                            base,
                            data: clone_bytes(&rec.data),
                        };
                        proof {
                            assert(d@ =~= delta_of(p.records@[i as int]@));
                            assert(first_match((self->Pack_0).view_records(), key@.node)
                                == Some(p.view_records()[i as int]));
                            assert(d@ == delta_of(p.view_records()[i as int]));
                        }
                        return Ok(d);
                    }
                    i = i + 1;
                }
                proof {
                    lemma_first_match_none(p.view_records(), key@.node);
                }
                Err(StoreError::NotFound(key.clone_key()))
            },
            MutableDeltaStore::Log(l) => l.get_delta(key),
        }
    }
}

/// Pick the writable data store the caller asked for: a pack builder when a
/// pack file is wanted, else the rotating log, else nothing to write to.
pub fn make_mutabledeltastore(use_packfile: bool, use_indexedlog: bool) -> (r: Result<
    MutableDeltaStore,
    StoreError,
>)
    ensures
        use_packfile ==> (r matches Ok(s) && (s matches MutableDeltaStore::Pack(p)
            && p.view_records() == Seq::<crate::packformat::DataRecordV>::empty())),
        !use_packfile && use_indexedlog ==> (r matches Ok(s) && (s matches MutableDeltaStore::Log(
            l,
        ) && l@ == seq![Seq::<EntryV>::empty()])),
        !use_packfile && !use_indexedlog ==> r is Err,
        r matches Ok(s) ==> s.wf(),
{
    if use_packfile {
        Ok(MutableDeltaStore::Pack(MutableDataPack::new()))
    } else if use_indexedlog {
        Ok(MutableDeltaStore::Log(IndexedLogDataStore::new()))
    } else {
        Err(StoreError::Invariant)
    }
}

/// A writable history store: a history pack under construction.
pub enum MutableHistoryStore {
    Pack(MutableHistoryPack),
}

impl MutableHistoryStore {
    pub open spec fn wf(&self) -> bool {
        match self {
            MutableHistoryStore::Pack(p) => p.wf(),
        }
    }

    /// Record one key's ancestry.
    pub fn add(&mut self, key: &Key, info: &NodeInfo) -> (r: Result<(), StoreError>)
        requires
            old(self).wf(),
            key.wf(),
            info.wf(),
        ensures
            final(self).wf(),
            (*old(self)) matches MutableHistoryStore::Pack(p) ==> ((r is Err
                <==> crate::mutablehistorypack::hist_add_refused(
                p.view_secs(),
                key@.path,
                entry_of(key@, info@),
            )) && (r is Ok ==> ((*final(self)) matches MutableHistoryStore::Pack(p2)
                && p2.view_secs() == hist_add(p.view_secs(), key@.path, entry_of(key@, info@))))),
    {
        match self {
            MutableHistoryStore::Pack(p) => p.add(key, info),
        }
    }

    /// Finalize to the pack bytes, the index bytes and the pack's name.
    pub fn flush(self) -> (r: Result<Option<(Vec<u8>, Vec<u8>, Vec<u8>)>, StoreError>)
        requires
            self.wf(),
        ensures
            self matches MutableHistoryStore::Pack(p) ==> ((r is Err
                <==> crate::historypack::hist_index_pairs(p.view_secs(), 1).len()
                > 0xFFFF_FFFF) && (r matches Ok(opt) ==> (opt matches Some(out) && out.0@
                == crate::historypack::hist_ser(p.view_secs()) && out.1@
                == crate::packindex::index_full_ser(
                crate::packindex::index_of(crate::historypack::hist_index_pairs(p.view_secs(), 1)),
                crate::packindex::INDEX_VERSION_HISTORY,
            )))),
    {
        match self {
            MutableHistoryStore::Pack(p) => {
                match p.finalize() {
                    Ok(out) => Ok(Some(out)),
                    Err(e) => Err(e),
                }
            },
        }
    }
}

/// Pick the writable history store the caller asked for: only a pack file
/// backs one.
pub fn make_mutablehistorystore(use_packfile: bool) -> (r: Result<MutableHistoryStore, StoreError>)
    ensures
        use_packfile ==> (r matches Ok(s) && (s matches MutableHistoryStore::Pack(p)
            && p.view_secs() == Seq::<crate::historypack::SectionV>::empty())),
        !use_packfile ==> r is Err,
        r matches Ok(s) ==> s.wf(),
{
    if use_packfile {
        Ok(MutableHistoryStore::Pack(MutableHistoryPack::new()))
    } else {
        Err(StoreError::Invariant)
    }
}

} // verus!
