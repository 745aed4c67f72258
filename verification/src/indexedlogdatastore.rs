use vstd::prelude::*;

use crate::codec::clone_bytes;
use crate::compress::{lz4_block_of, lz4_compress, lz4_decompress, lz4_unblock};
use crate::log::{log_find, log_push, RotateLog, DEFAULT_MAX_BYTES_PER_LOG,
    DEFAULT_MAX_LOG_COUNT};
use crate::logformat::{entries_parse, entries_ser, entries_wf, lemma_entries_roundtrip, EntryV};
use crate::metadata::Metadata;
use crate::types::{keys_view, Delta, Key, KeyV, StoreError};

verus! {

// A data store over the indexed rotating log. Only full payloads are stored:
// a delta with a base is rejected. Lookup is by node through the log's
// primary index; the payload travels LZ4-compressed.

/// One record of the store, as the write and read paths handle it: the key,
/// the metadata, and the payload in at least one of its two forms.
pub struct Entry {
    pub key: Key,
    pub metadata: Metadata,
    pub content: Option<Vec<u8>>,
    pub compressed_content: Option<Vec<u8>>,
}

impl Entry {
    /// The compressed form this entry has or would have on disk.
    pub open spec fn compressed_form(&self) -> Seq<u8> {
        match self.compressed_content {
            Some(c) => c@,
            None => lz4_block_of(
                match self.content {
                    Some(ref raw) => raw@,
                    None => Seq::empty(),
                },
            ),
        }
    }

    pub open spec fn wf(&self) -> bool {
        &&& self.key.wf()
        &&& self.metadata.wf()
        &&& (self.content is Some || self.compressed_content is Some)
        &&& (self.content is Some && self.compressed_content is Some
            ==> (self.compressed_content->Some_0@ == lz4_block_of(self.content->Some_0@)
                || lz4_unblock(self.compressed_content->Some_0@) == Some(
                self.content->Some_0@,
            )))
    }

    /// A fresh entry holding its full content.
    pub fn new(key: Key, content: Vec<u8>, metadata: Metadata) -> (r: Entry)
        ensures
            r.key@ == key@,
            r.metadata@ == metadata@,
            r.content matches Some(c) && c@ == content@,
            r.compressed_content is None,
    {
        Entry { key, content: Some(content), metadata, compressed_content: None }
    }

    /// Read the newest entry stored under `key`'s node out of the log. The
    /// stored path is not consulted: the node alone is the primary index,
    /// and the returned entry carries the requested key.
    pub fn from_log(key: &Key, log: &RotateLog) -> (r: Result<Entry, StoreError>)
        requires
            log.wf(),
            key.wf(),
        ensures
            match r {
                Ok(e) => log_find(log@, key@.node) matches Some(f) && (e.compressed_content
                    matches Some(c) && e.key@ == key@ && e.metadata@ == f.meta && c@
                    == f.compressed && e.content is None),
                Err(err) => err matches StoreError::NotFound(k) && k@ == key@ && log_find(
                    log@,
                    key@.node,
                ) is None,
            },
    {
        match log.find(&key.node) {
            Some((i, j)) => {
                let shard = &log.shards[i];
                let entry = &shard.entries[j];
                proof {
                    assert(log@[i as int] == log.shards@[i as int].view_entries());
                    assert(log@[i as int][j as int] == entry@);
                }
                Ok(
                    Entry {
                        key: key.clone_key(),
                        metadata: entry.meta.clone_meta(),
                        content: None,
                        compressed_content: Some(clone_bytes(&entry.compressed)),
                    },
                )
            },
            None => Err(StoreError::NotFound(key.clone_key())),
        }
    }

    /// Append this entry to the log, compressing the content when no
    /// compressed form is at hand.
    pub fn write_to_log(self, log: &mut RotateLog) -> (r: Result<(), StoreError>)
        requires
            old(log).wf(),
            self.wf(),
        ensures
            r is Ok,
            final(log).wf(),
            final(log)@ == log_push(
                old(log)@,
                old(log).max_log_count as int,
                old(log).max_bytes_per_log as int,
                EntryV {
                    key: self.key@,
                    meta: self.metadata@,
                    compressed: self.compressed_form(),
                },
            ),
            final(log).max_log_count == old(log).max_log_count,
            final(log).max_bytes_per_log == old(log).max_bytes_per_log,
    {
        let compressed = match self.compressed_content {
            Some(c) => c,
            None => {
                match self.content {
                    Some(ref raw) => lz4_compress(raw),
                    None => {
                        return Err(StoreError::InvalidWrite);
                    },
                }
            },
        };
        log.append(&self.key, &self.metadata, compressed);
        Ok(())
    }

    pub fn metadata(&self) -> (r: &Metadata)
        ensures
            r@ == self.metadata@,
    {
        &self.metadata
    }

    /// The full content: the cached form when present, else the payload
    /// decompressed and cached, so a later read hands back the same bytes
    /// without decompressing again.
    pub fn content(&mut self) -> (r: Result<Vec<u8>, StoreError>)
        requires
            old(self).wf(),
        ensures
            final(self).wf(),
            final(self).key == old(self).key,
            final(self).metadata == old(self).metadata,
            final(self).compressed_content == old(self).compressed_content,
            match r {
                Ok(d) => {
                    &&& final(self).content matches Some(c) && c@ == d@
                    &&& (old(self).content matches Some(b) ==> d@ == b@ && *final(self) == *old(
                        self,
                    ))
                    &&& (old(self).content is None ==> lz4_unblock(old(self).compressed_form())
                        == Some(d@) && (forall|s: Seq<u8>|
                        (s.len() < 0x1_0000_0000 && old(self).compressed_form() == lz4_block_of(
                            s,
                        )) ==> d@ == s))
                },
                Err(_) => *final(self) == *old(self) && old(self).content is None && lz4_unblock(
                    old(self).compressed_form(),
                ) is None,
            },
    {
        match self.content {
            Some(ref c) => {
                let d = clone_bytes(c);
                return Ok(d);
            },
            None => {},
        }
        let dec = match self.compressed_content {
            Some(ref z) => lz4_decompress(z),
            None => {
                proof {
                    assert(false);
                }
                return Err(StoreError::InvalidWrite);
            },
        };
        match dec {
            Some(raw) => {
                let d = clone_bytes(&raw);
                self.content = Some(raw);
                Ok(d)
            },
            None => Err(StoreError::Corrupt),
        }
    }
}

/// The keys of `ks` that the log holds no entry for, in input order.
pub open spec fn spec_missing(shards: Seq<Seq<EntryV>>, ks: Seq<KeyV>) -> Seq<KeyV>
    decreases ks.len(),
{
    if ks.len() == 0 {
        Seq::empty()
    } else {
        spec_missing(shards, ks.drop_last()) + if log_find(shards, ks.last().node) is None {
            seq![ks.last()]
        } else {
            Seq::empty()
        }
    }
}

/// The data store over the rotating log.
pub struct IndexedLogDataStore {
    pub log: RotateLog,
}

impl View for IndexedLogDataStore {
    type V = Seq<Seq<EntryV>>;

    open spec fn view(&self) -> Seq<Seq<EntryV>> {
        self.log@
    }
}

impl IndexedLogDataStore {
    pub open spec fn wf(&self) -> bool {
        self.log.wf()
    }

    /// A fresh, empty store with the default rotation caps.
    pub fn new() -> (r: IndexedLogDataStore)
        ensures
            r.wf(),
            r@ == seq![Seq::<EntryV>::empty()],
            r.log.max_log_count == DEFAULT_MAX_LOG_COUNT,
            r.log.max_bytes_per_log == DEFAULT_MAX_BYTES_PER_LOG,
    {
        IndexedLogDataStore { log: RotateLog::new(DEFAULT_MAX_LOG_COUNT, DEFAULT_MAX_BYTES_PER_LOG) }
    }

    /// Reopen a store from the durable shard bytes that `close` yielded.
    /// Succeeds exactly when every shard parses.
    pub fn open(shard_bytes: Vec<Vec<u8>>) -> (r: Result<IndexedLogDataStore, StoreError>)
        requires
            shard_bytes@.len() <= DEFAULT_MAX_LOG_COUNT,
        ensures
            match r {
                Ok(store) => store.wf() && (if shard_bytes@.len() == 0 {
                    store@ == seq![Seq::<EntryV>::empty()]
                } else {
                    store@.len() == shard_bytes@.len() && forall|i: int|
                        0 <= i < shard_bytes@.len() ==> entries_parse(
                            #[trigger] shard_bytes@[i]@,
                            0,
                        ) == Some(store@[i])
                }),
                Err(_) => exists|i: int|
                    0 <= i < shard_bytes@.len() && entries_parse(#[trigger] shard_bytes@[i]@, 0)
                        is None,
            },
    {
        match RotateLog::open(shard_bytes, DEFAULT_MAX_LOG_COUNT, DEFAULT_MAX_BYTES_PER_LOG) {
            Ok(log) => Ok(IndexedLogDataStore { log }),
            Err(e) => Err(e),
        }
    }

    /// Store a full payload under its key. A delta with a base is refused,
    /// and the store is left unchanged.
    pub fn add(&mut self, delta: &Delta, metadata: &Metadata) -> (r: Result<(), StoreError>)
        requires
            old(self).wf(),
            delta.key.wf(),
            metadata.wf(),
        ensures
            final(self).wf(),
            delta.base is Some ==> (r matches Err(e) && e is InvalidWrite && final(self)@ == old(
                self,
            )@),
            delta.base is None ==> r is Ok && final(self)@ == log_push(
                old(self)@,
                old(self).log.max_log_count as int,
                old(self).log.max_bytes_per_log as int,
                EntryV {
                    key: delta.key@,
                    meta: metadata@,
                    compressed: lz4_block_of(delta.data@),
                },
            ),
            final(self).log.max_log_count == old(self).log.max_log_count,
            final(self).log.max_bytes_per_log == old(self).log.max_bytes_per_log,
    {
        if delta.base.is_some() {
            return Err(StoreError::InvalidWrite);
        }
        let entry = Entry::new(
            delta.key.clone_key(),
            clone_bytes(&delta.data),
            metadata.clone_meta(),
        );
        entry.write_to_log(&mut self.log)
    }

    /// Make the buffered state durable. The in-memory model is already its
    /// own durable form, so this changes nothing.
    pub fn flush(&mut self) -> (r: Result<(), StoreError>)
        requires
            old(self).wf(),
        ensures
            r is Ok,
            *final(self) == *old(self),
    {
        Ok(())
    }

    /// Flush and drop the store, yielding the durable bytes of each shard,
    /// oldest first, for the caller to persist.
    pub fn close(self) -> (r: Vec<Vec<u8>>)
        requires
            self.wf(),
        ensures
            r@.len() == self@.len(),
            forall|i: int| 0 <= i < r@.len() ==> #[trigger] r@[i]@ == entries_ser(self@[i]),
    {
        self.log.shard_bytes()
    }

    /// The newest full record stored under the key's node, decompressed.
    pub fn get_delta(&self, key: &Key) -> (r: Result<Delta, StoreError>)
        requires
            self.wf(),
            key.wf(),
        ensures
            match r {
                Ok(d) => log_find(self@, key@.node) matches Some(f) && d.key@ == key@ && d.base
                    is None && lz4_unblock(f.compressed) == Some(d.data@) && (forall|s: Seq<u8>|
                    (s.len() < 0x1_0000_0000 && f.compressed == lz4_block_of(s)) ==> d.data@
                        == s),
                Err(err) => (err matches StoreError::NotFound(k) && k@ == key@ && log_find(
                    self@,
                    key@.node,
                ) is None) || (err is Corrupt && (log_find(self@, key@.node) matches Some(f)
                    && lz4_unblock(f.compressed) is None)),
            },
    {
        let mut entry = match Entry::from_log(key, &self.log) {
            Ok(e) => e,
            Err(err) => {
                return Err(err);
            },
        };
        proof {
            lemma_log_find_wf(self@, key@.node);
            assert(entry.wf());
        }
        let content = match entry.content() {
            Ok(c) => c,
            Err(_) => {
                return Err(StoreError::Corrupt);
            },
        };
        Ok(Delta { data: content, base: None, key: key.clone_key() })
    }

    /// The full content under the key: the payload decompressed.
    pub fn get(&self, key: &Key) -> (r: Result<Vec<u8>, StoreError>)
        requires
            self.wf(),
            key.wf(),
        ensures
            match r {
                Ok(d) => log_find(self@, key@.node) matches Some(f) && lz4_unblock(f.compressed)
                    == Some(d@) && (forall|s: Seq<u8>|
                    (s.len() < 0x1_0000_0000 && f.compressed == lz4_block_of(s)) ==> d@ == s),
                Err(err) => (err matches StoreError::NotFound(k) && k@ == key@ && log_find(
                    self@,
                    key@.node,
                ) is None) || (err is Corrupt && (log_find(self@, key@.node) matches Some(f)
                    && lz4_unblock(f.compressed) is None)),
            },
    {
        match self.get_delta(key) {
            Ok(d) => Ok(d.data),
            Err(e) => Err(e),
        }
    }

    /// The store holds only full payloads, so every chain has exactly one
    /// record, whose base is absent.
    pub fn get_delta_chain(&self, key: &Key) -> (r: Result<Vec<Delta>, StoreError>)
        requires
            self.wf(),
            key.wf(),
        ensures
            match r {
                Ok(chain) => chain@.len() == 1 && (log_find(self@, key@.node) matches Some(f)
                    && chain@[0].key@ == key@ && chain@[0].base is None && lz4_unblock(
                    f.compressed,
                ) == Some(chain@[0].data@) && (forall|s: Seq<u8>|
                    (s.len() < 0x1_0000_0000 && f.compressed == lz4_block_of(s)) ==> chain@[
                    0].data@ == s)),
                Err(err) => (err matches StoreError::NotFound(k) && k@ == key@ && log_find(
                    self@,
                    key@.node,
                ) is None) || (err is Corrupt && (log_find(self@, key@.node) matches Some(f)
                    && lz4_unblock(f.compressed) is None)),
            },
    {
        let delta = match self.get_delta(key) {
            Ok(d) => d,
            Err(e) => {
                return Err(e);
            },
        };
        let mut chain: Vec<Delta> = Vec::new();
        chain.push(delta);
        Ok(chain)
    }

    /// The metadata recorded with the newest record under the key's node.
    pub fn get_meta(&self, key: &Key) -> (r: Result<Metadata, StoreError>)
        requires
            self.wf(),
            key.wf(),
        ensures
            match r {
                Ok(m) => log_find(self@, key@.node) matches Some(f) && m@ == f.meta,
                Err(err) => err matches StoreError::NotFound(k) && k@ == key@ && log_find(
                    self@,
                    key@.node,
                ) is None,
            },
    {
        match Entry::from_log(key, &self.log) {
            Ok(e) => Ok(e.metadata),
            Err(err) => Err(err),
        }
    }

    /// Exactly the keys the store holds no record for, in input order.
    pub fn get_missing(&self, keys: &Vec<Key>) -> (r: Result<Vec<Key>, StoreError>)
        requires
            self.wf(),
        ensures
            r matches Ok(v) && keys_view(v@) == spec_missing(self@, keys_view(keys@)),
    {
        let mut out: Vec<Key> = Vec::new();
        let mut i: usize = 0;
        proof {
            assert(keys_view(keys@).subrange(0, 0) =~= Seq::<KeyV>::empty());
            assert(keys_view(out@) =~= Seq::<KeyV>::empty());
        }
        while i < keys.len()
            invariant
                self.wf(),
                i <= keys@.len(),
                keys_view(out@) == spec_missing(self@, keys_view(keys@).subrange(0, i as int)),
            decreases keys@.len() - i,
        {
            let ghost pre = keys_view(keys@).subrange(0, i as int);
            let ghost post = keys_view(keys@).subrange(0, i + 1);
            let k = &keys[i];
            let ghost old_out = out@;
            if self.log.find(&k.node).is_none() {
                out.push(k.clone_key());
            }
            i = i + 1;
            proof {
                assert(post.drop_last() =~= pre);
                assert(post.last() == keys_view(keys@)[i - 1]);
                assert(keys_view(keys@)[i - 1] == keys@[i - 1]@);
                if log_find(self@, keys@[i - 1]@.node) is None {
                    assert(keys_view(out@) =~= keys_view(old_out) + seq![keys@[i - 1]@]);
                } else {
                    assert(keys_view(out@) =~= keys_view(old_out));
                    assert(spec_missing(self@, post) =~= spec_missing(self@, pre));
                }
            }
        }
        proof {
            assert(keys_view(keys@).subrange(0, keys@.len() as int) =~= keys_view(keys@));
        }
        Ok(out)
    }
}

/// Whatever `shard_find` yields came from a well-formed shard and is well
/// formed itself.
pub proof fn lemma_shard_find_wf(es: Seq<EntryV>, node: Seq<u8>)
    requires
        entries_wf(es),
    ensures
        crate::log::shard_find(es, node) matches Some(f) ==> f.wf(),
    decreases es.len(),
{
    if es.len() > 0 {
        assert(es.last() == es[es.len() - 1]);
        assert(es.last().wf());
        assert(entries_wf(es.drop_last())) by {
            assert(forall|i: int|
                0 <= i < es.drop_last().len() ==> es.drop_last()[i] == #[trigger] es[i]);
        }
        lemma_shard_find_wf(es.drop_last(), node);
    }
}

/// Whatever `log_find` yields out of a well-formed log is well formed.
pub proof fn lemma_log_find_wf(shards: Seq<Seq<EntryV>>, node: Seq<u8>)
    requires
        forall|i: int| 0 <= i < shards.len() ==> entries_wf(#[trigger] shards[i]),
    ensures
        log_find(shards, node) matches Some(f) ==> f.wf(),
    decreases shards.len(),
{
    if shards.len() > 0 {
        assert(shards.last() == shards[shards.len() - 1]);
        lemma_shard_find_wf(shards.last(), node);
        assert(forall|i: int|
            0 <= i < shards.drop_last().len() ==> shards.drop_last()[i] == #[trigger] shards[i]);
        lemma_log_find_wf(shards.drop_last(), node);
    }
}

// ---------------------------------------------------------------------------
// Laws of the rotating-log store.

/// A write is found again: after one append, the newest entry under the
/// written node is the written entry, whatever rotation did.
pub proof fn lemma_log_push_find(shards: Seq<Seq<EntryV>>, mc: int, mb: int, e: EntryV)
    requires
        shards.len() >= 1,
        mc >= 1,
    ensures
        log_find(log_push(shards, mc, mb, e), e.key.node) == Some(e),
{
    let out = log_push(shards, mc, mb, e);
    if entries_ser(shards.last()).len() + crate::logformat::entry_ser(e).len() > mb {
        let grown = shards.push(seq![e]);
        assert(grown.last() == seq![e]);
        assert(crate::log::shard_find(seq![e], e.key.node) == Some(e));
        if grown.len() > mc {
            assert(out == grown.drop_first());
            assert(out.last() == grown.last());
        }
    } else {
        let updated = shards.last().push(e);
        assert(out.last() == updated);
        assert(updated.last() == e);
        assert(crate::log::shard_find(updated, e.key.node) == Some(e));
    }
}

/// Round trip of the durable form: every shard's bytes parse back to exactly
/// the entries the shard held.
pub proof fn lemma_shard_roundtrip(es: Seq<EntryV>)
    requires
        entries_wf(es),
    ensures
        entries_parse(entries_ser(es), 0) == Some(es),
{
    let s = entries_ser(es);
    assert(s.subrange(0, s.len() as int) =~= s);
    lemma_entries_roundtrip(s, 0, es);
}

/// Round trip of one write: append an entry, take the durable bytes, reopen,
/// and the newest record under the written node is the written entry.
pub proof fn lemma_log_write_reopen_find(shards: Seq<Seq<EntryV>>, mc: int, mb: int, e: EntryV)
    requires
        shards.len() >= 1,
        mc >= 1,
        e.wf(),
        forall|i: int| 0 <= i < shards.len() ==> entries_wf(#[trigger] shards[i]),
    ensures
        forall|i: int|
            0 <= i < log_push(shards, mc, mb, e).len() ==> entries_parse(
                entries_ser(#[trigger] log_push(shards, mc, mb, e)[i]),
                0,
            ) == Some(log_push(shards, mc, mb, e)[i]),
        log_find(log_push(shards, mc, mb, e), e.key.node) == Some(e),
{
    let out = log_push(shards, mc, mb, e);
    lemma_log_push_find(shards, mc, mb, e);
    assert forall|i: int| 0 <= i < out.len() implies entries_parse(
        entries_ser(#[trigger] out[i]),
        0,
    ) == Some(out[i]) by {
        assert(entries_wf(out[i])) by {
            lemma_log_push_shards_wf(shards, mc, mb, e, i);
        }
        lemma_shard_roundtrip(out[i]);
    }
}

/// Every shard after a push holds only well-formed entries.
proof fn lemma_log_push_shards_wf(shards: Seq<Seq<EntryV>>, mc: int, mb: int, e: EntryV, i: int)
    requires
        shards.len() >= 1,
        e.wf(),
        forall|k: int| 0 <= k < shards.len() ==> entries_wf(#[trigger] shards[k]),
        0 <= i < log_push(shards, mc, mb, e).len(),
    ensures
        entries_wf(log_push(shards, mc, mb, e)[i]),
{
    let out = log_push(shards, mc, mb, e);
    if entries_ser(shards.last()).len() + crate::logformat::entry_ser(e).len() > mb {
        assert(entries_wf(seq![e])) by {
            assert(seq![e][0] == e);
        }
    } else {
        let updated = shards.last().push(e);
        assert(entries_wf(updated)) by {
            assert(forall|k: int|
                0 <= k < shards.last().len() ==> updated[k] == #[trigger] shards.last()[k]);
            assert(updated[shards.last().len() as int] == e);
        }
    }
}

/// The missing-key probe is sound and complete: a key is reported missing
/// exactly when it was asked about and the store holds no record under its
/// node, and reports keep the input order.
pub proof fn lemma_missing_exact(shards: Seq<Seq<EntryV>>, ks: Seq<KeyV>, k: KeyV)
    ensures
        spec_missing(shards, ks).contains(k) <==> (ks.contains(k) && log_find(shards, k.node)
            is None),
    decreases ks.len(),
{
    if ks.len() == 0 {
        assert(!spec_missing(shards, ks).contains(k));
        assert(!ks.contains(k));
    } else {
        lemma_missing_exact(shards, ks.drop_last(), k);
        let head = spec_missing(shards, ks.drop_last());
        let tail = if log_find(shards, ks.last().node) is None {
            seq![ks.last()]
        } else {
            Seq::<KeyV>::empty()
        };
        assert(spec_missing(shards, ks) == head + tail);
        if spec_missing(shards, ks).contains(k) {
            let idx = choose|idx: int|
                0 <= idx < (head + tail).len() && (head + tail)[idx] == k;
            if idx < head.len() {
                assert(head.contains(k));
                assert(ks.drop_last().contains(k));
                let j = choose|j: int| 0 <= j < ks.drop_last().len() && ks.drop_last()[j] == k;
                assert(ks[j] == k);
                assert(ks.contains(k));
            } else {
                assert((head + tail)[idx] == tail[idx - head.len()]);
                assert(k == ks.last());
                assert(ks.contains(k)) by {
                    assert(ks[ks.len() - 1] == k);
                }
            }
        }
        if ks.contains(k) && log_find(shards, k.node) is None {
            let j = choose|j: int| 0 <= j < ks.len() && ks[j] == k;
            if j < ks.len() - 1 {
                assert(ks.drop_last()[j] == k);
                assert(ks.drop_last().contains(k));
                assert(head.contains(k));
                let idx = choose|idx: int| 0 <= idx < head.len() && head[idx] == k;
                assert((head + tail)[idx] == k);
                assert(spec_missing(shards, ks).contains(k));
            } else {
                assert(ks.last() == k);
                assert(tail == seq![k]);
                assert((head + tail)[head.len() as int] == k);
                assert(spec_missing(shards, ks).contains(k));
            }
        }
    }
}

} // verus!
