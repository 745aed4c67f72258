use vstd::prelude::*;

use crate::codec::{clone_bytes, push_bytes};
use crate::logformat::{encode_entry, entries_parse, entries_ser, entries_wf, entry_parse,
    entry_ser, lemma_entry_parse_window, parse_entry, EntryV};
use crate::metadata::Metadata;
use crate::types::{Key, StoreError};

verus! {

// The indexed rotating log: an append-only sequence of shards, each a run of
// encoded entries keyed by node. The active shard is the newest; appending
// rotates to a fresh shard when the active one would outgrow its byte cap,
// and the oldest shard is dropped when the shard count would outgrow its cap.

/// Default cap on the number of shards.
pub const DEFAULT_MAX_LOG_COUNT: usize = 10;

/// Default cap on the byte size of one shard: one gibibyte.
pub const DEFAULT_MAX_BYTES_PER_LOG: usize = 0x40000000;

/// One stored entry: the key it was written under, its metadata, and the
/// LZ4 block of its payload.
pub struct LogEntry {
    pub key: Key,
    pub meta: Metadata,
    pub compressed: Vec<u8>,
}

impl View for LogEntry {
    type V = EntryV;

    open spec fn view(&self) -> EntryV {
        EntryV { key: self.key@, meta: self.meta@, compressed: self.compressed@ }
    }
}

/// One shard: its entries and their exact serialized bytes.
pub struct Shard {
    pub bytes: Vec<u8>,
    pub entries: Vec<LogEntry>,
}

impl Shard {
    pub open spec fn view_entries(&self) -> Seq<EntryV> {
        Seq::new(self.entries@.len(), |i: int| self.entries@[i]@)
    }

    pub open spec fn wf(&self) -> bool {
        &&& self.bytes@ == entries_ser(self.view_entries())
        &&& entries_wf(self.view_entries())
    }
}

/// Search one shard, newest entry first.
pub open spec fn shard_find(es: Seq<EntryV>, node: Seq<u8>) -> Option<EntryV>
    decreases es.len(),
{
    if es.len() == 0 {
        None
    } else if es.last().key.node == node {
        Some(es.last())
    } else {
        shard_find(es.drop_last(), node)
    }
}

/// Search the whole log, newest shard first.
pub open spec fn log_find(shards: Seq<Seq<EntryV>>, node: Seq<u8>) -> Option<EntryV>
    decreases shards.len(),
{
    if shards.len() == 0 {
        None
    } else {
        match shard_find(shards.last(), node) {
            Some(e) => Some(e),
            None => log_find(shards.drop_last(), node),
        }
    }
}

/// What one append does to the shard sequence: extend the active shard, or
/// rotate to a fresh one and drop the oldest when the counts demand it.
pub open spec fn log_push(
    shards: Seq<Seq<EntryV>>,
    max_count: int,
    max_bytes: int,
    e: EntryV,
) -> Seq<Seq<EntryV>>
    recommends
        shards.len() >= 1,
{
    if entries_ser(shards.last()).len() + entry_ser(e).len() > max_bytes {
        let grown = shards.push(seq![e]);
        if grown.len() > max_count {
            grown.drop_first()
        } else {
            grown
        }
    } else {
        shards.update(shards.len() - 1, shards.last().push(e))
    }
}

/// The rotating log.
pub struct RotateLog {
    pub shards: Vec<Shard>,
    pub max_log_count: usize,
    pub max_bytes_per_log: usize,
}

impl View for RotateLog {
    type V = Seq<Seq<EntryV>>;

    open spec fn view(&self) -> Seq<Seq<EntryV>> {
        Seq::new(self.shards@.len(), |i: int| self.shards@[i].view_entries())
    }
}

impl RotateLog {
    pub open spec fn wf(&self) -> bool {
        &&& 1 <= self.shards@.len() <= self.max_log_count
        &&& self.max_log_count >= 1
        &&& forall|i: int| 0 <= i < self.shards@.len() ==> (#[trigger] self.shards@[i]).wf()
    }

    /// A fresh log with one empty shard.
    pub fn new(max_log_count: usize, max_bytes_per_log: usize) -> (r: RotateLog)
        requires
            max_log_count >= 1,
        ensures
            r.wf(),
            r@ == seq![Seq::<EntryV>::empty()],
            r.max_log_count == max_log_count,
            r.max_bytes_per_log == max_bytes_per_log,
    {
        let mut shards: Vec<Shard> = Vec::new();
        shards.push(Shard { bytes: Vec::new(), entries: Vec::new() });
        let r = RotateLog { shards, max_log_count, max_bytes_per_log };
        proof {
            assert(r.shards@[0].view_entries() =~= Seq::<EntryV>::empty());
            assert(r@ =~= seq![Seq::<EntryV>::empty()]);
        }
        r
    }

    /// Append one entry, rotating as the caps demand.
    pub fn append(&mut self, key: &Key, meta: &Metadata, compressed: Vec<u8>)
        requires
            old(self).wf(),
            key.wf(),
            meta.wf(),
        ensures
            final(self).wf(),
            final(self)@ == log_push(
                old(self)@,
                old(self).max_log_count as int,
                old(self).max_bytes_per_log as int,
                EntryV { key: key@, meta: meta@, compressed: compressed@ },
            ),
            final(self).max_log_count == old(self).max_log_count,
            final(self).max_bytes_per_log == old(self).max_bytes_per_log,
    {
        let ghost e = EntryV { key: key@, meta: meta@, compressed: compressed@ };
        let enc = encode_entry(key, meta, &compressed);
        let el = enc.len();
        let entry = LogEntry { key: key.clone_key(), meta: meta.clone_meta(), compressed };
        proof {
            assert(entry@ =~= e);
            assert(e.compressed.len() <= el);
            assert(e.wf());
            assert(self.shards@[self.shards@.len() - 1].wf());
            assert(self@.last() == self.shards@[self.shards@.len() - 1].view_entries());
        }
        let last_len = {
            let n = self.shards.len();
            self.shards[n - 1].bytes.len()
        };
        if last_len >= self.max_bytes_per_log || enc.len() > self.max_bytes_per_log - last_len {
            // Rotate: a fresh active shard holding just this entry.
            let mut entries: Vec<LogEntry> = Vec::new();
            entries.push(entry);
            let shard = Shard { bytes: enc, entries };
            proof {
                assert(shard.view_entries() =~= seq![e]);
                assert(entries_ser(seq![e]) =~= entries_ser(
                    seq![e].drop_last(),
                ) + entry_ser(e));
                assert(seq![e].drop_last() =~= Seq::<EntryV>::empty());
                assert(entries_ser(shard.view_entries()) =~= entry_ser(e));
                assert(entries_wf(seq![e])) by {
                    assert(seq![e][0] == e);
                }
                assert(shard.wf());
            }
            self.shards.push(shard);
            if self.shards.len() > self.max_log_count {
                let _dropped = self.shards.remove(0);
                proof {
                    assert(self@ =~= old(self)@.push(seq![e]).drop_first());
                }
            } else {
                proof {
                    assert(self@ =~= old(self)@.push(seq![e]));
                }
            }
        } else {
            // Extend the active shard in place.
            let n = self.shards.len();
            let mut shard = self.shards.remove(n - 1);
            let ghost old_entries = shard.view_entries();
            push_bytes(&mut shard.bytes, &enc);
            shard.entries.push(entry);
            proof {
                assert(shard.view_entries() =~= old_entries.push(e));
                assert(entries_ser(old_entries.push(e)) == entries_ser(
                    old_entries.push(e).drop_last(),
                ) + entry_ser(old_entries.push(e).last()));
                assert(old_entries.push(e).drop_last() =~= old_entries);
                assert(old_entries.push(e).last() == e);
                assert(entries_wf(old_entries.push(e))) by {
                    assert(forall|i: int|
                        0 <= i < old_entries.len() ==> old_entries.push(e)[i]
                            == #[trigger] old_entries[i]);
                    assert(old_entries.push(e)[old_entries.len() as int] == e);
                }
                assert(shard.wf());
            }
            self.shards.push(shard);
            proof {
                assert(self@ =~= old(self)@.update(old(self)@.len() - 1, old(self)@.last().push(e)));
            }
        }
    }

    /// Find the newest entry stored under `node`: the shard and entry index.
    pub fn find(&self, node: &Vec<u8>) -> (r: Option<(usize, usize)>)
        requires
            self.wf(),
        ensures
            match r {
                Some((i, j)) => {
                    &&& i < self@.len()
                    &&& j < self@[i as int].len()
                    &&& log_find(self@, node@) == Some(self@[i as int][j as int])
                },
                None => log_find(self@, node@) is None,
            },
    {
        let mut i: usize = self.shards.len();
        proof {
            assert(self@.subrange(0, self@.len() as int) =~= self@);
        }
        while i > 0
            invariant
                self.wf(),
                i <= self@.len(),
                log_find(self@, node@) == log_find(self@.subrange(0, i as int), node@),
            decreases i,
        {
            i = i - 1;
            let shard = &self.shards[i];
            let ghost es = self@[i as int];
            let mut j: usize = shard.entries.len();
            proof {
                assert(es.subrange(0, es.len() as int) =~= es);
            }
            while j > 0
                invariant
                    self.wf(),
                    i < self@.len(),
                    es == self@[i as int],
                    j <= es.len(),
                    shard == self.shards@[i as int],
                    shard_find(es, node@) == shard_find(es.subrange(0, j as int), node@),
                    log_find(self@, node@) == log_find(self@.subrange(0, i + 1), node@),
                decreases j,
            {
                j = j - 1;
                let entry = &shard.entries[j];
                proof {
                    assert(es.subrange(0, j + 1).last() == es[j as int]);
                    assert(es[j as int] == entry@);
                    assert(es.subrange(0, j + 1).drop_last() =~= es.subrange(0, j as int));
                }
                if crate::codec::bytes_eq(&entry.key.node, node) {
                    proof {
                        assert(shard_find(es.subrange(0, j + 1), node@) == Some(es[j as int]));
                        assert(self@.subrange(0, i + 1).last() == es);
                        assert(self@.subrange(0, i + 1).drop_last() =~= self@.subrange(
                            0,
                            i as int,
                        ));
                        assert(log_find(self@.subrange(0, i + 1), node@) == Some(es[j as int]));
                    }
                    return Some((i, j));
                }
            }
            proof {
                assert(es.subrange(0, 0) =~= Seq::<EntryV>::empty());
                assert(shard_find(es, node@) is None);
                assert(self@.subrange(0, i + 1).last() == es);
                assert(self@.subrange(0, i + 1).drop_last() =~= self@.subrange(0, i as int));
            }
        }
        proof {
            assert(self@.subrange(0, 0) =~= Seq::<Seq<EntryV>>::empty());
        }
        None
    }

    /// The durable form of the log: each shard's bytes, oldest first.
    pub fn shard_bytes(&self) -> (r: Vec<Vec<u8>>)
        requires
            self.wf(),
        ensures
            r@.len() == self@.len(),
            forall|i: int| 0 <= i < r@.len() ==> #[trigger] r@[i]@ == entries_ser(self@[i]),
    {
        let mut out: Vec<Vec<u8>> = Vec::new();
        let mut i: usize = 0;
        while i < self.shards.len()
            invariant
                self.wf(),
                i <= self@.len(),
                out@.len() == i,
                forall|k: int| 0 <= k < i ==> #[trigger] out@[k]@ == entries_ser(self@[k]),
            decreases self@.len() - i,
        {
            proof {
                assert(self.shards@[i as int].wf());
            }
            out.push(clone_bytes(&self.shards[i].bytes));
            i = i + 1;
        }
        out
    }

    /// Reopen a log from its durable shard bytes. Succeeds exactly when every
    /// shard parses; the reopened log holds exactly the entries the bytes
    /// spell, oldest shard first.
    pub fn open(
        shard_bytes: Vec<Vec<u8>>,
        max_log_count: usize,
        max_bytes_per_log: usize,
    ) -> (r: Result<RotateLog, StoreError>)
        requires
            max_log_count >= 1,
            shard_bytes@.len() <= max_log_count,
        ensures
            match r {
                Ok(log) => {
                    &&& log.wf()
                    &&& log.max_log_count == max_log_count
                    &&& log.max_bytes_per_log == max_bytes_per_log
                    &&& if shard_bytes@.len() == 0 {
                        log@ == seq![Seq::<EntryV>::empty()]
                    } else {
                        log@.len() == shard_bytes@.len() && forall|i: int|
                            0 <= i < shard_bytes@.len() ==> entries_parse(
                                #[trigger] shard_bytes@[i]@,
                                0,
                            ) == Some(log@[i])
                    }
                },
                Err(_) => exists|i: int|
                    0 <= i < shard_bytes@.len() && entries_parse(#[trigger] shard_bytes@[i]@, 0)
                        is None,
            },
    {
        if shard_bytes.len() == 0 {
            return Ok(RotateLog::new(max_log_count, max_bytes_per_log));
        }
        let mut shards: Vec<Shard> = Vec::new();
        let mut i: usize = 0;
        while i < shard_bytes.len()
            invariant
                i <= shard_bytes@.len(),
                shards@.len() == i,
                forall|k: int|
                    0 <= k < i ==> (#[trigger] shards@[k]).wf() && entries_parse(
                        shard_bytes@[k]@,
                        0,
                    ) == Some(shards@[k].view_entries()),
            decreases shard_bytes@.len() - i,
        {
            let sb = &shard_bytes[i];
            let shard = match parse_shard(sb) {
                Ok(s) => s,
                Err(e) => {
                    proof {
                        assert(entries_parse(shard_bytes@[i as int]@, 0) is None);
                    }
                    return Err(e);
                },
            };
            shards.push(shard);
            i = i + 1;
        }
        let r = RotateLog { shards, max_log_count, max_bytes_per_log };
        proof {
            assert(forall|i: int| 0 <= i < r@.len() ==> #[trigger] r@[i] == r.shards@[i].view_entries());
        }
        Ok(r)
    }
}

/// Parse one shard: all its entries, to the last byte.
pub fn parse_shard(bytes: &Vec<u8>) -> (r: Result<Shard, StoreError>)
    ensures
        match r {
            Ok(shard) => {
                &&& shard.wf()
                &&& entries_parse(bytes@, 0) == Some(shard.view_entries())
                &&& shard.bytes@ == bytes@
            },
            Err(_) => entries_parse(bytes@, 0) is None,
        },
{
    let n = bytes.len();
    let mut entries: Vec<LogEntry> = Vec::new();
    let mut pos: usize = 0;
    while pos < n
        invariant
            pos <= n,
            n == bytes@.len(),
            entries_wf(Seq::new(entries@.len(), |i: int| entries@[i]@)),
            entries_ser(Seq::new(entries@.len(), |i: int| entries@[i]@)) == bytes@.subrange(
                0,
                pos as int,
            ),
            entries_parse(bytes@, 0) == (match entries_parse(bytes@, pos as int) {
                Some(rest) => Some(Seq::new(entries@.len(), |i: int| entries@[i]@) + rest),
                None => None,
            }),
        decreases n - pos,
    {
        let (key, meta, compressed, end) = match parse_entry(bytes, pos) {
            Ok(x) => x,
            Err(e) => {
                return Err(e);
            },
        };
        let ghost evs = Seq::new(entries@.len(), |i: int| entries@[i]@);
        let ghost ev = EntryV { key: key@, meta: meta@, compressed: compressed@ };
        let ghost oldpos = pos as int;
        entries.push(LogEntry { key, meta, compressed });
        pos = end;
        proof {
            let evs2 = Seq::new(entries@.len(), |i: int| entries@[i]@);
            assert(evs2 =~= evs.push(ev));
            assert(entry_parse(bytes@, oldpos) == Some((ev, pos as int)));
            lemma_entry_parse_window(bytes@, oldpos, ev, pos as int);
            assert(entry_ser(ev) == bytes@.subrange(oldpos, pos as int));
            assert(entries_wf(evs2)) by {
                assert(forall|i: int| 0 <= i < evs.len() ==> evs2[i] == #[trigger] evs[i]);
                assert(evs2[evs.len() as int] == ev);
                assert(ev.wf());
            }
            assert(entries_ser(evs2) == entries_ser(evs2.drop_last()) + entry_ser(evs2.last()));
            assert(evs2.drop_last() =~= evs);
            assert(evs2.last() == ev);
            assert(entries_ser(evs2) =~= bytes@.subrange(0, pos as int)) by {
                assert(bytes@.subrange(0, oldpos) + bytes@.subrange(oldpos, pos as int)
                    =~= bytes@.subrange(0, pos as int));
            }
            match entries_parse(bytes@, pos as int) {
                Some(rest) => {
                    assert(evs + (seq![ev] + rest) =~= evs2 + rest);
                },
                None => {},
            }
        }
    }
    proof {
        assert(entries_parse(bytes@, pos as int) == Some(Seq::<EntryV>::empty()));
        let evs = Seq::new(entries@.len(), |i: int| entries@[i]@);
        assert(evs + Seq::<EntryV>::empty() =~= evs);
        assert(bytes@.subrange(0, n as int) =~= bytes@);
    }
    let shard = Shard { bytes: clone_bytes(bytes), entries };
    Ok(shard)
}

} // verus!
