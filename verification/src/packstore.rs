use vstd::prelude::*;

use crate::datapack::{delta_of, first_match, DataPack};
use crate::historypack::{anc_view, ancestors_ok, hist_lookup, info_of, HistoryPack};
use crate::repack::has_ext;
use crate::types::{keys_view, Delta, Key, KeyV, NodeInfo, StoreError};

verus! {

// The pack store: a front over the packs of one directory. The store holds
// the packs that opened; discovery, rescans and deletion act on the
// filesystem and stay with the caller, which feeds openings and failures
// through the decisions here.

/// What to do with a pack that fails to open.
pub enum CorruptionPolicy {
    /// Skip the pack and remember not to retry it.
    IGNORE,
    /// Delete the pack file and its index.
    REMOVE,
}

/// Whether an open failure under this policy deletes the pack's two files.
pub fn should_delete_corrupt(policy: &CorruptionPolicy) -> (r: bool)
    ensures
        r == (policy is REMOVE),
{
    match policy {
        CorruptionPolicy::REMOVE => true,
        CorruptionPolicy::IGNORE => false,
    }
}

/// How many listed files carry one of the two extensions.
pub open spec fn spec_matching(files: Seq<(Seq<u8>, u64)>, e1: Seq<u8>, e2: Seq<u8>) -> int
    decreases files.len(),
{
    if files.len() == 0 {
        0
    } else {
        spec_matching(files.drop_last(), e1, e2) + if has_ext(files.last().0, e1) || has_ext(
            files.last().0,
            e2,
        ) {
            1int
        } else {
            0int
        }
    }
}

/// Their total byte size.
pub open spec fn spec_matching_size(files: Seq<(Seq<u8>, u64)>, e1: Seq<u8>, e2: Seq<u8>) -> int
    decreases files.len(),
{
    if files.len() == 0 {
        0
    } else {
        spec_matching_size(files.drop_last(), e1, e2) + if has_ext(files.last().0, e1) || has_ext(
            files.last().0,
            e2,
        ) {
            files.last().1 as int
        } else {
            0int
        }
    }
}

pub open spec fn files_view(fs: Seq<(Vec<u8>, u64)>) -> Seq<(Seq<u8>, u64)> {
    Seq::new(fs.len(), |i: int| (fs[i].0@, fs[i].1))
}

/// The store's metrics over a directory listing: the number of packs (half
/// the matching files, one pack and one index each) and their total byte
/// size.
pub fn compute_store_size(files: &Vec<(Vec<u8>, u64)>, ext1: &Vec<u8>, ext2: &Vec<u8>) -> (r: (
    usize,
    u128,
))
    ensures
        r.0 as int == spec_matching(files_view(files@), ext1@, ext2@) / 2,
        r.1 as int == spec_matching_size(files_view(files@), ext1@, ext2@),
{
    let ghost fv = files_view(files@);
    let mut count: usize = 0;
    let mut size: u128 = 0;
    let mut i: usize = 0;
    proof {
        assert(fv.subrange(0, 0) =~= Seq::<(Seq<u8>, u64)>::empty());
    }
    while i < files.len()
        invariant
            i <= files@.len(),
            fv == files_view(files@),
            count <= i,
            count as int == spec_matching(fv.subrange(0, i as int), ext1@, ext2@),
            size as int == spec_matching_size(fv.subrange(0, i as int), ext1@, ext2@),
            size <= (i as u128) * 0xFFFF_FFFF_FFFF_FFFFu128,
        decreases files@.len() - i,
    {
        let (ref name, fsize) = files[i];
        let m1 = crate::repack::name_has_ext(name, ext1);
        let m2 = crate::repack::name_has_ext(name, ext2);
        proof {
            assert((i as u128 + 1) * 0xFFFF_FFFF_FFFF_FFFFu128
                < 0xFFFF_FFFF_FFFF_FFFF_FFFF_FFFF_FFFF_FFFFu128) by (nonlinear_arith)
                requires
                    i as u128 + 1 <= 0x1_0000_0000_0000_0000u128,
            ;
            assert(size + (fsize as u128) <= (i as u128 + 1) * 0xFFFF_FFFF_FFFF_FFFFu128)
                by (nonlinear_arith)
                requires
                    size <= (i as u128) * 0xFFFF_FFFF_FFFF_FFFFu128,
                    fsize <= 0xFFFF_FFFF_FFFF_FFFFu64,
            ;
            assert((i as u128) * 0xFFFF_FFFF_FFFF_FFFFu128 <= (i as u128 + 1)
                * 0xFFFF_FFFF_FFFF_FFFFu128) by (nonlinear_arith);
        }
        if m1 || m2 {
            count = count + 1;
            size = size + (fsize as u128);
        }
        i = i + 1;
        proof {
            let pre = fv.subrange(0, i - 1);
            let post = fv.subrange(0, i as int);
            assert(post.drop_last() =~= pre);
            assert(post.last() == fv[i - 1]);
            assert(fv[i - 1] == (files@[i - 1].0@, files@[i - 1].1));
        }
    }
    proof {
        assert(fv.subrange(0, fv.len() as int) =~= fv);
    }
    (count / 2, size)
}

/// Whether a stem is among the remembered ones.
pub open spec fn stem_known(stems: Seq<Vec<u8>>, stem: Seq<u8>) -> bool {
    exists|i: int| 0 <= i < stems.len() && (#[trigger] stems[i])@ == stem
}

/// Whether a lookup at `now` should rescan the directory first: a rescan was
/// forced, none ever ran, or the last one is at least the interval old.
pub open spec fn spec_should_rescan(
    needs_rescan: bool,
    last_scan: Option<u64>,
    interval: u64,
    now: u64,
) -> bool {
    ||| needs_rescan
    ||| last_scan is None
    ||| last_scan->Some_0 + interval <= now
}

/// A front over many opened data packs. Lookups take the first pack that
/// answers; the probe order is the order the packs were handed in. The store
/// also remembers when the directory was last scanned and which stems failed
/// to open, so the caller neither rescans too often nor retries a bad pack
/// on every lookup.
pub struct DataPackStore {
    pub packs: Vec<DataPack>,
    pub policy: CorruptionPolicy,
    pub needs_rescan: bool,
    pub last_scan: Option<u64>,
    pub rescan_interval: u64,
    pub failed_stems: Vec<Vec<u8>>,
}

impl DataPackStore {
    pub open spec fn wf(&self) -> bool {
        forall|i: int| 0 <= i < self.packs@.len() ==> (#[trigger] self.packs@[i]).wf()
    }

    pub fn new(policy: CorruptionPolicy, rescan_interval: u64) -> (r: DataPackStore)
        ensures
            r.wf(),
            r.packs@.len() == 0,
            r.failed_stems@.len() == 0,
            r.needs_rescan,
            r.rescan_interval == rescan_interval,
    {
        DataPackStore {
            packs: Vec::new(),
            policy,
            needs_rescan: true,
            last_scan: None,
            rescan_interval,
            failed_stems: Vec::new(),
        }
    }

    /// Whether a lookup at `now` should rescan the directory first.
    pub fn should_rescan(&self, now: u64) -> (r: bool)
        ensures
            r == spec_should_rescan(self.needs_rescan, self.last_scan, self.rescan_interval, now),
    {
        if self.needs_rescan {
            return true;
        }
        match self.last_scan {
            None => true,
            Some(t) => t <= now && now - t >= self.rescan_interval,
        }
    }

    /// Note that a directory scan just ran.
    pub fn mark_scanned(&mut self, now: u64)
        requires
            old(self).wf(),
        ensures
            final(self).wf(),
            final(self).last_scan == Some(now),
            !final(self).needs_rescan,
            final(self).packs == old(self).packs,
            final(self).policy == old(self).policy,
            final(self).rescan_interval == old(self).rescan_interval,
            final(self).failed_stems == old(self).failed_stems,
    {
        self.last_scan = Some(now);
        self.needs_rescan = false;
    }

    /// Remember a stem whose pack failed to open, so it is skipped instead
    /// of re-opened on every later lookup.
    pub fn note_failed(&mut self, stem: Vec<u8>)
        requires
            old(self).wf(),
        ensures
            final(self).wf(),
            final(self).failed_stems@ == old(self).failed_stems@.push(stem),
            final(self).packs == old(self).packs,
    {
        self.failed_stems.push(stem);
    }

    /// Whether this stem failed to open before.
    pub fn is_known_failed(&self, stem: &Vec<u8>) -> (r: bool)
        ensures
            r == stem_known(self.failed_stems@, stem@),
    {
        let mut i: usize = 0;
        while i < self.failed_stems.len()
            invariant
                i <= self.failed_stems@.len(),
                forall|k: int| 0 <= k < i ==> (#[trigger] self.failed_stems@[k])@ != stem@,
            decreases self.failed_stems@.len() - i,
        {
            if crate::codec::bytes_eq(&self.failed_stems[i], stem) {
                return true;
            }
            i = i + 1;
        }
        false
    }

    /// Hand one freshly opened pack to the store.
    pub fn add_pack(&mut self, pack: DataPack)
        requires
            old(self).wf(),
            pack.wf(),
        ensures
            final(self).wf(),
            final(self).packs@.len() == old(self).packs@.len() + 1,
    {
        self.packs.push(pack);
        proof {
            assert forall|i: int| 0 <= i < self.packs@.len() implies (
            #[trigger] self.packs@[i]).wf() by {
                if i < self.packs@.len() - 1 {
                    assert(self.packs@[i] == old(self).packs@[i]);
                }
            }
        }
    }

    /// Ask the next lookup to rescan the directory first.
    pub fn force_rescan(&mut self)
        requires
            old(self).wf(),
        ensures
            final(self).wf(),
            final(self).needs_rescan,
            final(self).packs == old(self).packs,
            final(self).policy == old(self).policy,
            final(self).failed_stems == old(self).failed_stems,
    {
        self.needs_rescan = true;
    }

    /// The delta under the key, from the first pack holding its node.
    pub fn get_delta(&self, key: &Key) -> (r: Result<Delta, StoreError>)
        requires
            self.wf(),
            key.wf(),
        ensures
            match r {
                Ok(d) => exists|i: int|
                    0 <= i < self.packs@.len() && (first_match(
                        (#[trigger] self.packs@[i]).view_records(),
                        key@.node,
                    ) matches Some(rec) && d@ == delta_of(rec)),
                Err(err) => err matches StoreError::NotFound(k) && k@ == key@ && forall|i: int|
                    0 <= i < self.packs@.len() ==> first_match(
                        (#[trigger] self.packs@[i]).view_records(),
                        key@.node,
                    ) is None,
            },
    {
        let mut i: usize = 0;
        while i < self.packs.len()
            invariant
                self.wf(),
                key.wf(),
                i <= self.packs@.len(),
                forall|k: int|
                    0 <= k < i ==> first_match(
                        (#[trigger] self.packs@[k]).view_records(),
                        key@.node,
                    ) is None,
            decreases self.packs@.len() - i,
        {
            match self.packs[i].get_delta(key) {
                Ok(d) => {
                    return Ok(d);
                },
                Err(_) => {},
            }
            i = i + 1;
        }
        Err(StoreError::NotFound(key.clone_key()))
    }

    /// Exactly the keys no pack holds a record for, in input order.
    pub fn get_missing(&self, keys: &Vec<Key>) -> (r: Result<Vec<Key>, StoreError>)
        requires
            self.wf(),
            forall|i: int| 0 <= i < keys@.len() ==> (#[trigger] keys@[i]).wf(),
        ensures
            r matches Ok(v) && keys_view(v@) == store_missing(self.packs@, keys_view(keys@)),
    {
        let mut out: Vec<Key> = Vec::new();
        let mut i: usize = 0;
        proof {
            assert(keys_view(out@) =~= store_missing(
                self.packs@,
                keys_view(keys@).subrange(0, 0),
            ));
        }
        while i < keys.len()
            invariant
                self.wf(),
                i <= keys@.len(),
                forall|k: int| 0 <= k < keys@.len() ==> (#[trigger] keys@[k]).wf(),
                keys_view(out@) == store_missing(
                    self.packs@,
                    keys_view(keys@).subrange(0, i as int),
                ),
            decreases keys@.len() - i,
        {
            let ghost pre = keys_view(keys@).subrange(0, i as int);
            let ghost post = keys_view(keys@).subrange(0, i + 1);
            let k = &keys[i];
            let ghost old_out = out@;
            let mut found = false;
            let mut p: usize = 0;
            while p < self.packs.len() && !found
                invariant
                    self.wf(),
                    i < keys@.len(),
                    k == keys@[i as int],
                    keys@[i as int].wf(),
                    p <= self.packs@.len(),
                    !found ==> forall|m: int|
                        0 <= m < p ==> first_match(
                            (#[trigger] self.packs@[m]).view_records(),
                            keys@[i as int]@.node,
                        ) is None,
                    found ==> !all_miss(self.packs@, keys@[i as int]@.node),
                decreases self.packs@.len() - p,
            {
                match self.packs[p].lookup(&k.node) {
                    Some(pos) => {
                        found = true;
                        proof {
                            crate::datapack::lemma_first_match_at(
                                self.packs@[p as int].view_records(),
                                keys@[i as int]@.node,
                                pos as int,
                            );
                            assert(!(first_match(
                                self.packs@[p as int].view_records(),
                                keys@[i as int]@.node,
                            ) is None));
                        }
                    },
                    None => {
                        proof {
                            crate::datapack::lemma_first_match_none(
                                self.packs@[p as int].view_records(),
                                keys@[i as int]@.node,
                            );
                        }
                    },
                }
                p = p + 1;
            }
            if !found {
                proof {
                    assert(all_miss(self.packs@, keys@[i as int]@.node));
                }
                out.push(k.clone_key());
            }
            i = i + 1;
            proof {
                assert(post.drop_last() =~= pre);
                assert(post.last() == keys_view(keys@)[i - 1]);
                assert(keys_view(keys@)[i - 1] == keys@[i - 1]@);
                if all_miss(self.packs@, keys@[i - 1]@.node) {
                    assert(keys_view(out@) =~= keys_view(old_out) + seq![keys@[i - 1]@]);
                } else {
                    assert(keys_view(out@) =~= keys_view(old_out));
                }
            }
        }
        proof {
            assert(keys_view(keys@).subrange(0, keys@.len() as int) =~= keys_view(keys@));
        }
        Ok(out)
    }
}

/// No pack holds a record under the node.
pub open spec fn all_miss(packs: Seq<DataPack>, node: Seq<u8>) -> bool {
    forall|p: int|
        0 <= p < packs.len() ==> first_match((#[trigger] packs[p]).view_records(), node) is None
}

/// The keys of `ks` that no pack holds a record for, in input order.
pub open spec fn store_missing(packs: Seq<DataPack>, ks: Seq<KeyV>) -> Seq<KeyV>
    decreases ks.len(),
{
    if ks.len() == 0 {
        Seq::empty()
    } else {
        store_missing(packs, ks.drop_last()) + if all_miss(packs, ks.last().node) {
            seq![ks.last()]
        } else {
            Seq::empty()
        }
    }
}

/// A front over many opened history packs, with the same scan and failure
/// memory as the data-pack front.
pub struct HistoryPackStore {
    pub packs: Vec<HistoryPack>,
    pub policy: CorruptionPolicy,
    pub needs_rescan: bool,
    pub last_scan: Option<u64>,
    pub rescan_interval: u64,
    pub failed_stems: Vec<Vec<u8>>,
}

impl HistoryPackStore {
    pub open spec fn wf(&self) -> bool {
        forall|i: int| 0 <= i < self.packs@.len() ==> (#[trigger] self.packs@[i]).wf()
    }

    pub fn new(policy: CorruptionPolicy, rescan_interval: u64) -> (r: HistoryPackStore)
        ensures
            r.wf(),
            r.packs@.len() == 0,
            r.failed_stems@.len() == 0,
            r.needs_rescan,
            r.rescan_interval == rescan_interval,
    {
        HistoryPackStore {
            packs: Vec::new(),
            policy,
            needs_rescan: true,
            last_scan: None,
            rescan_interval,
            failed_stems: Vec::new(),
        }
    }

    /// Whether a lookup at `now` should rescan the directory first.
    pub fn should_rescan(&self, now: u64) -> (r: bool)
        ensures
            r == spec_should_rescan(self.needs_rescan, self.last_scan, self.rescan_interval, now),
    {
        if self.needs_rescan {
            return true;
        }
        match self.last_scan {
            None => true,
            Some(t) => t <= now && now - t >= self.rescan_interval,
        }
    }

    /// Note that a directory scan just ran.
    pub fn mark_scanned(&mut self, now: u64)
        requires
            old(self).wf(),
        ensures
            final(self).wf(),
            final(self).last_scan == Some(now),
            !final(self).needs_rescan,
            final(self).packs == old(self).packs,
            final(self).policy == old(self).policy,
            final(self).rescan_interval == old(self).rescan_interval,
            final(self).failed_stems == old(self).failed_stems,
    {
        self.last_scan = Some(now);
        self.needs_rescan = false;
    }

    /// Remember a stem whose pack failed to open.
    pub fn note_failed(&mut self, stem: Vec<u8>)
        requires
            old(self).wf(),
        ensures
            final(self).wf(),
            final(self).failed_stems@ == old(self).failed_stems@.push(stem),
            final(self).packs == old(self).packs,
    {
        self.failed_stems.push(stem);
    }

    /// Whether this stem failed to open before.
    pub fn is_known_failed(&self, stem: &Vec<u8>) -> (r: bool)
        ensures
            r == stem_known(self.failed_stems@, stem@),
    {
        let mut i: usize = 0;
        while i < self.failed_stems.len()
            invariant
                i <= self.failed_stems@.len(),
                forall|k: int| 0 <= k < i ==> (#[trigger] self.failed_stems@[k])@ != stem@,
            decreases self.failed_stems@.len() - i,
        {
            if crate::codec::bytes_eq(&self.failed_stems[i], stem) {
                return true;
            }
            i = i + 1;
        }
        false
    }

    pub fn add_pack(&mut self, pack: HistoryPack)
        requires
            old(self).wf(),
            pack.wf(),
        ensures
            final(self).wf(),
            final(self).packs@.len() == old(self).packs@.len() + 1,
    {
        self.packs.push(pack);
        proof {
            assert forall|i: int| 0 <= i < self.packs@.len() implies (
            #[trigger] self.packs@[i]).wf() by {
                if i < self.packs@.len() - 1 {
                    assert(self.packs@[i] == old(self).packs@[i]);
                }
            }
        }
    }

    pub fn force_rescan(&mut self)
        requires
            old(self).wf(),
        ensures
            final(self).wf(),
            final(self).needs_rescan,
            final(self).packs == old(self).packs,
            final(self).policy == old(self).policy,
            final(self).failed_stems == old(self).failed_stems,
    {
        self.needs_rescan = true;
    }

    /// The ancestry record under the key, from the first pack holding it.
    pub fn get_node_info(&self, key: &Key) -> (r: Result<NodeInfo, StoreError>)
        requires
            self.wf(),
            key.wf(),
        ensures
            match r {
                Ok(info) => exists|i: int|
                    0 <= i < self.packs@.len() && (hist_lookup(
                        (#[trigger] self.packs@[i])@,
                        key@.path,
                        key@.node,
                    ) matches Some(e) && info@ == info_of(key@.path, e)),
                Err(err) => err matches StoreError::NotFound(k) && k@ == key@ && forall|i: int|
                    0 <= i < self.packs@.len() ==> hist_lookup(
                        (#[trigger] self.packs@[i])@,
                        key@.path,
                        key@.node,
                    ) is None,
            },
    {
        let mut i: usize = 0;
        while i < self.packs.len()
            invariant
                self.wf(),
                key.wf(),
                i <= self.packs@.len(),
                forall|k: int|
                    0 <= k < i ==> hist_lookup(
                        (#[trigger] self.packs@[k])@,
                        key@.path,
                        key@.node,
                    ) is None,
            decreases self.packs@.len() - i,
        {
            match self.packs[i].get_node_info(key) {
                Ok(info) => {
                    return Ok(info);
                },
                Err(_) => {},
            }
            i = i + 1;
        }
        Err(StoreError::NotFound(key.clone_key()))
    }

    /// The ancestors of the key within the first pack that holds it. Fails
    /// exactly when no pack holds a record under the start key.
    pub fn get_ancestors(&self, key: &Key) -> (r: Result<Vec<(Key, NodeInfo)>, StoreError>)
        requires
            self.wf(),
            key.wf(),
        ensures
            match r {
                Ok(m) => exists|i: int|
                    0 <= i < self.packs@.len() && ancestors_ok(
                        (#[trigger] self.packs@[i])@,
                        key@,
                        anc_view(m@),
                    ),
                Err(err) => err matches StoreError::NotFound(k) && k@ == key@ && forall|i: int|
                    0 <= i < self.packs@.len() ==> hist_lookup(
                        (#[trigger] self.packs@[i])@,
                        key@.path,
                        key@.node,
                    ) is None,
            },
    {
        let mut i: usize = 0;
        while i < self.packs.len()
            invariant
                self.wf(),
                key.wf(),
                i <= self.packs@.len(),
                forall|k: int|
                    0 <= k < i ==> hist_lookup(
                        (#[trigger] self.packs@[k])@,
                        key@.path,
                        key@.node,
                    ) is None,
            decreases self.packs@.len() - i,
        {
            match self.packs[i].get_ancestors(key) {
                Ok(m) => {
                    return Ok(m);
                },
                Err(_) => {},
            }
            i = i + 1;
        }
        Err(StoreError::NotFound(key.clone_key()))
    }
}

} // verus!
