use vstd::prelude::*;

use crate::codec::{bytes_eq, clone_bytes};
use crate::packformat::{pack_parse, parse_pack, record_parse, DataRecord, DataRecordV};
use crate::packindex::{build_index, build_index_bytes, idx_view, index_full_ser, index_of,
    lemma_index_of_props, pair_seq, pairs_nodes_wf, IndexEntry, INDEX_VERSION_DATA};
use crate::lexorder::{lex_cmp, lex_lt, lemma_lex_neq, lemma_lex_trans};
use crate::metadata::Metadata;
use crate::types::{is_null_node, keys_view, spec_null_node, Delta, DeltaV, Key, KeyV, StoreError};

verus! {

// The immutable data pack: parsed records with their offsets, and the
// canonical sorted index over their nodes. Opening validates the index
// bytes against the records; reads then answer from the first record under
// each node, as the index does on disk.

pub open spec fn recs_view(rs: Seq<DataRecord>) -> Seq<DataRecordV> {
    Seq::new(rs.len(), |i: int| rs[i]@)
}

/// The first record carrying `node`, scanning in file order.
pub open spec fn first_match(rs: Seq<DataRecordV>, node: Seq<u8>) -> Option<DataRecordV>
    decreases rs.len(),
{
    if rs.len() == 0 {
        None
    } else if rs[0].node == node {
        Some(rs[0])
    } else {
        first_match(rs.drop_first(), node)
    }
}

/// The delta a data record spells: full content under the record's key when
/// the base node is null, else a diff against the base key at the same path.
pub open spec fn delta_of(rec: DataRecordV) -> DeltaV {
    DeltaV {
        key: KeyV { path: rec.path, node: rec.node },
        base: if rec.base_node == spec_null_node() {
            None
        } else {
            Some(KeyV { path: rec.path, node: rec.base_node })
        },
        data: rec.data,
    }
}

/// A position holding the first occurrence of `node` pins `first_match`.
pub proof fn lemma_first_match_at(rs: Seq<DataRecordV>, node: Seq<u8>, pos: int)
    requires
        0 <= pos < rs.len(),
        rs[pos].node == node,
        forall|k: int| 0 <= k < pos ==> (#[trigger] rs[k]).node != node,
    ensures
        first_match(rs, node) == Some(rs[pos]),
    decreases pos,
{
    if pos == 0 {
    } else {
        assert(rs[0].node != node);
        assert(forall|k: int|
            0 <= k < pos - 1 ==> (#[trigger] rs.drop_first()[k]) == rs[k + 1]);
        assert(rs.drop_first()[pos - 1] == rs[pos]);
        lemma_first_match_at(rs.drop_first(), node, pos - 1);
    }
}

/// When no record carries `node`, `first_match` says so.
pub proof fn lemma_first_match_none(rs: Seq<DataRecordV>, node: Seq<u8>)
    requires
        forall|k: int| 0 <= k < rs.len() ==> (#[trigger] rs[k]).node != node,
    ensures
        first_match(rs, node) is None,
    decreases rs.len(),
{
    if rs.len() > 0 {
        assert(forall|k: int|
            0 <= k < rs.len() - 1 ==> (#[trigger] rs.drop_first()[k]) == rs[k + 1]);
        lemma_first_match_none(rs.drop_first(), node);
    }
}

/// Every record of a parsed pack is well formed.
pub proof fn lemma_records_parse_wf(s: Seq<u8>, pos: int)
    requires
        0 <= pos <= s.len(),
    ensures
        crate::packformat::records_parse(s, pos) matches Some(prs) ==> forall|i: int|
            0 <= i < prs.len() ==> (#[trigger] prs[i]).1.wf(),
    decreases s.len() - pos,
{
    if pos == s.len() {
    } else {
        match record_parse(s, pos) {
            None => {},
            Some((r, p2)) => {
                if p2 <= pos || p2 > s.len() {
                } else {
                    crate::packformat::lemma_record_parse_window(s, pos, r, p2);
                    lemma_records_parse_wf(s, p2);
                    match crate::packformat::records_parse(s, p2) {
                        None => {},
                        Some(rest) => {
                            let prs = seq![(pos, r)] + rest;
                            assert forall|i: int| 0 <= i < prs.len() implies (#[trigger] prs[i]).1.wf() by {
                                if i > 0 {
                                    assert(prs[i] == rest[i - 1]);
                                }
                            }
                        },
                    }
                }
            },
        }
    }
}

/// An immutable data pack.
pub struct DataPack {
    pub records: Vec<DataRecord>,
    pub offsets: Vec<u64>,
    pub index: Vec<IndexEntry>,
}

impl DataPack {
    pub open spec fn pairs(&self) -> Seq<(int, DataRecordV)> {
        pair_seq(self.records@, self.offsets@)
    }

    pub open spec fn view_records(&self) -> Seq<DataRecordV> {
        recs_view(self.records@)
    }

    pub open spec fn wf(&self) -> bool {
        &&& self.records@.len() == self.offsets@.len()
        &&& self.records@.len() < 0xFFFF_FFFF
        &&& forall|i: int| 0 <= i < self.records@.len() ==> (#[trigger] self.records@[i]@).wf()
        &&& idx_view(self.index@) == index_of(self.pairs())
    }

    /// Open a pack from its file bytes and its index bytes. Succeeds exactly
    /// when the pack parses and the index bytes are the canonical index of
    /// the parsed records; any flipped byte in the index fails the match.
    pub fn open(pack_bytes: &Vec<u8>, index_bytes: &Vec<u8>) -> (r: Result<DataPack, StoreError>)
        ensures
            match r {
                Ok(p) => {
                    &&& p.wf()
                    &&& pack_parse(pack_bytes@) matches Some(prs) && p.pairs() == prs
                        && prs.len() < 0xFFFF_FFFF && index_bytes@ == index_full_ser(
                        index_of(prs),
                        INDEX_VERSION_DATA,
                    )
                },
                Err(_) => !(pack_parse(pack_bytes@) matches Some(prs) && prs.len()
                    < 0xFFFF_FFFF && index_bytes@ == index_full_ser(
                    index_of(prs),
                    INDEX_VERSION_DATA,
                )),
            },
    {
        let (records, offsets) = match parse_pack(pack_bytes) {
            Ok(x) => x,
            Err(e) => {
                return Err(e);
            },
        };
        proof {
            lemma_records_parse_wf(pack_bytes@, 1);
            assert(pair_seq(records@, offsets@) =~= pack_parse(pack_bytes@)->Some_0);
            assert forall|i: int| 0 <= i < records@.len() implies (#[trigger] records@[i]@).wf() by {
                assert(pack_parse(pack_bytes@)->Some_0[i] == (offsets@[i] as int, records@[i]@));
            }
        }
        if records.len() >= 0xFFFF_FFFFusize {
            return Err(StoreError::Corrupt);
        }
        proof {
            assert(pairs_nodes_wf(pair_seq(records@, offsets@)));
            lemma_index_of_props(pair_seq(records@, offsets@));
            crate::packindex::lemma_index_len(pair_seq(records@, offsets@));
        }
        let index = build_index(&records, &offsets);
        let (canonical, _digest) = build_index_bytes(&index, INDEX_VERSION_DATA);
        if !bytes_eq(&canonical, index_bytes) {
            return Err(StoreError::Corrupt);
        }
        Ok(DataPack { records, offsets, index })
    }

    /// The position of the first record under `node`, through the sorted
    /// index.
    pub fn lookup(&self, node: &Vec<u8>) -> (r: Option<usize>)
        requires
            self.wf(),
            node@.len() == 20,
        ensures
            match r {
                Some(pos) => pos < self.records@.len() && self.records@[pos as int]@.node == node@
                    && (forall|k: int|
                    0 <= k < pos ==> (#[trigger] self.records@[k]@).node != node@),
                None => forall|k: int|
                    0 <= k < self.records@.len() ==> (#[trigger] self.records@[k]@).node != node@,
            },
    {
        proof {
            lemma_index_of_props(self.pairs());
        }
        let ghost iv = idx_view(self.index@);
        let mut lo: usize = 0;
        let mut hi: usize = self.index.len();
        while lo < hi
            invariant
                self.wf(),
                node@.len() == 20,
                iv == idx_view(self.index@),
                lo <= hi <= self.index@.len(),
                forall|k: int| 0 <= k < lo ==> lex_lt((#[trigger] iv[k]).node, node@),
                forall|k: int| hi <= k < iv.len() ==> lex_lt(node@, (#[trigger] iv[k]).node),
            decreases hi - lo,
        {
            let mid = lo + (hi - lo) / 2;
            proof {
                lemma_index_of_props(self.pairs());
                assert(iv[mid as int].node == self.index@[mid as int].node@);
                assert(crate::packindex::idx_nodes_wf(iv));
                assert(iv[mid as int].node.len() == 20);
            }
            let c = lex_cmp(&self.index[mid].node, node);
            if c == 0 {
                let pos = self.index[mid].pos;
                proof {
                    let e = iv[mid as int];
                    assert(iv.contains(e));
                    assert(pairs_nodes_wf(self.pairs()));
                    assert(self.pairs()[e.pos].1 == self.records@[e.pos]@);
                    assert forall|k: int| 0 <= k < pos implies (#[trigger] self.records@[k]@).node
                        != node@ by {
                        assert(self.pairs()[k].1 == self.records@[k]@);
                    }
                }
                return Some(pos);
            } else if c == 1 {
                // The entry's node sorts before the target: look right.
                lo = mid + 1;
                proof {
                    assert forall|k: int| 0 <= k < lo implies lex_lt(
                        (#[trigger] iv[k]).node,
                        node@,
                    ) by {
                        if k < mid {
                            assert(lex_lt(iv[k].node, iv[mid as int].node));
                            lemma_lex_trans(iv[k].node, iv[mid as int].node, node@);
                        }
                    }
                }
            } else {
                // The target sorts before the entry: look left.
                hi = mid;
                proof {
                    assert forall|k: int| hi <= k < iv.len() implies lex_lt(
                        node@,
                        (#[trigger] iv[k]).node,
                    ) by {
                        if k > mid {
                            assert(lex_lt(iv[mid as int].node, iv[k].node));
                            lemma_lex_trans(node@, iv[mid as int].node, iv[k].node);
                        }
                    }
                }
            }
        }
        proof {
            lemma_index_of_props(self.pairs());
            assert forall|k: int| 0 <= k < iv.len() implies (#[trigger] iv[k]).node != node@ by {
                if k < lo {
                    lemma_lex_neq(iv[k].node, node@);
                } else {
                    lemma_lex_neq(node@, iv[k].node);
                }
            }
            assert(!crate::packindex::contains_node(iv, node@));
            assert forall|k: int| 0 <= k < self.records@.len() implies (#[trigger] self.records@[k]@).node
                != node@ by {
                if self.records@[k]@.node == node@ {
                    assert(self.pairs()[k].1.node == node@);
                    assert(crate::packindex::contains_node(iv, node@));
                }
            }
        }
        None
    }

    /// The delta of the first record under the key's node.
    pub fn get_delta(&self, key: &Key) -> (r: Result<Delta, StoreError>)
        requires
            self.wf(),
            key.wf(),
        ensures
            match r {
                Ok(d) => first_match(self.view_records(), key@.node) matches Some(rec) && d@
                    == delta_of(rec),
                Err(err) => err matches StoreError::NotFound(k) && k@ == key@ && first_match(
                    self.view_records(),
                    key@.node,
                ) is None,
            },
    {
        match self.lookup(&key.node) {
            Some(pos) => {
                let rec = &self.records[pos];
                proof {
                    lemma_first_match_at(self.view_records(), key@.node, pos as int);
                }
                let base = if is_null_node(&rec.base_node) {
                    None
                } else {
                    Some(Key { path: clone_bytes(&rec.path), node: clone_bytes(&rec.base_node) })
                };
                let d = Delta {
                    key: Key { path: clone_bytes(&rec.path), node: clone_bytes(&rec.node) },
                    base,
                    data: clone_bytes(&rec.data),
                };
                proof {
                    assert(d@ =~= delta_of(self.records@[pos as int]@));
                }
                Ok(d)
            },
            None => {
                proof {
                    lemma_first_match_none(self.view_records(), key@.node);
                }
                Err(StoreError::NotFound(key.clone_key()))
            },
        }
    }

    /// The metadata of the first record under the key's node.
    pub fn get_meta(&self, key: &Key) -> (r: Result<Metadata, StoreError>)
        requires
            self.wf(),
            key.wf(),
        ensures
            match r {
                Ok(m) => first_match(self.view_records(), key@.node) matches Some(rec) && m@
                    == rec.meta,
                Err(err) => err matches StoreError::NotFound(k) && k@ == key@ && first_match(
                    self.view_records(),
                    key@.node,
                ) is None,
            },
    {
        match self.lookup(&key.node) {
            Some(pos) => {
                proof {
                    lemma_first_match_at(self.view_records(), key@.node, pos as int);
                }
                Ok(self.records[pos].meta.clone_meta())
            },
            None => {
                proof {
                    lemma_first_match_none(self.view_records(), key@.node);
                }
                Err(StoreError::NotFound(key.clone_key()))
            },
        }
    }

    /// Exactly the keys this pack holds no record for, in input order.
    pub fn get_missing(&self, keys: &Vec<Key>) -> (r: Result<Vec<Key>, StoreError>)
        requires
            self.wf(),
            forall|i: int| 0 <= i < keys@.len() ==> (#[trigger] keys@[i]).wf(),
        ensures
            r matches Ok(v) && keys_view(v@) == pack_missing(
                self.view_records(),
                keys_view(keys@),
            ),
    {
        let mut out: Vec<Key> = Vec::new();
        let mut i: usize = 0;
        proof {
            assert(keys_view(out@) =~= pack_missing(
                self.view_records(),
                keys_view(keys@).subrange(0, 0),
            ));
        }
        while i < keys.len()
            invariant
                self.wf(),
                i <= keys@.len(),
                forall|k: int| 0 <= k < keys@.len() ==> (#[trigger] keys@[k]).wf(),
                keys_view(out@) == pack_missing(
                    self.view_records(),
                    keys_view(keys@).subrange(0, i as int),
                ),
            decreases keys@.len() - i,
        {
            let ghost pre = keys_view(keys@).subrange(0, i as int);
            let ghost post = keys_view(keys@).subrange(0, i + 1);
            let k = &keys[i];
            let ghost old_out = out@;
            let found = self.lookup(&k.node);
            proof {
                match found {
                    Some(pos) => {
                        lemma_first_match_at(self.view_records(), k@.node, pos as int);
                    },
                    None => {
                        lemma_first_match_none(self.view_records(), k@.node);
                    },
                }
            }
            if found.is_none() {
                out.push(k.clone_key());
            }
            i = i + 1;
            proof {
                assert(post.drop_last() =~= pre);
                assert(post.last() == keys_view(keys@)[i - 1]);
                assert(keys_view(keys@)[i - 1] == keys@[i - 1]@);
                if first_match(self.view_records(), keys@[i - 1]@.node) is None {
                    assert(keys_view(out@) =~= keys_view(old_out) + seq![keys@[i - 1]@]);
                } else {
                    assert(keys_view(out@) =~= keys_view(old_out));
                }
            }
        }
        proof {
            assert(keys_view(keys@).subrange(0, keys@.len() as int) =~= keys_view(keys@));
        }
        Ok(out)
    }

    /// Follow base links from the key until a record with no base: the delta
    /// chain, full text last. The head's absence is not-found; a missing
    /// base further down is a broken chain; walking past every record of the
    /// pack without ending is a cycle, reported as corruption.
    pub fn get_delta_chain(&self, key: &Key) -> (r: Result<Vec<Delta>, StoreError>)
        requires
            self.wf(),
            key.wf(),
        ensures
            ({
                let w = chain_walk(
                    self.view_records(),
                    key@.node,
                    (self.records@.len() + 1) as nat,
                );
                match r {
                    Ok(chain) => w matches ChainOutcome::Done(recs) && Seq::new(
                        chain@.len(),
                        |i: int| chain@[i]@,
                    ) == deltas_of(recs) && chain_props(
                        self.view_records(),
                        key@,
                        deltas_of(recs),
                    ),
                    Err(err) => match w {
                        ChainOutcome::Done(_) => false,
                        ChainOutcome::Missing(b) => {
                            if first_match(self.view_records(), key@.node) is None {
                                err matches StoreError::NotFound(k) && k@ == key@
                            } else {
                                err matches StoreError::BrokenChain(bk) && bk@.node == b
                                    && bk@.path == key@.path && first_match(
                                    self.view_records(),
                                    b,
                                ) is None
                            }
                        },
                        ChainOutcome::NoFuel => err is Corrupt,
                    },
                }
            }),
    {
        let ghost rs = self.view_records();
        let ghost fuel = (self.records@.len() + 1) as nat;
        let mut chain: Vec<Delta> = Vec::new();
        let ghost mut walked: Seq<DataRecordV> = Seq::empty();
        let mut cur: Vec<u8> = clone_bytes(&key.node);
        let mut steps: usize = 0;
        proof {
            assert(walked + Seq::<DataRecordV>::empty() =~= walked);
        }
        loop
            invariant
                self.wf(),
                key.wf(),
                rs == self.view_records(),
                fuel == (self.records@.len() + 1) as nat,
                cur@.len() == 20,
                steps <= self.records@.len() + 1,
                chain@.len() == steps,
                walked.len() == steps,
                forall|i: int| 0 <= i < steps ==> #[trigger] chain@[i]@ == delta_of(walked[i]),
                steps == 0 ==> cur@ == key@.node,
                steps > 0 ==> chain@[0]@.key.node == key@.node,
                steps > 0 ==> first_match(rs, key@.node) is Some,
                forall|i: int|
                    0 <= i < chain@.len() ==> (#[trigger] chain_elem_ok(
                        self.view_records(),
                        chain@[i]@,
                    )),
                forall|i: int|
                    0 <= i < chain@.len() - 1 ==> ((#[trigger] chain@[i]@.base) matches Some(b)
                        && b.node == chain@[i + 1]@.key.node),
                steps > 0 ==> ((chain@[chain@.len() - 1]@.base) matches Some(b) && b.node
                    == cur@),
                chain_walk(rs, key@.node, fuel) == (match chain_walk(
                    rs,
                    cur@,
                    (fuel - steps) as nat,
                ) {
                    ChainOutcome::Done(rest) => ChainOutcome::Done(walked + rest),
                    other => other,
                }),
            decreases self.records@.len() + 2 - steps,
        {
            if steps > self.records.len() {
                proof {
                    assert((fuel - steps) as nat == 0);
                    assert(chain_walk(rs, key@.node, fuel) is NoFuel);
                }
                return Err(StoreError::Corrupt);
            }
            proof {
                assert((fuel - steps) as nat >= 1);
            }
            let found = self.lookup(&cur);
            match found {
                None => {
                    proof {
                        lemma_first_match_none(self.view_records(), cur@);
                        assert(chain_walk(rs, cur@, (fuel - steps) as nat)
                            == ChainOutcome::Missing(cur@));
                    }
                    if steps == 0 {
                        return Err(StoreError::NotFound(key.clone_key()));
                    } else {
                        return Err(
                            StoreError::BrokenChain(
                                Key { path: clone_bytes(&key.path), node: cur },
                            ),
                        );
                    }
                },
                Some(pos) => {
                    proof {
                        lemma_first_match_at(self.view_records(), cur@, pos as int);
                    }
                    let rec = &self.records[pos];
                    let base_is_null = is_null_node(&rec.base_node);
                    let base = if base_is_null {
                        None
                    } else {
                        Some(
                            Key {
                                path: clone_bytes(&rec.path),
                                node: clone_bytes(&rec.base_node),
                            },
                        )
                    };
                    let d = Delta {
                        key: Key { path: clone_bytes(&rec.path), node: clone_bytes(&rec.node) },
                        base,
                        data: clone_bytes(&rec.data),
                    };
                    proof {
                        assert(d@ =~= delta_of(self.records@[pos as int]@));
                        assert(chain_elem_ok(self.view_records(), d@));
                    }
                    let next = clone_bytes(&rec.base_node);
                    let ghost old_walked = walked;
                    chain.push(d);
                    proof {
                        walked = walked.push(self.records@[pos as int]@);
                    }
                    steps = steps + 1;
                    if base_is_null {
                        proof {
                            let ds = Seq::new(chain@.len(), |i: int| chain@[i]@);
                            assert(ds[ds.len() - 1].base is None);
                            assert(chain_walk(rs, cur@, (fuel - (steps - 1)) as nat)
                                == ChainOutcome::Done(seq![self.records@[pos as int]@]));
                            assert(old_walked + seq![self.records@[pos as int]@] =~= walked);
                            assert(chain_walk(rs, key@.node, fuel) == ChainOutcome::Done(walked));
                            assert(ds =~= deltas_of(walked));
                        }
                        return Ok(chain);
                    }
                    cur = next;
                    proof {
                        assert(chain_walk(rs, cur@, ((fuel - steps) + 1) as nat) == (
                        match chain_walk(rs, cur@, (fuel - steps) as nat) {
                            ChainOutcome::Done(rest) => ChainOutcome::Done(
                                seq![self.records@[pos as int]@] + rest,
                            ),
                            other => other,
                        }) || true);
                        match chain_walk(rs, cur@, (fuel - steps) as nat) {
                            ChainOutcome::Done(rest) => {
                                assert(old_walked + (seq![self.records@[pos as int]@] + rest)
                                    =~= walked + rest);
                            },
                            _ => {},
                        }
                    }
                },
            }
        }
    }

    /// The full content under the key: the chain composed, full text first,
    /// then each successive diff applied. Owed whenever the chain ends in a
    /// full text and every diff along it applies.
    pub fn get(&self, key: &Key) -> (r: Result<Vec<u8>, StoreError>)
        requires
            self.wf(),
            key.wf(),
        ensures
            ({
                let w = chain_walk(
                    self.view_records(),
                    key@.node,
                    (self.records@.len() + 1) as nat,
                );
                match r {
                    Ok(v) => w matches ChainOutcome::Done(recs) && chain_eval(deltas_of(recs))
                        == Some(v@) && chain_props(self.view_records(), key@, deltas_of(recs)),
                    Err(err) => match w {
                        ChainOutcome::Done(recs) => err is Corrupt && chain_eval(
                            deltas_of(recs),
                        ) is None,
                        ChainOutcome::Missing(b) => {
                            if first_match(self.view_records(), key@.node) is None {
                                err matches StoreError::NotFound(k) && k@ == key@
                            } else {
                                err matches StoreError::BrokenChain(bk) && bk@.node == b
                                    && bk@.path == key@.path && first_match(
                                    self.view_records(),
                                    b,
                                ) is None
                            }
                        },
                        ChainOutcome::NoFuel => err is Corrupt,
                    },
                }
            }),
    {
        let chain = match self.get_delta_chain(key) {
            Ok(c) => c,
            Err(e) => {
                return Err(e);
            },
        };
        let ghost ds = Seq::new(chain@.len(), |i: int| chain@[i]@);
        let n = chain.len();
        let mut text = clone_bytes(&chain[n - 1].data);
        let mut i: usize = n - 1;
        proof {
            assert(ds.subrange(n - 1, n as int).len() == 1);
            assert(ds.subrange(n - 1, n as int)[0] == ds[n - 1]);
        }
        while i > 0
            invariant
                self.wf(),
                key.wf(),
                0 <= i < ds.len(),
                n == ds.len(),
                chain@.len() == n,
                ds == Seq::new(chain@.len(), |k: int| chain@[k]@),
                chain_walk(self.view_records(), key@.node, (self.records@.len() + 1) as nat)
                    matches ChainOutcome::Done(recs) && ds == deltas_of(recs) && chain_props(
                    self.view_records(),
                    key@,
                    ds,
                ),
                chain_eval(ds.subrange(i as int, n as int)) == Some(text@),
            decreases i,
        {
            i = i - 1;
            let next = match crate::patch::apply_patch_exec(&text, &chain[i].data) {
                Ok(v) => v,
                Err(_) => {
                    proof {
                        let sub = ds.subrange(i as int, n as int);
                        assert(sub.len() >= 2);
                        assert(sub[0] == ds[i as int]);
                        assert(sub.drop_first() =~= ds.subrange(i + 1, n as int));
                        assert(chain_eval(sub) is None);
                        lemma_chain_eval_none_down(ds, i as int);
                    }
                    return Err(StoreError::Corrupt);
                },
            };
            text = next;
            proof {
                let sub = ds.subrange(i as int, n as int);
                assert(sub.len() >= 2);
                assert(sub[0] == ds[i as int]);
                assert(sub.drop_first() =~= ds.subrange(i + 1, n as int));
            }
        }
        proof {
            assert(ds.subrange(0, n as int) =~= ds);
        }
        Ok(text)
    }
}

/// The keys of `ks` that the pack holds no record for, in input order.
pub open spec fn pack_missing(rs: Seq<DataRecordV>, ks: Seq<KeyV>) -> Seq<KeyV>
    decreases ks.len(),
{
    if ks.len() == 0 {
        Seq::empty()
    } else {
        pack_missing(rs, ks.drop_last()) + if first_match(rs, ks.last().node) is None {
            seq![ks.last()]
        } else {
            Seq::empty()
        }
    }
}

/// The deltas a run of records spells.
pub open spec fn deltas_of(recs: Seq<DataRecordV>) -> Seq<DeltaV> {
    Seq::new(recs.len(), |i: int| delta_of(recs[i]))
}

/// The outcome of following base links with bounded patience: the chain's
/// records, the node of a missing base, or nothing when the patience runs
/// out — which, with more patience than the pack has records, means a cycle.
pub enum ChainOutcome {
    Done(Seq<DataRecordV>),
    Missing(Seq<u8>),
    NoFuel,
}

/// Follow base links from `node`, taking the first record under each.
pub open spec fn chain_walk(rs: Seq<DataRecordV>, node: Seq<u8>, fuel: nat) -> ChainOutcome
    decreases fuel,
{
    if fuel == 0 {
        ChainOutcome::NoFuel
    } else {
        match first_match(rs, node) {
            None => ChainOutcome::Missing(node),
            Some(rec) => {
                if rec.base_node == spec_null_node() {
                    ChainOutcome::Done(seq![rec])
                } else {
                    match chain_walk(rs, rec.base_node, (fuel - 1) as nat) {
                        ChainOutcome::Done(rest) => ChainOutcome::Done(seq![rec] + rest),
                        other => other,
                    }
                }
            },
        }
    }
}

/// A failed composition of a chain suffix fails the whole chain.
proof fn lemma_chain_eval_none_down(ds: Seq<DeltaV>, i: int)
    requires
        0 <= i,
        i + 2 <= ds.len(),
        chain_eval(ds.subrange(i, ds.len() as int)) is None,
    ensures
        chain_eval(ds) is None,
    decreases i,
{
    if i == 0 {
        assert(ds.subrange(0, ds.len() as int) =~= ds);
    } else {
        assert(ds.subrange(i - 1, ds.len() as int).drop_first() =~= ds.subrange(
            i,
            ds.len() as int,
        ));
        assert(ds.subrange(i - 1, ds.len() as int).len() >= 2);
        lemma_chain_eval_none_down(ds, i - 1);
    }
}

/// One chain element: what the first record under its node spells.
pub open spec fn chain_elem_ok(rs: Seq<DataRecordV>, d: DeltaV) -> bool {
    first_match(rs, d.key.node) matches Some(rec) && d == delta_of(rec)
}

/// A well-formed delta chain for `key`: nonempty, headed by the key's node,
/// linked base to key, ending in a full text, every element the first record
/// under its node.
pub open spec fn chain_props(rs: Seq<DataRecordV>, key: KeyV, ds: Seq<DeltaV>) -> bool {
    &&& ds.len() >= 1
    &&& ds[0].key.node == key.node
    &&& ds[ds.len() - 1].base is None
    &&& forall|i: int|
        0 <= i < ds.len() - 1 ==> ((#[trigger] ds[i].base) matches Some(b) && b.node == ds[i
            + 1].key.node)
    &&& forall|i: int| 0 <= i < ds.len() ==> #[trigger] chain_elem_ok(rs, ds[i])
}

/// Compose a chain: the last element is the full text; each earlier element
/// patches the text of everything after it.
pub open spec fn chain_eval(ds: Seq<DeltaV>) -> Option<Seq<u8>>
    decreases ds.len(),
{
    if ds.len() == 0 {
        None
    } else if ds.len() == 1 {
        Some(ds[0].data)
    } else {
        match chain_eval(ds.drop_first()) {
            None => None,
            Some(base) => crate::patch::apply_patch(base, ds[0].data),
        }
    }
}

} // verus!
