use vstd::prelude::*;

use crate::codec::{be32, be64, push_be32, push_be64, push_bytes};
use crate::hashing::{sha1_digest, sha1_of};
use crate::lexorder::{lex_cmp, lex_lt, lemma_lex_neq, lemma_lex_total, lemma_lex_trans};
use crate::packformat::DataRecordV;

verus! {

// The pack index: the magic byte, a version byte, a config byte whose low
// bit selects the large fanout, a cumulative fanout table, the entry count,
// the entries sorted by node, and a digest of everything before it. An entry
// maps a node to the offset of its first record in the paired pack.

/// The magic byte opening every index.
pub const INDEX_MAGIC: u8 = 1;

/// Index version byte of a data pack index.
pub const INDEX_VERSION_DATA: u8 = 1;

/// Index version byte of a history pack index.
pub const INDEX_VERSION_HISTORY: u8 = 0;

/// Entry counts above this use the two-byte fanout.
pub const LARGE_FANOUT_CUTOFF: usize = 65536;

/// One index entry: a node, the byte offset of its first record, and that
/// record's position in parse order.
#[verifier::ext_equal]
pub struct IdxV {
    pub node: Seq<u8>,
    pub off: int,
    pub pos: int,
}

pub struct IndexEntry {
    pub node: Vec<u8>,
    pub offset: u64,
    pub pos: usize,
}

impl View for IndexEntry {
    type V = IdxV;

    open spec fn view(&self) -> IdxV {
        IdxV { node: self.node@, off: self.offset as int, pos: self.pos as int }
    }
}

pub open spec fn idx_view(es: Seq<IndexEntry>) -> Seq<IdxV> {
    Seq::new(es.len(), |i: int| es[i]@)
}

pub open spec fn contains_node(es: Seq<IdxV>, node: Seq<u8>) -> bool {
    exists|i: int| 0 <= i < es.len() && (#[trigger] es[i]).node == node
}

pub open spec fn idx_sorted(es: Seq<IdxV>) -> bool {
    forall|i: int, j: int| 0 <= i < j < es.len() ==> lex_lt(#[trigger] es[i].node, #[trigger] es[j].node)
}

pub open spec fn idx_nodes_wf(es: Seq<IdxV>) -> bool {
    forall|i: int| 0 <= i < es.len() ==> (#[trigger] es[i]).node.len() == 20
}

/// Insert an entry before the first entry whose node sorts after it.
pub open spec fn index_insert(es: Seq<IdxV>, e: IdxV) -> Seq<IdxV>
    decreases es.len(),
{
    if es.len() == 0 {
        seq![e]
    } else if lex_lt(e.node, es[0].node) {
        seq![e] + es
    } else {
        seq![es[0]] + index_insert(es.drop_first(), e)
    }
}

/// The canonical index of a pack's records: sorted by node, one entry per
/// distinct node, keeping the first occurrence's offset and position.
pub open spec fn index_of(pairs: Seq<(int, DataRecordV)>) -> Seq<IdxV>
    decreases pairs.len(),
{
    if pairs.len() == 0 {
        Seq::empty()
    } else {
        let prior = index_of(pairs.drop_last());
        let last = pairs.last();
        if contains_node(prior, last.1.node) {
            prior
        } else {
            index_insert(
                prior,
                IdxV { node: last.1.node, off: last.0, pos: pairs.len() - 1 },
            )
        }
    }
}

/// What inserting adds and keeps.
pub proof fn lemma_index_insert_props(es: Seq<IdxV>, e: IdxV)
    requires
        idx_sorted(es),
        idx_nodes_wf(es),
        e.node.len() == 20,
        !contains_node(es, e.node),
    ensures
        idx_sorted(index_insert(es, e)),
        idx_nodes_wf(index_insert(es, e)),
        index_insert(es, e).len() == es.len() + 1,
        forall|x: IdxV| #[trigger] index_insert(es, e).contains(x) <==> (es.contains(x) || x == e),
    decreases es.len(),
{
    let out = index_insert(es, e);
    if es.len() == 0 {
        assert(out =~= seq![e]);
        assert(out[0] == e);
        assert forall|x: IdxV| #[trigger] out.contains(x) implies (es.contains(x) || x == e) by {
            let i = choose|i: int| 0 <= i < out.len() && out[i] == x;
            assert(out[0] == e);
        }
        assert(out.contains(e)) by {
            assert(out[0] == e);
        }
    } else if lex_lt(e.node, es[0].node) {
        assert(out == seq![e] + es);
        assert forall|i: int, j: int| 0 <= i < j < out.len() implies lex_lt(
            #[trigger] out[i].node,
            #[trigger] out[j].node,
        ) by {
            if i == 0 {
                assert(out[0] == e);
                assert(out[j] == es[j - 1]);
                if j - 1 > 0 {
                    assert(lex_lt(es[0].node, es[j - 1].node));
                    lemma_lex_trans(e.node, es[0].node, es[j - 1].node);
                }
            } else {
                assert(out[i] == es[i - 1] && out[j] == es[j - 1]);
            }
        }
        assert forall|x: IdxV| #[trigger] out.contains(x) implies (es.contains(x) || x == e) by {
            let i = choose|i: int| 0 <= i < out.len() && out[i] == x;
            if i > 0 {
                assert(es[i - 1] == x);
            }
        }
        assert forall|x: IdxV| es.contains(x) || x == e implies #[trigger] out.contains(x) by {
            if x == e {
                assert(out[0] == x);
            } else {
                let i = choose|i: int| 0 <= i < es.len() && es[i] == x;
                assert(out[i + 1] == x);
            }
        }
        assert(idx_nodes_wf(out)) by {
            assert forall|i: int| 0 <= i < out.len() implies (#[trigger] out[i]).node.len()
                == 20 by {
                if i > 0 {
                    assert(out[i] == es[i - 1]);
                }
            }
        }
    } else {
        // e sorts after the head: es[0].node < e.node by totality.
        assert(!contains_node(es.drop_first(), e.node)) by {
            assert forall|i: int|
                0 <= i < es.drop_first().len() implies (#[trigger] es.drop_first()[i]).node
                != e.node by {
                assert(es.drop_first()[i] == es[i + 1]);
            }
        }
        assert(idx_sorted(es.drop_first()) && idx_nodes_wf(es.drop_first())) by {
            assert(forall|i: int|
                0 <= i < es.drop_first().len() ==> #[trigger] es.drop_first()[i] == es[i + 1]);
        }
        lemma_lex_total(e.node, es[0].node);
        assert(es[0].node != e.node);
        assert(lex_lt(es[0].node, e.node));
        lemma_index_insert_props(es.drop_first(), e);
        let rest = index_insert(es.drop_first(), e);
        assert(out == seq![es[0]] + rest);
        assert forall|i: int, j: int| 0 <= i < j < out.len() implies lex_lt(
            #[trigger] out[i].node,
            #[trigger] out[j].node,
        ) by {
            if i == 0 {
                assert(out[j] == rest[j - 1]);
                assert(rest.contains(rest[j - 1]));
                if es.drop_first().contains(rest[j - 1]) {
                    let k = choose|k: int|
                        0 <= k < es.drop_first().len() && es.drop_first()[k] == rest[j - 1];
                    assert(es[k + 1] == rest[j - 1]);
                    assert(lex_lt(es[0].node, es[k + 1].node));
                } else {
                    assert(rest[j - 1] == e);
                }
            } else {
                assert(out[i] == rest[i - 1] && out[j] == rest[j - 1]);
            }
        }
        assert forall|x: IdxV| #[trigger] out.contains(x) implies (es.contains(x) || x == e) by {
            let i = choose|i: int| 0 <= i < out.len() && out[i] == x;
            if i == 0 {
                assert(es[0] == x);
            } else {
                assert(rest[i - 1] == x);
                assert(rest.contains(x));
                if es.drop_first().contains(x) {
                    let k = choose|k: int|
                        0 <= k < es.drop_first().len() && es.drop_first()[k] == x;
                    assert(es[k + 1] == x);
                }
            }
        }
        assert forall|x: IdxV| es.contains(x) || x == e implies #[trigger] out.contains(x) by {
            if x == e {
                assert(rest.contains(e));
                let k = choose|k: int| 0 <= k < rest.len() && rest[k] == e;
                assert(out[k + 1] == e);
            } else {
                let i = choose|i: int| 0 <= i < es.len() && es[i] == x;
                if i == 0 {
                    assert(out[0] == x);
                } else {
                    assert(es.drop_first()[i - 1] == x);
                    assert(es.drop_first().contains(x));
                    assert(rest.contains(x));
                    let k = choose|k: int| 0 <= k < rest.len() && rest[k] == x;
                    assert(out[k + 1] == x);
                }
            }
        }
        assert(idx_nodes_wf(out)) by {
            assert forall|i: int| 0 <= i < out.len() implies (#[trigger] out[i]).node.len()
                == 20 by {
                if i > 0 {
                    assert(out[i] == rest[i - 1]);
                    assert(rest.contains(rest[i - 1]));
                    if es.drop_first().contains(rest[i - 1]) {
                        let k = choose|k: int|
                            0 <= k < es.drop_first().len() && es.drop_first()[k] == rest[i - 1];
                    } else {
                        assert(rest[i - 1] == e);
                    }
                }
            }
        }
    }
}

/// All records with 20-byte nodes.
pub open spec fn pairs_nodes_wf(pairs: Seq<(int, DataRecordV)>) -> bool {
    forall|i: int| 0 <= i < pairs.len() ==> (#[trigger] pairs[i]).1.node.len() == 20
}

/// The canonical index is sorted, covers exactly the nodes of the records,
/// and each entry points at the first record carrying its node.
pub proof fn lemma_index_of_props(pairs: Seq<(int, DataRecordV)>)
    requires
        pairs_nodes_wf(pairs),
    ensures
        idx_sorted(index_of(pairs)),
        idx_nodes_wf(index_of(pairs)),
        forall|x: IdxV| #[trigger] index_of(pairs).contains(x) ==> 0 <= x.pos < pairs.len()
            && pairs[x.pos].1.node == x.node && pairs[x.pos].0 == x.off && (forall|k: int|
            0 <= k < x.pos ==> (#[trigger] pairs[k]).1.node != x.node),
        forall|n: Seq<u8>| contains_node(index_of(pairs), n) <==> (exists|i: int|
            0 <= i < pairs.len() && (#[trigger] pairs[i]).1.node == n),
    decreases pairs.len(),
{
    let out = index_of(pairs);
    if pairs.len() == 0 {
    } else {
        let prior = index_of(pairs.drop_last());
        let last = pairs.last();
        assert(pairs_nodes_wf(pairs.drop_last())) by {
            assert(forall|i: int|
                0 <= i < pairs.drop_last().len() ==> #[trigger] pairs.drop_last()[i] == pairs[i]);
        }
        lemma_index_of_props(pairs.drop_last());
        assert(forall|i: int| 0 <= i < pairs.drop_last().len() ==> #[trigger] pairs.drop_last()[i]
            == pairs[i]);
        assert(last == pairs[pairs.len() - 1]);
        assert(last.1.node.len() == 20);
        if contains_node(prior, last.1.node) {
            assert(out == prior);
            assert forall|x: IdxV| #[trigger] out.contains(x) implies 0 <= x.pos < pairs.len()
                && pairs[x.pos].1.node == x.node && pairs[x.pos].0 == x.off && (forall|k: int|
                0 <= k < x.pos ==> (#[trigger] pairs[k]).1.node != x.node) by {
                assert(prior.contains(x));
                assert(pairs.drop_last()[x.pos] == pairs[x.pos]);
                assert forall|k: int| 0 <= k < x.pos implies (#[trigger] pairs[k]).1.node
                    != x.node by {
                    assert(pairs.drop_last()[k] == pairs[k]);
                }
            }
            assert forall|n: Seq<u8>| contains_node(out, n) <==> (exists|i: int|
                0 <= i < pairs.len() && (#[trigger] pairs[i]).1.node == n) by {
                if contains_node(out, n) {
                    let i = choose|i: int| 0 <= i < out.len() && (#[trigger] out[i]).node == n;
                    assert(out.contains(out[i]));
                    assert(pairs[out[i].pos].1.node == n);
                }
                if exists|i: int| 0 <= i < pairs.len() && (#[trigger] pairs[i]).1.node == n {
                    let i = choose|i: int|
                        0 <= i < pairs.len() && (#[trigger] pairs[i]).1.node == n;
                    if i < pairs.len() - 1 {
                        assert(pairs.drop_last()[i] == pairs[i]);
                        assert(contains_node(prior, n));
                    } else {
                        assert(n == last.1.node);
                        assert(contains_node(prior, n));
                    }
                }
            }
        } else {
            let e = IdxV { node: last.1.node, off: last.0, pos: pairs.len() - 1 };
            lemma_index_insert_props(prior, e);
            assert(out == index_insert(prior, e));
            assert forall|x: IdxV| #[trigger] out.contains(x) implies 0 <= x.pos < pairs.len()
                && pairs[x.pos].1.node == x.node && pairs[x.pos].0 == x.off && (forall|k: int|
                0 <= k < x.pos ==> (#[trigger] pairs[k]).1.node != x.node) by {
                if prior.contains(x) {
                    assert(pairs.drop_last()[x.pos] == pairs[x.pos]);
                    assert forall|k: int| 0 <= k < x.pos implies (#[trigger] pairs[k]).1.node
                        != x.node by {
                        assert(pairs.drop_last()[k] == pairs[k]);
                    }
                } else {
                    assert(x == e);
                    assert forall|k: int| 0 <= k < x.pos implies (#[trigger] pairs[k]).1.node
                        != x.node by {
                        if pairs[k].1.node == x.node {
                            assert(pairs.drop_last()[k] == pairs[k]);
                            assert(prior.contains(prior[choose|m: int|
                                0 <= m < prior.len() && prior[m].node == x.node]));
                            assert(contains_node(prior, x.node));
                        }
                    }
                }
            }
            assert forall|n: Seq<u8>| contains_node(out, n) <==> (exists|i: int|
                0 <= i < pairs.len() && (#[trigger] pairs[i]).1.node == n) by {
                if contains_node(out, n) {
                    let i = choose|i: int| 0 <= i < out.len() && (#[trigger] out[i]).node == n;
                    assert(out.contains(out[i]));
                    assert(pairs[out[i].pos].1.node == n);
                }
                if exists|i: int| 0 <= i < pairs.len() && (#[trigger] pairs[i]).1.node == n {
                    let i = choose|i: int|
                        0 <= i < pairs.len() && (#[trigger] pairs[i]).1.node == n;
                    if i < pairs.len() - 1 {
                        assert(pairs.drop_last()[i] == pairs[i]);
                        assert(contains_node(prior, n));
                        let k = choose|k: int|
                            0 <= k < prior.len() && (#[trigger] prior[k]).node == n;
                        assert(prior.contains(prior[k]));
                        assert(out.contains(prior[k]));
                        let m = choose|m: int| 0 <= m < out.len() && out[m] == prior[k];
                        assert(contains_node(out, n));
                    } else {
                        assert(out.contains(e));
                        let m = choose|m: int| 0 <= m < out.len() && out[m] == e;
                        assert(contains_node(out, n));
                    }
                }
            }
        }
    }
}

/// Insertion at the first position whose node sorts after the new entry is
/// exactly what `index_insert` does.
pub proof fn lemma_index_insert_at(es: Seq<IdxV>, e: IdxV, j: int)
    requires
        0 <= j <= es.len(),
        forall|k: int| 0 <= k < j ==> !lex_lt(e.node, (#[trigger] es[k]).node),
        j < es.len() ==> lex_lt(e.node, es[j].node),
    ensures
        index_insert(es, e) == es.subrange(0, j) + seq![e] + es.subrange(j, es.len() as int),
    decreases es.len(),
{
    if es.len() == 0 {
        assert(index_insert(es, e) =~= es.subrange(0, j) + seq![e] + es.subrange(
            j,
            es.len() as int,
        ));
    } else if lex_lt(e.node, es[0].node) {
        assert(j == 0) by {
            if j > 0 {
                assert(!lex_lt(e.node, es[0].node));
            }
        }
        assert(es.subrange(0, es.len() as int) =~= es);
        assert(index_insert(es, e) =~= es.subrange(0, 0) + seq![e] + es.subrange(
            0,
            es.len() as int,
        ));
    } else {
        assert(j >= 1);
        let dropped = es.drop_first();
        assert(forall|k: int| 0 <= k < j - 1 ==> (#[trigger] dropped[k]) == es[k + 1]);
        if j - 1 < dropped.len() {
            assert(dropped[j - 1] == es[j]);
        }
        lemma_index_insert_at(dropped, e, j - 1);
        assert(seq![es[0]] + (dropped.subrange(0, j - 1) + seq![e] + dropped.subrange(
            j - 1,
            dropped.len() as int,
        )) =~= es.subrange(0, j) + seq![e] + es.subrange(j, es.len() as int));
    }
}

/// Whether any entry carries this node.
pub fn contains_node_exec(idx: &Vec<IndexEntry>, node: &Vec<u8>) -> (r: bool)
    ensures
        r == contains_node(idx_view(idx@), node@),
{
    let mut i: usize = 0;
    while i < idx.len()
        invariant
            i <= idx@.len(),
            forall|k: int| 0 <= k < i ==> (#[trigger] idx_view(idx@)[k]).node != node@,
        decreases idx@.len() - i,
    {
        if crate::codec::bytes_eq(&idx[i].node, node) {
            proof {
                assert(idx_view(idx@)[i as int].node == node@);
            }
            return true;
        }
        proof {
            assert(idx_view(idx@)[i as int].node == idx@[i as int].node@);
        }
        i = i + 1;
    }
    false
}

/// The position before the first entry whose node sorts after `node`.
fn find_insert_pos(idx: &Vec<IndexEntry>, node: &Vec<u8>) -> (r: usize)
    requires
        node@.len() == 20,
        idx_nodes_wf(idx_view(idx@)),
    ensures
        r <= idx@.len(),
        forall|k: int| 0 <= k < r ==> !lex_lt(node@, (#[trigger] idx_view(idx@)[k]).node),
        r < idx@.len() ==> lex_lt(node@, idx_view(idx@)[r as int].node),
{
    let mut j: usize = 0;
    while j < idx.len()
        invariant
            j <= idx@.len(),
            node@.len() == 20,
            idx_nodes_wf(idx_view(idx@)),
            forall|k: int| 0 <= k < j ==> !lex_lt(node@, (#[trigger] idx_view(idx@)[k]).node),
        decreases idx@.len() - j,
    {
        proof {
            assert(idx_view(idx@)[j as int].node == idx@[j as int].node@);
            assert(idx_view(idx@)[j as int].node.len() == 20);
        }
        let c = lex_cmp(node, &idx[j].node);
        if c == 1 {
            return j;
        }
        proof {
            if c == 0 {
                crate::lexorder::lemma_lex_irreflexive(node@);
            } else {
                if lex_lt(node@, idx@[j as int].node@) {
                    lemma_lex_trans(node@, idx@[j as int].node@, node@);
                    crate::lexorder::lemma_lex_irreflexive(node@);
                }
            }
        }
        j = j + 1;
    }
    j
}

/// The records of a pack paired with their offsets.
pub open spec fn pair_seq(rs: Seq<DataRecord>, os: Seq<u64>) -> Seq<(int, DataRecordV)>
    recommends
        rs.len() == os.len(),
{
    Seq::new(rs.len(), |i: int| (os[i] as int, rs[i]@))
}

use crate::packformat::DataRecord;

/// Build the canonical index of a pack's records: sorted by node, one entry
/// per distinct node, first occurrence retained.
pub fn build_index(recs: &Vec<DataRecord>, offs: &Vec<u64>) -> (r: Vec<IndexEntry>)
    requires
        recs@.len() == offs@.len(),
        forall|i: int| 0 <= i < recs@.len() ==> (#[trigger] recs@[i]@).node.len() == 20,
    ensures
        idx_view(r@) == index_of(pair_seq(recs@, offs@)),
{
    let ghost pairs = pair_seq(recs@, offs@);
    let mut idx: Vec<IndexEntry> = Vec::new();
    let mut i: usize = 0;
    proof {
        assert(idx_view(idx@) =~= index_of(pairs.subrange(0, 0)));
    }
    while i < recs.len()
        invariant
            i <= recs@.len(),
            recs@.len() == offs@.len(),
            pairs == pair_seq(recs@, offs@),
            forall|k: int| 0 <= k < recs@.len() ==> (#[trigger] recs@[k]@).node.len() == 20,
            idx_view(idx@) == index_of(pairs.subrange(0, i as int)),
        decreases recs@.len() - i,
    {
        let ghost prefix = pairs.subrange(0, i as int);
        let ghost prefix2 = pairs.subrange(0, i + 1);
        proof {
            assert(prefix2.drop_last() =~= prefix);
            assert(prefix2.last() == pairs[i as int]);
            assert(pairs_nodes_wf(prefix)) by {
                assert(forall|k: int|
                    0 <= k < prefix.len() ==> (#[trigger] prefix[k]) == pairs[k]);
            }
            lemma_index_of_props(prefix);
        }
        let rec = &recs[i];
        if !contains_node_exec(&idx, &rec.node) {
            let j = find_insert_pos(&idx, &rec.node);
            let entry = IndexEntry {
                node: crate::codec::clone_bytes(&rec.node),
                offset: offs[i],
                pos: i,
            };
            let ghost e = IdxV { node: rec.node@, off: offs@[i as int] as int, pos: i as int };
            proof {
                assert(entry@ =~= e);
                lemma_index_insert_at(idx_view(idx@), e, j as int);
            }
            idx.insert(j, entry);
            proof {
                let old_view = index_of(prefix);
                assert(idx_view(idx@) =~= old_view.subrange(0, j as int) + seq![e]
                    + old_view.subrange(j as int, old_view.len() as int));
                assert(idx_view(idx@) =~= index_insert(old_view, e));
                assert(index_of(prefix2) == index_insert(old_view, e));
            }
        } else {
            proof {
                assert(index_of(prefix2) == index_of(prefix));
            }
        }
        i = i + 1;
    }
    proof {
        assert(pairs.subrange(0, pairs.len() as int) =~= pairs);
    }
    idx
}

// ---------------------------------------------------------------------------
// Serialization of the index.

/// The fanout bucket of a node: its first byte, or its first two bytes when
/// the large fanout is in use.
pub open spec fn fanout_prefix(node: Seq<u8>, large: bool) -> int
    recommends
        node.len() >= 2,
{
    if large {
        node[0] * 256 + node[1]
    } else {
        node[0] as int
    }
}

pub open spec fn fanout_size(large: bool) -> int {
    if large {
        65536
    } else {
        256
    }
}

/// How many entries fall in buckets up to and including `b`.
pub open spec fn count_le(es: Seq<IdxV>, large: bool, b: int) -> int
    decreases es.len(),
{
    if es.len() == 0 {
        0
    } else {
        count_le(es.drop_last(), large, b) + if fanout_prefix(es.last().node, large) <= b {
            1int
        } else {
            0int
        }
    }
}

/// The cumulative fanout table over buckets `0 .. b`.
pub open spec fn fanout_ser_upto(es: Seq<IdxV>, large: bool, b: int) -> Seq<u8>
    decreases b,
{
    if b <= 0 {
        Seq::empty()
    } else {
        fanout_ser_upto(es, large, b - 1) + be32(count_le(es, large, b - 1) as u32)
    }
}

/// The sorted entries, 28 bytes each.
pub open spec fn idx_entries_ser(es: Seq<IdxV>) -> Seq<u8>
    decreases es.len(),
{
    if es.len() == 0 {
        Seq::empty()
    } else {
        idx_entries_ser(es.drop_last()) + es.last().node + be64(es.last().off as u64)
    }
}

/// Everything before the trailing digest.
pub open spec fn index_body_ser(es: Seq<IdxV>, version: u8) -> Seq<u8> {
    let large = es.len() > 65536;
    seq![INDEX_MAGIC, version, if large { 1u8 } else { 0u8 }] + fanout_ser_upto(
        es,
        large,
        fanout_size(large),
    ) + be64(es.len() as u64) + idx_entries_ser(es)
}

/// The whole index file: the body and the digest of the body.
pub open spec fn index_full_ser(es: Seq<IdxV>, version: u8) -> Seq<u8> {
    index_body_ser(es, version) + sha1_of(index_body_ser(es, version))
}

/// Count the entries in buckets up to and including `b`.
fn count_le_exec(idx: &Vec<IndexEntry>, large: bool, b: u32) -> (r: usize)
    requires
        idx_nodes_wf(idx_view(idx@)),
    ensures
        r == count_le(idx_view(idx@), large, b as int),
{
    let mut c: usize = 0;
    let mut i: usize = 0;
    while i < idx.len()
        invariant
            i <= idx@.len(),
            idx_nodes_wf(idx_view(idx@)),
            c <= i,
            c == count_le(idx_view(idx@).subrange(0, i as int), large, b as int),
        decreases idx@.len() - i,
    {
        proof {
            assert(idx_view(idx@)[i as int].node == idx@[i as int].node@);
            assert(idx_view(idx@)[i as int].node.len() == 20);
        }
        let e = &idx[i];
        let p: u32 = if large {
            (e.node[0] as u32) * 256 + (e.node[1] as u32)
        } else {
            e.node[0] as u32
        };
        let ghost pre = idx_view(idx@).subrange(0, i as int);
        let ghost post = idx_view(idx@).subrange(0, i + 1);
        if p <= b {
            c = c + 1;
        }
        i = i + 1;
        proof {
            assert(post.drop_last() =~= pre);
            assert(post.last() == idx_view(idx@)[i - 1]);
            assert(fanout_prefix(post.last().node, large) == p as int);
        }
    }
    proof {
        assert(idx_view(idx@).subrange(0, idx@.len() as int) =~= idx_view(idx@));
    }
    c
}

/// Serialize the whole index file for these entries: header, fanout table,
/// count, entries, and the trailing digest of everything before it. Yields
/// the file bytes and that digest, whose hex is the pack's name.
pub fn build_index_bytes(idx: &Vec<IndexEntry>, version: u8) -> (r: (Vec<u8>, Vec<u8>))
    requires
        idx_nodes_wf(idx_view(idx@)),
        idx@.len() <= 0xFFFF_FFFFusize,
    ensures
        r.0@ == index_full_ser(idx_view(idx@), version),
        r.1@ == sha1_of(index_body_ser(idx_view(idx@), version)),
{
    let large = idx.len() > LARGE_FANOUT_CUTOFF;
    let fsize: usize = if large {
        65536
    } else {
        256
    };
    let mut body: Vec<u8> = Vec::new();
    body.push(INDEX_MAGIC);
    body.push(version);
    body.push(if large {
        1u8
    } else {
        0u8
    });
    let ghost hdr = seq![INDEX_MAGIC, version, if large { 1u8 } else { 0u8 }];
    proof {
        assert(body@ =~= hdr + fanout_ser_upto(idx_view(idx@), large, 0));
    }
    let mut b: usize = 0;
    while b < fsize
        invariant
            b <= fsize,
            fsize == fanout_size(large),
            large == (idx@.len() > 65536),
            idx_nodes_wf(idx_view(idx@)),
            idx@.len() <= 0xFFFF_FFFFusize,
            body@ == hdr + fanout_ser_upto(idx_view(idx@), large, b as int),
        decreases fsize - b,
    {
        let c = count_le_exec(idx, large, b as u32);
        proof {
            lemma_count_le_bound(idx_view(idx@), large, b as int);
        }
        push_be32(&mut body, c as u32);
        b = b + 1;
        proof {
            assert(body@ =~= hdr + fanout_ser_upto(idx_view(idx@), large, b as int));
        }
    }
    push_be64(&mut body, idx.len() as u64);
    let ghost mid = body@;
    let mut i: usize = 0;
    proof {
        assert(body@ =~= mid + idx_entries_ser(idx_view(idx@).subrange(0, 0)));
    }
    while i < idx.len()
        invariant
            i <= idx@.len(),
            idx_nodes_wf(idx_view(idx@)),
            body@ == mid + idx_entries_ser(idx_view(idx@).subrange(0, i as int)),
        decreases idx@.len() - i,
    {
        let ghost pre = idx_view(idx@).subrange(0, i as int);
        let ghost post = idx_view(idx@).subrange(0, i + 1);
        push_bytes(&mut body, &idx[i].node);
        push_be64(&mut body, idx[i].offset);
        i = i + 1;
        proof {
            assert(post.drop_last() =~= pre);
            assert(post.last() == idx_view(idx@)[i - 1]);
            assert(idx_view(idx@)[i - 1].node == idx@[i - 1].node@);
            assert(idx_view(idx@)[i - 1].off == idx@[i - 1].offset as int);
            assert(body@ =~= mid + idx_entries_ser(post));
        }
    }
    proof {
        assert(idx_view(idx@).subrange(0, idx@.len() as int) =~= idx_view(idx@));
        assert(body@ =~= index_body_ser(idx_view(idx@), version));
    }
    let digest = sha1_digest(&body);
    let mut out = body;
    push_bytes(&mut out, &digest);
    (out, digest)
}

/// The canonical index never has more entries than records.
pub proof fn lemma_index_len(pairs: Seq<(int, DataRecordV)>)
    ensures
        index_of(pairs).len() <= pairs.len(),
    decreases pairs.len(),
{
    if pairs.len() > 0 {
        lemma_index_len(pairs.drop_last());
        if !contains_node(index_of(pairs.drop_last()), pairs.last().1.node) {
            lemma_index_insert_len(index_of(pairs.drop_last()), IdxV {
                node: pairs.last().1.node,
                off: pairs.last().0,
                pos: pairs.len() - 1,
            });
        }
    }
}

/// Inserting grows the index by exactly one entry.
pub proof fn lemma_index_insert_len(es: Seq<IdxV>, e: IdxV)
    ensures
        index_insert(es, e).len() == es.len() + 1,
    decreases es.len(),
{
    if es.len() > 0 && !lex_lt(e.node, es[0].node) {
        lemma_index_insert_len(es.drop_first(), e);
    }
}

/// A bare (offset, node) pair wrapped as a record carrying nothing else:
/// the index serialization reads only the node and the offset, so packs
/// whose records are not data records index through these.
pub open spec fn node_pair_seq(nodes: Seq<Seq<u8>>, offs: Seq<u64>) -> Seq<(int, DataRecordV)>
    recommends
        nodes.len() == offs.len(),
{
    Seq::new(nodes.len(), |i: int| (offs[i] as int, node_rec(nodes[i])))
}

/// A bare node wrapped as a record carrying nothing else.
pub open spec fn node_rec(n: Seq<u8>) -> DataRecordV {
    DataRecordV {
        path: Seq::empty(),
        node: n,
        base_node: Seq::empty(),
        data: Seq::empty(),
        meta: Seq::empty(),
    }
}

/// Build the canonical index over bare nodes and offsets.
pub fn build_node_index(nodes: &Vec<Vec<u8>>, offs: &Vec<u64>) -> (r: Vec<IndexEntry>)
    requires
        nodes@.len() == offs@.len(),
        forall|i: int| 0 <= i < nodes@.len() ==> (#[trigger] nodes@[i]@).len() == 20,
    ensures
        idx_view(r@) == index_of(node_pair_seq(
            Seq::new(nodes@.len(), |i: int| nodes@[i]@),
            offs@,
        )),
{
    let mut recs: Vec<DataRecord> = Vec::new();
    let mut i: usize = 0;
    while i < nodes.len()
        invariant
            i <= nodes@.len(),
            nodes@.len() == offs@.len(),
            forall|k: int| 0 <= k < nodes@.len() ==> (#[trigger] nodes@[k]@).len() == 20,
            recs@.len() == i,
            forall|k: int| 0 <= k < i ==> #[trigger] recs@[k]@ == node_rec(nodes@[k]@),
        decreases nodes@.len() - i,
    {
        let rec = DataRecord {
            path: Vec::new(),
            node: crate::codec::clone_bytes(&nodes[i]),
            base_node: Vec::new(),
            data: Vec::new(),
            meta: crate::metadata::Metadata::empty(),
        };
        proof {
            assert(rec@ =~= node_rec(nodes@[i as int]@));
        }
        recs.push(rec);
        i = i + 1;
    }
    let r = build_index(&recs, offs);
    proof {
        assert(pair_seq(recs@, offs@) =~= node_pair_seq(
            Seq::new(nodes@.len(), |i: int| nodes@[i]@),
            offs@,
        ));
    }
    r
}

/// Cumulative counts never pass the entry count.
pub open spec fn count_le_bound(es: Seq<IdxV>, large: bool, b: int) -> bool {
    0 <= count_le(es, large, b) <= es.len()
}

/// The cumulative count of any bucket lies between zero and the entry count.
pub proof fn lemma_count_le_bound(es: Seq<IdxV>, large: bool, b: int)
    ensures
        count_le_bound(es, large, b),
    decreases es.len(),
{
    if es.len() > 0 {
        lemma_count_le_bound(es.drop_last(), large, b);
    }
}

} // verus!
