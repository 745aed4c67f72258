use vstd::prelude::*;

use crate::codec::{bytes_eq, clone_bytes};
use crate::datapack::DataPack;
use crate::hashing::{hex_of, sha1_of};
use crate::metadata::{meta_ser, Metadata};
use crate::mutabledatapack::{record_of, MutableDataPack};
use crate::packformat::{pack_ser, pairs_of, DataRecord, DataRecordV};
use crate::packindex::{index_full_ser, index_of, INDEX_VERSION_DATA};
use crate::types::{is_null_node, Delta, Key, StoreError};

verus! {

// The repack pipeline: pick candidate packs by name, narrow them with the
// incremental size heuristic, and merge their records into one fresh pack,
// first occurrence of each key retained.

/// Floor of the incremental threshold, in bytes.
pub const GENERATION_BYTES: u64 = 104857600;

/// How fast the threshold grows with the bytes already taken.
pub const GENERATION_GROWTH_RATIO: u64 = 2;

/// Whether a file name ends in a dot and the extension.
pub open spec fn has_ext(name: Seq<u8>, ext: Seq<u8>) -> bool {
    &&& name.len() > ext.len()
    &&& name.subrange(name.len() - ext.len(), name.len() as int) == ext
    &&& name[name.len() - ext.len() - 1] == 46u8
}

pub open spec fn spec_filter_ext(names: Seq<Seq<u8>>, ext: Seq<u8>) -> Seq<Seq<u8>>
    decreases names.len(),
{
    if names.len() == 0 {
        Seq::empty()
    } else {
        spec_filter_ext(names.drop_last(), ext) + if has_ext(names.last(), ext) {
            seq![names.last()]
        } else {
            Seq::empty()
        }
    }
}

/// The candidate packs of a directory listing: the names carrying the
/// extension, in listing order.
pub fn list_packs(names: &Vec<Vec<u8>>, ext: &Vec<u8>) -> (r: Vec<Vec<u8>>)
    ensures
        Seq::new(r@.len(), |i: int| r@[i]@) == spec_filter_ext(
            Seq::new(names@.len(), |i: int| names@[i]@),
            ext@,
        ),
{
    let ghost nv = Seq::new(names@.len(), |i: int| names@[i]@);
    let mut out: Vec<Vec<u8>> = Vec::new();
    let mut i: usize = 0;
    proof {
        assert(Seq::new(out@.len(), |k: int| out@[k]@) =~= spec_filter_ext(
            nv.subrange(0, 0),
            ext@,
        ));
    }
    while i < names.len()
        invariant
            i <= names@.len(),
            nv == Seq::new(names@.len(), |k: int| names@[k]@),
            Seq::new(out@.len(), |k: int| out@[k]@) == spec_filter_ext(
                nv.subrange(0, i as int),
                ext@,
            ),
        decreases names@.len() - i,
    {
        let name = &names[i];
        let ghost old_out = out@;
        let matched = name_has_ext(name, ext);
        if matched {
            out.push(clone_bytes(name));
        }
        i = i + 1;
        proof {
            let pre = nv.subrange(0, i - 1);
            let post = nv.subrange(0, i as int);
            assert(post.drop_last() =~= pre);
            assert(post.last() == nv[i - 1]);
            assert(nv[i - 1] == names@[i - 1]@);
            if has_ext(names@[i - 1]@, ext@) {
                assert(Seq::new(out@.len(), |k: int| out@[k]@) =~= Seq::new(
                    old_out.len(),
                    |k: int| old_out[k]@,
                ) + seq![names@[i - 1]@]);
            } else {
                assert(Seq::new(out@.len(), |k: int| out@[k]@) =~= Seq::new(
                    old_out.len(),
                    |k: int| old_out[k]@,
                ));
            }
        }
    }
    proof {
        assert(nv.subrange(0, nv.len() as int) =~= nv);
    }
    out
}

/// Whether `name` ends in a dot and the extension.
pub fn name_has_ext(name: &Vec<u8>, ext: &Vec<u8>) -> (r: bool)
    ensures
        r == has_ext(name@, ext@),
{
    let nl = name.len();
    let el = ext.len();
    if nl <= el {
        return false;
    }
    if name[nl - el - 1] != 46u8 {
        return false;
    }
    let tail = crate::codec::read_bytes(name, nl - el, el);
    let r = bytes_eq(&tail, ext);
    proof {
        assert(tail@ == name@.subrange(nl - el, nl as int));
    }
    r
}

/// Insert a pack behind every pack of the same or smaller size: the stable
/// ascending order of the incremental filter.
pub open spec fn insert_by_size(ps: Seq<(Seq<u8>, u64)>, x: (Seq<u8>, u64)) -> Seq<(Seq<u8>, u64)>
    decreases ps.len(),
{
    if ps.len() == 0 {
        seq![x]
    } else if x.1 < ps[0].1 {
        seq![x] + ps
    } else {
        seq![ps[0]] + insert_by_size(ps.drop_first(), x)
    }
}

pub open spec fn sort_by_size(ps: Seq<(Seq<u8>, u64)>) -> Seq<(Seq<u8>, u64)>
    decreases ps.len(),
{
    if ps.len() == 0 {
        Seq::empty()
    } else {
        insert_by_size(sort_by_size(ps.drop_last()), ps.last())
    }
}

/// Walk the sizes in ascending order, taking each pack while it stays under
/// the running threshold: the larger of the generation floor and the bytes
/// already taken scaled by the growth ratio.
pub open spec fn spec_select(sorted: Seq<(Seq<u8>, u64)>, acc: int) -> Seq<(Seq<u8>, u64)>
    decreases sorted.len(),
{
    if sorted.len() == 0 {
        Seq::empty()
    } else {
        let s = sorted[0].1 as int;
        let thr = if GENERATION_BYTES as int > acc * GENERATION_GROWTH_RATIO {
            GENERATION_BYTES as int
        } else {
            acc * GENERATION_GROWTH_RATIO
        };
        if s <= thr {
            seq![sorted[0]] + spec_select(sorted.drop_first(), acc + s)
        } else {
            Seq::empty()
        }
    }
}

pub open spec fn packs_view(ps: Seq<(Vec<u8>, u64)>) -> Seq<(Seq<u8>, u64)> {
    Seq::new(ps.len(), |i: int| (ps[i].0@, ps[i].1))
}

/// Insertion at the first strictly larger size matches `insert_by_size`.
proof fn lemma_insert_by_size_at(ps: Seq<(Seq<u8>, u64)>, x: (Seq<u8>, u64), j: int)
    requires
        0 <= j <= ps.len(),
        forall|k: int| 0 <= k < j ==> !(x.1 < (#[trigger] ps[k]).1),
        j < ps.len() ==> x.1 < ps[j].1,
    ensures
        insert_by_size(ps, x) == ps.subrange(0, j) + seq![x] + ps.subrange(j, ps.len() as int),
    decreases ps.len(),
{
    if ps.len() == 0 {
        assert(insert_by_size(ps, x) =~= ps.subrange(0, j) + seq![x] + ps.subrange(
            j,
            ps.len() as int,
        ));
    } else if x.1 < ps[0].1 {
        assert(j == 0);
        assert(ps.subrange(0, ps.len() as int) =~= ps);
        assert(insert_by_size(ps, x) =~= ps.subrange(0, 0) + seq![x] + ps.subrange(
            0,
            ps.len() as int,
        ));
    } else {
        assert(j >= 1);
        let dropped = ps.drop_first();
        assert(forall|k: int| 0 <= k < j - 1 ==> (#[trigger] dropped[k]) == ps[k + 1]);
        if j - 1 < dropped.len() {
            assert(dropped[j - 1] == ps[j]);
        }
        lemma_insert_by_size_at(dropped, x, j - 1);
        assert(seq![ps[0]] + (dropped.subrange(0, j - 1) + seq![x] + dropped.subrange(
            j - 1,
            dropped.len() as int,
        )) =~= ps.subrange(0, j) + seq![x] + ps.subrange(j, ps.len() as int));
    }
}

/// Narrow candidates to the packs worth rewriting: sort ascending by size,
/// then take packs while each stays under the running threshold. Identical
/// inputs give identical selections.
pub fn filter_incrementalpacks(packs: &Vec<(Vec<u8>, u64)>) -> (r: Vec<(Vec<u8>, u64)>)
    ensures
        packs_view(r@) == spec_select(sort_by_size(packs_view(packs@)), 0),
{
    // Stable insertion sort by size.
    let mut sorted: Vec<(Vec<u8>, u64)> = Vec::new();
    let mut i: usize = 0;
    proof {
        assert(packs_view(sorted@) =~= sort_by_size(packs_view(packs@).subrange(0, 0)));
    }
    while i < packs.len()
        invariant
            i <= packs@.len(),
            packs_view(sorted@) == sort_by_size(packs_view(packs@).subrange(0, i as int)),
        decreases packs@.len() - i,
    {
        let (ref name, size) = packs[i];
        let mut j: usize = 0;
        while j < sorted.len() && sorted[j].1 <= size
            invariant
                j <= sorted@.len(),
                forall|k: int| 0 <= k < j ==> !(size < (#[trigger] packs_view(sorted@)[k]).1),
            decreases sorted@.len() - j,
        {
            proof {
                assert(packs_view(sorted@)[j as int].1 == sorted@[j as int].1);
            }
            j = j + 1;
        }
        let ghost old_sorted = packs_view(sorted@);
        proof {
            if j < sorted@.len() {
                assert(packs_view(sorted@)[j as int].1 == sorted@[j as int].1);
            }
            lemma_insert_by_size_at(old_sorted, (packs@[i as int].0@, packs@[i as int].1), j as int);
        }
        sorted.insert(j, (clone_bytes(name), size));
        i = i + 1;
        proof {
            let pre = packs_view(packs@).subrange(0, i - 1);
            let post = packs_view(packs@).subrange(0, i as int);
            assert(post.drop_last() =~= pre);
            assert(post.last() == packs_view(packs@)[i - 1]);
            assert(packs_view(packs@)[i - 1] == (packs@[i - 1].0@, packs@[i - 1].1));
            assert(packs_view(sorted@) =~= old_sorted.subrange(0, j as int) + seq![
                (packs@[i - 1].0@, packs@[i - 1].1),
            ] + old_sorted.subrange(j as int, old_sorted.len() as int));
            assert(packs_view(sorted@) =~= insert_by_size(
                old_sorted,
                (packs@[i - 1].0@, packs@[i - 1].1),
            ));
        }
    }
    proof {
        assert(packs_view(packs@).subrange(0, packs@.len() as int) =~= packs_view(packs@));
    }
    // Take packs in ascending size while each stays under the threshold.
    let mut out: Vec<(Vec<u8>, u64)> = Vec::new();
    let mut acc: u128 = 0;
    let mut k: usize = 0;
    proof {
        assert(packs_view(out@) =~= Seq::<(Seq<u8>, u64)>::empty());
        assert(packs_view(sorted@).subrange(0, packs_view(sorted@).len() as int) =~= packs_view(
            sorted@,
        ));
    }
    while k < sorted.len()
        invariant
            k <= sorted@.len(),
            acc <= 0xFFFF_FFFF_FFFF_FFFFu128 * (k as u128),
            spec_select(sort_by_size(packs_view(packs@)), 0) == packs_view(out@) + spec_select(
                packs_view(sorted@).subrange(k as int, packs_view(sorted@).len() as int),
                acc as int,
            ),
            packs_view(sorted@) == sort_by_size(packs_view(packs@)),
        decreases sorted@.len() - k,
    {
        let (ref name, size) = sorted[k];
        // Whether the size stays under max(floor, acc * ratio). Once acc
        // passes 2^63 the scaled threshold tops every 64-bit size.
        let take: bool = if acc >= 0x8000_0000_0000_0000u128 {
            true
        } else if (size as u128) <= (GENERATION_BYTES as u128) {
            true
        } else {
            (size as u128) <= acc * (GENERATION_GROWTH_RATIO as u128)
        };
        proof {
            let thr_spec = if GENERATION_BYTES as int > (acc as int) * (
            GENERATION_GROWTH_RATIO as int) {
                GENERATION_BYTES as int
            } else {
                (acc as int) * (GENERATION_GROWTH_RATIO as int)
            };
            if acc >= 0x8000_0000_0000_0000u128 {
                assert((acc as int) * 2 >= 0x1_0000_0000_0000_0000);
            }
            assert(take == (size as int <= thr_spec));
        }
        let ghost rest = packs_view(sorted@).subrange(k as int, packs_view(sorted@).len() as int);
        proof {
            assert(rest[0] == packs_view(sorted@)[k as int]);
            assert(packs_view(sorted@)[k as int] == (sorted@[k as int].0@, sorted@[k as int].1));
            assert(rest.drop_first() =~= packs_view(sorted@).subrange(
                k + 1,
                packs_view(sorted@).len() as int,
            ));
        }
        if !take {
            proof {
                assert(spec_select(rest, acc as int) =~= Seq::<(Seq<u8>, u64)>::empty());
                assert(packs_view(out@) + Seq::<(Seq<u8>, u64)>::empty() =~= packs_view(out@));
            }
            return out;
        }
        let ghost old_out = packs_view(out@);
        out.push((clone_bytes(name), size));
        proof {
            assert((k as u128 + 1) * 0xFFFF_FFFF_FFFF_FFFFu128 < 0xFFFF_FFFF_FFFF_FFFF_FFFF_FFFF_FFFF_FFFFu128)
                by (nonlinear_arith)
                requires
                    k as u128 + 1 <= 0x1_0000_0000_0000_0000u128,
            ;
            assert(acc + (size as u128) <= (k as u128 + 1) * 0xFFFF_FFFF_FFFF_FFFFu128)
                by (nonlinear_arith)
                requires
                    acc <= 0xFFFF_FFFF_FFFF_FFFFu128 * (k as u128),
                    size <= 0xFFFF_FFFF_FFFF_FFFFu64,
            ;
        }
        acc = acc + (size as u128);
        k = k + 1;
        proof {
            assert(packs_view(out@) =~= old_out + seq![(sorted@[k - 1].0@, sorted@[k - 1].1)]);
            assert((old_out + seq![(sorted@[k - 1].0@, sorted@[k - 1].1)]) + spec_select(
                packs_view(sorted@).subrange(k as int, packs_view(sorted@).len() as int),
                acc as int,
            ) =~= old_out + (seq![(sorted@[k - 1].0@, sorted@[k - 1].1)] + spec_select(
                packs_view(sorted@).subrange(k as int, packs_view(sorted@).len() as int),
                acc as int,
            )));
        }
    }
    proof {
        assert(packs_view(sorted@).subrange(
            sorted@.len() as int,
            packs_view(sorted@).len() as int,
        ) =~= Seq::<(Seq<u8>, u64)>::empty());
        assert(packs_view(out@) + Seq::<(Seq<u8>, u64)>::empty() =~= packs_view(out@));
    }
    out
}

/// Every record of every input pack, in scan order: packs in the order
/// given, records in file order.
pub open spec fn all_records(packs: Seq<Seq<DataRecordV>>) -> Seq<DataRecordV>
    decreases packs.len(),
{
    if packs.len() == 0 {
        Seq::empty()
    } else {
        all_records(packs.drop_last()) + packs.last()
    }
}

pub open spec fn has_key(rs: Seq<DataRecordV>, path: Seq<u8>, node: Seq<u8>) -> bool {
    exists|i: int| 0 <= i < rs.len() && (#[trigger] rs[i]).path == path && rs[i].node == node
}

/// Drop every record whose key appeared earlier in the scan.
pub open spec fn dedup(rs: Seq<DataRecordV>) -> Seq<DataRecordV>
    decreases rs.len(),
{
    if rs.len() == 0 {
        Seq::empty()
    } else {
        let d = dedup(rs.drop_last());
        if has_key(d, rs.last().path, rs.last().node) {
            d
        } else {
            d + seq![rs.last()]
        }
    }
}

/// De-duplication keeps every key, each exactly once, and what it keeps is
/// the first record of the scan under that key, in first-appearance order.
pub proof fn lemma_dedup_props(rs: Seq<DataRecordV>)
    ensures
        forall|i: int|
            0 <= i < rs.len() ==> has_key(dedup(rs), (#[trigger] rs[i]).path, rs[i].node),
        forall|i: int, j: int|
            0 <= i < j < dedup(rs).len() ==> !((#[trigger] dedup(rs)[i]).path == (
            #[trigger] dedup(rs)[j]).path && dedup(rs)[i].node == dedup(rs)[j].node),
        forall|i: int|
            0 <= i < dedup(rs).len() ==> (exists|k: int|
                0 <= k < rs.len() && rs[k] == (#[trigger] dedup(rs)[i]) && (forall|m: int|
                    0 <= m < k ==> !((#[trigger] rs[m]).path == dedup(rs)[i].path && rs[m].node
                        == dedup(rs)[i].node))),
    decreases rs.len(),
{
    if rs.len() > 0 {
        lemma_dedup_props(rs.drop_last());
        let d = dedup(rs.drop_last());
        let out = dedup(rs);
        assert(forall|k: int| 0 <= k < rs.len() - 1 ==> (#[trigger] rs.drop_last()[k]) == rs[k]);
        if has_key(d, rs.last().path, rs.last().node) {
            assert(out == d);
            assert forall|i: int| 0 <= i < rs.len() implies has_key(
                out,
                (#[trigger] rs[i]).path,
                rs[i].node,
            ) by {
                if i < rs.len() - 1 {
                    assert(has_key(d, rs.drop_last()[i].path, rs.drop_last()[i].node));
                } else {
                    assert(has_key(d, rs.last().path, rs.last().node));
                }
            }
            assert forall|i: int| 0 <= i < out.len() implies (exists|k: int|
                0 <= k < rs.len() && rs[k] == (#[trigger] out[i]) && (forall|m: int|
                    0 <= m < k ==> !((#[trigger] rs[m]).path == out[i].path && rs[m].node
                        == out[i].node))) by {
                let k = choose|k: int|
                    0 <= k < rs.drop_last().len() && rs.drop_last()[k] == out[i] && (forall|
                        m: int,
                    |
                        0 <= m < k ==> !((#[trigger] rs.drop_last()[m]).path == out[i].path
                            && rs.drop_last()[m].node == out[i].node));
                assert(rs[k] == out[i]);
                assert forall|m: int| 0 <= m < k implies !((#[trigger] rs[m]).path == out[i].path
                    && rs[m].node == out[i].node) by {
                    assert(rs.drop_last()[m] == rs[m]);
                }
            }
        } else {
            assert(out == d + seq![rs.last()]);
            assert forall|i: int| 0 <= i < rs.len() implies has_key(
                out,
                (#[trigger] rs[i]).path,
                rs[i].node,
            ) by {
                if i < rs.len() - 1 {
                    assert(has_key(d, rs.drop_last()[i].path, rs.drop_last()[i].node));
                    let x = choose|x: int|
                        0 <= x < d.len() && (#[trigger] d[x]).path == rs[i].path && d[x].node
                            == rs[i].node;
                    assert(out[x] == d[x]);
                } else {
                    assert(out[out.len() - 1] == rs.last());
                }
            }
            assert forall|i: int, j: int| 0 <= i < j < out.len() implies !((
            #[trigger] out[i]).path == (#[trigger] out[j]).path && out[i].node
                == out[j].node) by {
                if j < d.len() {
                    assert(out[i] == d[i] && out[j] == d[j]);
                } else {
                    assert(out[j] == rs.last());
                    assert(out[i] == d[i]);
                    if out[i].path == out[j].path && out[i].node == out[j].node {
                        assert(has_key(d, rs.last().path, rs.last().node));
                    }
                }
            }
            assert forall|i: int| 0 <= i < out.len() implies (exists|k: int|
                0 <= k < rs.len() && rs[k] == (#[trigger] out[i]) && (forall|m: int|
                    0 <= m < k ==> !((#[trigger] rs[m]).path == out[i].path && rs[m].node
                        == out[i].node))) by {
                if i < d.len() {
                    let k = choose|k: int|
                        0 <= k < rs.drop_last().len() && rs.drop_last()[k] == out[i] && (forall|
                            m: int,
                        |
                            0 <= m < k ==> !((#[trigger] rs.drop_last()[m]).path == out[i].path
                                && rs.drop_last()[m].node == out[i].node));
                    assert(rs[k] == out[i]);
                    assert forall|m: int| 0 <= m < k implies !((#[trigger] rs[m]).path
                        == out[i].path && rs[m].node == out[i].node) by {
                        assert(rs.drop_last()[m] == rs[m]);
                    }
                } else {
                    assert(out[i] == rs.last());
                    let k = rs.len() - 1;
                    assert forall|m: int| 0 <= m < k implies !((#[trigger] rs[m]).path
                        == out[i].path && rs[m].node == out[i].node) by {
                        if rs[m].path == out[i].path && rs[m].node == out[i].node {
                            assert(rs.drop_last()[m] == rs[m]);
                            assert(has_key(
                                rs.drop_last(),
                                rs.last().path,
                                rs.last().node,
                            )) by {
                                assert(rs.drop_last()[m].path == rs.last().path
                                    && rs.drop_last()[m].node == rs.last().node);
                            }
                            lemma_dedup_covers(rs.drop_last(), rs.last().path, rs.last().node);
                        }
                    }
                }
            }
        }
    }
}

/// A key somewhere in the scan is a key of the de-duplicated run.
pub proof fn lemma_dedup_covers(rs: Seq<DataRecordV>, path: Seq<u8>, node: Seq<u8>)
    requires
        has_key(rs, path, node),
    ensures
        has_key(dedup(rs), path, node),
    decreases rs.len(),
{
    let i = choose|i: int|
        0 <= i < rs.len() && (#[trigger] rs[i]).path == path && rs[i].node == node;
    let d = dedup(rs.drop_last());
    if i < rs.len() - 1 {
        assert(rs.drop_last()[i] == rs[i]);
        assert(has_key(rs.drop_last(), path, node));
        lemma_dedup_covers(rs.drop_last(), path, node);
        let x = choose|x: int|
            0 <= x < d.len() && (#[trigger] d[x]).path == path && d[x].node == node;
        if has_key(d, rs.last().path, rs.last().node) {
            assert(dedup(rs)[x] == d[x]);
        } else {
            assert(dedup(rs)[x] == d[x]);
        }
    } else {
        if has_key(d, rs.last().path, rs.last().node) {
            let x = choose|x: int|
                0 <= x < d.len() && (#[trigger] d[x]).path == rs.last().path && d[x].node
                    == rs.last().node;
            assert(dedup(rs)[x] == d[x]);
        } else {
            assert(dedup(rs)[dedup(rs).len() - 1] == rs.last());
        }
    }
}

/// Merge data packs into one: every key of every input, first occurrence
/// retained, laid out as one fresh pack with its canonical index and name.
/// Identical inputs in identical order give bit-identical outputs.
pub fn repack_datapacks(packs: &Vec<DataPack>) -> (r: Result<(Vec<u8>, Vec<u8>, Vec<u8>), StoreError>)
    requires
        forall|i: int| 0 <= i < packs@.len() ==> (#[trigger] packs@[i]).wf(),
    ensures
        match r {
            Ok((pb, ib, nm)) => {
                &&& pb@ == pack_ser(
                    dedup(
                        all_records(
                            Seq::new(packs@.len(), |i: int| packs@[i].view_records()),
                        ),
                    ),
                )
                &&& ib@ == index_full_ser(
                    index_of(
                        pairs_of(
                            dedup(
                                all_records(
                                    Seq::new(packs@.len(), |i: int| packs@[i].view_records()),
                                ),
                            ),
                            1,
                        ),
                    ),
                    INDEX_VERSION_DATA,
                )
                &&& nm@ == hex_of(
                    sha1_of(
                        crate::packindex::index_body_ser(
                            index_of(
                                pairs_of(
                                    dedup(
                                        all_records(
                                            Seq::new(
                                                packs@.len(),
                                                |i: int| packs@[i].view_records(),
                                            ),
                                        ),
                                    ),
                                    1,
                                ),
                            ),
                            INDEX_VERSION_DATA,
                        ),
                    ),
                )
            },
            Err(_) => dedup(
                all_records(Seq::new(packs@.len(), |i: int| packs@[i].view_records())),
            ).len() >= 0xFFFF_FFFF,
        },
{
    let ghost pv = Seq::new(packs@.len(), |i: int| packs@[i].view_records());
    let mut builder = MutableDataPack::new();
    let mut i: usize = 0;
    proof {
        assert(builder.view_records() =~= dedup(all_records(pv.subrange(0, 0))));
    }
    while i < packs.len()
        invariant
            i <= packs@.len(),
            pv == Seq::new(packs@.len(), |k: int| packs@[k].view_records()),
            forall|k: int| 0 <= k < packs@.len() ==> (#[trigger] packs@[k]).wf(),
            builder.wf(),
            builder.view_records() == dedup(all_records(pv.subrange(0, i as int))),
        decreases packs@.len() - i,
    {
        let pack = &packs[i];
        let ghost rv = pack.view_records();
        let mut j: usize = 0;
        proof {
            assert(pv.subrange(0, i + 1).drop_last() =~= pv.subrange(0, i as int));
            assert(pv.subrange(0, i + 1).last() == pv[i as int]);
            assert(pv[i as int] == rv);
            assert(all_records(pv.subrange(0, i + 1)) == all_records(pv.subrange(0, i as int))
                + rv);
            assert((all_records(pv.subrange(0, i as int)) + rv).subrange(
                0,
                all_records(pv.subrange(0, i as int)).len() as int,
            ) =~= all_records(pv.subrange(0, i as int)));
        }
        while j < pack.records.len()
            invariant
                j <= rv.len(),
                i < packs@.len(),
                pv == Seq::new(packs@.len(), |k: int| packs@[k].view_records()),
                forall|k: int| 0 <= k < packs@.len() ==> (#[trigger] packs@[k]).wf(),
                pack == packs@[i as int],
                rv == pack.view_records(),
                all_records(pv.subrange(0, i + 1)) == all_records(pv.subrange(0, i as int)) + rv,
                builder.wf(),
                builder.view_records() == dedup(
                    all_records(pv.subrange(0, i as int)) + rv.subrange(0, j as int),
                ),
            decreases rv.len() - j,
        {
            let ghost scanned = all_records(pv.subrange(0, i as int)) + rv.subrange(0, j as int);
            let rec = &pack.records[j];
            proof {
                assert(rv[j as int] == rec@);
                assert(packs@[i as int].wf());
                assert(rec@.wf());
            }
            let ghost old_builder = builder.view_records();
            if !builder_has_key(&builder, &rec.path, &rec.node) {
                let base = if is_null_node(&rec.base_node) {
                    None
                } else {
                    Some(
                        Key {
                            path: clone_bytes(&rec.path),
                            node: clone_bytes(&rec.base_node),
                        },
                    )
                };
                let delta = Delta {
                    key: Key { path: clone_bytes(&rec.path), node: clone_bytes(&rec.node) },
                    base,
                    data: clone_bytes(&rec.data),
                };
                let meta = rec.meta.clone_meta();
                proof {
                    assert(delta.wf());
                    assert(meta.wf());
                    assert(record_of(delta@, meta@) =~= rec@);
                }
                match builder.add(&delta, &meta) {
                    Ok(()) => {},
                    Err(_) => {
                        proof {
                            assert(meta_ser(rec@.meta).len() <= 0xFFFF_FFFFu32);
                            assert(false);
                        }
                        return Err(StoreError::Invariant);
                    },
                }
            }
            j = j + 1;
            proof {
                let scanned2 = all_records(pv.subrange(0, i as int)) + rv.subrange(0, j as int);
                assert(scanned2.drop_last() =~= scanned);
                assert(scanned2.last() == rv[j - 1]);
                if has_key(old_builder, rv[j - 1].path, rv[j - 1].node) {
                    assert(builder.view_records() == old_builder);
                    assert(dedup(scanned2) == old_builder);
                } else {
                    assert(builder.view_records() =~= old_builder + seq![rv[j - 1]]);
                    assert(dedup(scanned2) == old_builder + seq![rv[j - 1]]);
                }
            }
        }
        i = i + 1;
        proof {
            assert(rv.subrange(0, rv.len() as int) =~= rv);
            assert(all_records(pv.subrange(0, i - 1)) + rv =~= all_records(pv.subrange(
                0,
                i as int,
            )));
        }
    }
    proof {
        assert(pv.subrange(0, pv.len() as int) =~= pv);
    }
    builder.finalize()
}

/// Merge one section's entries into the gathered sections, first occurrence
/// of each `(path, node)` key retained; nothing when a section outgrows its
/// on-disk fields along the way.
pub open spec fn merge_entries(
    secs: Seq<crate::historypack::SectionV>,
    path: Seq<u8>,
    es: Seq<crate::historypack::HistEntryV>,
) -> Option<Seq<crate::historypack::SectionV>>
    decreases es.len(),
{
    if es.len() == 0 {
        Some(secs)
    } else if crate::historypack::hist_lookup(secs, path, es[0].node) is Some {
        merge_entries(secs, path, es.drop_first())
    } else if crate::mutablehistorypack::hist_add_refused(secs, path, es[0]) {
        None
    } else {
        merge_entries(
            crate::mutablehistorypack::hist_add(secs, path, es[0]),
            path,
            es.drop_first(),
        )
    }
}

/// Merge one pack's sections, in file order.
pub open spec fn merge_sections(
    o: Option<Seq<crate::historypack::SectionV>>,
    src: Seq<crate::historypack::SectionV>,
) -> Option<Seq<crate::historypack::SectionV>>
    decreases src.len(),
{
    match o {
        None => None,
        Some(secs) => {
            if src.len() == 0 {
                Some(secs)
            } else {
                merge_sections(merge_entries(secs, src[0].path, src[0].entries), src.drop_first())
            }
        },
    }
}

/// Merge many packs, in the order given.
pub open spec fn merge_hist_packs(
    o: Option<Seq<crate::historypack::SectionV>>,
    packs: Seq<Seq<crate::historypack::SectionV>>,
) -> Option<Seq<crate::historypack::SectionV>>
    decreases packs.len(),
{
    match o {
        None => None,
        Some(secs) => {
            if packs.len() == 0 {
                Some(secs)
            } else {
                merge_hist_packs(merge_sections(Some(secs), packs[0]), packs.drop_first())
            }
        },
    }
}

/// Whether the gathered sections hold an entry under the key.
fn hist_contains(secs: &Vec<crate::historypack::HistSection>, path: &Vec<u8>, node: &Vec<u8>) -> (r:
    bool)
    ensures
        r == (crate::historypack::hist_lookup(
            crate::historypack::secs_view(secs@),
            path@,
            node@,
        ) is Some),
{
    let ghost sv = crate::historypack::secs_view(secs@);
    let mut i: usize = 0;
    while i < secs.len()
        invariant
            i <= sv.len(),
            sv == crate::historypack::secs_view(secs@),
            forall|k: int| 0 <= k < i ==> (#[trigger] sv[k]).path != path@,
        decreases sv.len() - i,
    {
        proof {
            assert(sv[i as int] == secs@[i as int].view_sec());
        }
        if bytes_eq(&secs[i].path, path) {
            proof {
                crate::historypack::lemma_sec_find_at(sv, path@, i as int);
            }
            let sec = &secs[i];
            let ghost ev = sv[i as int].entries;
            let mut j: usize = 0;
            while j < sec.entries.len()
                invariant
                    j <= ev.len(),
                    i < sv.len(),
                    sv == crate::historypack::secs_view(secs@),
                    sec == secs@[i as int],
                    sv[i as int] == secs@[i as int].view_sec(),
                    ev == sv[i as int].entries,
                    crate::historypack::sec_find(sv, path@) == Some(sv[i as int]),
                    forall|k: int| 0 <= k < j ==> (#[trigger] ev[k]).node != node@,
                decreases ev.len() - j,
            {
                proof {
                    assert(ev[j as int] == sec.entries@[j as int]@);
                }
                if bytes_eq(&sec.entries[j].node, node) {
                    proof {
                        crate::historypack::lemma_entry_find_at(ev, node@, j as int);
                    }
                    return true;
                }
                j = j + 1;
            }
            proof {
                crate::historypack::lemma_entry_find_none(ev, node@);
            }
            return false;
        }
        i = i + 1;
    }
    proof {
        crate::historypack::lemma_sec_find_none(sv, path@);
    }
    false
}

/// Merge history packs into one: every `(path, node)` of every input, first
/// occurrence retained, laid out as one fresh pack with its index and name.
/// Identical inputs in identical order give bit-identical outputs. Refused
/// exactly when a merged section or the merged index outgrows its on-disk
/// fields.
pub fn repack_historypacks(packs: &Vec<crate::historypack::HistoryPack>) -> (r: Result<
    (Vec<u8>, Vec<u8>, Vec<u8>),
    StoreError,
>)
    requires
        forall|i: int| 0 <= i < packs@.len() ==> (#[trigger] packs@[i]).wf(),
    ensures
        ({
            let m = merge_hist_packs(
                Some(Seq::empty()),
                Seq::new(packs@.len(), |i: int| packs@[i]@),
            );
            match r {
                Ok((pb, ib, nm)) => m matches Some(secs) && crate::historypack::hist_index_pairs(
                    secs,
                    1,
                ).len() <= 0xFFFF_FFFF && pb@ == crate::historypack::hist_ser(secs) && ib@
                    == crate::packindex::index_full_ser(
                    crate::packindex::index_of(crate::historypack::hist_index_pairs(secs, 1)),
                    crate::packindex::INDEX_VERSION_HISTORY,
                ) && nm@ == hex_of(
                    sha1_of(
                        crate::packindex::index_body_ser(
                            crate::packindex::index_of(
                                crate::historypack::hist_index_pairs(secs, 1),
                            ),
                            crate::packindex::INDEX_VERSION_HISTORY,
                        ),
                    ),
                ),
                Err(_) => m is None || (m matches Some(secs)
                    && crate::historypack::hist_index_pairs(secs, 1).len() > 0xFFFF_FFFF),
            }
        }),
{
    let ghost pv = Seq::new(packs@.len(), |i: int| packs@[i]@);
    let ghost target = merge_hist_packs(Some(Seq::empty()), pv);
    let mut builder = crate::mutablehistorypack::MutableHistoryPack::new();
    let mut i: usize = 0;
    proof {
        assert(pv.subrange(0, pv.len() as int) =~= pv);
        assert(target == merge_hist_packs(
            Some(builder.view_secs()),
            pv.subrange(i as int, pv.len() as int),
        ));
    }
    while i < packs.len()
        invariant
            i <= packs@.len(),
            pv == Seq::new(packs@.len(), |k: int| packs@[k]@),
            forall|k: int| 0 <= k < packs@.len() ==> (#[trigger] packs@[k]).wf(),
            builder.wf(),
            target == merge_hist_packs(Some(Seq::empty()), pv),
            target == merge_hist_packs(
                Some(builder.view_secs()),
                pv.subrange(i as int, pv.len() as int),
            ),
        decreases packs@.len() - i,
    {
        let pack = &packs[i];
        let ghost sv = pack@;
        let mut j: usize = 0;
        proof {
            assert(pv.subrange(i as int, pv.len() as int)[0] == pv[i as int]);
            assert(pv[i as int] == sv);
            assert(pv.subrange(i as int, pv.len() as int).drop_first() =~= pv.subrange(
                i + 1,
                pv.len() as int,
            ));
            assert(sv.subrange(0, sv.len() as int) =~= sv);
            assert(target == merge_hist_packs(
                merge_sections(
                    Some(builder.view_secs()),
                    sv.subrange(j as int, sv.len() as int),
                ),
                pv.subrange(i + 1, pv.len() as int),
            ));
        }
        while j < pack.sections.len()
            invariant
                j <= sv.len(),
                i < packs@.len(),
                pv == Seq::new(packs@.len(), |k: int| packs@[k]@),
                forall|k: int| 0 <= k < packs@.len() ==> (#[trigger] packs@[k]).wf(),
                pack == packs@[i as int],
                sv == pack@,
                builder.wf(),
                target == merge_hist_packs(Some(Seq::empty()), pv),
                target == merge_hist_packs(
                    merge_sections(
                        Some(builder.view_secs()),
                        sv.subrange(j as int, sv.len() as int),
                    ),
                    pv.subrange(i + 1, pv.len() as int),
                ),
            decreases sv.len() - j,
        {
            let sec = &pack.sections[j];
            let ghost ev = sv[j as int].entries;
            let mut k: usize = 0;
            proof {
                assert(sv[j as int] == pack.sections@[j as int].view_sec());
                assert(sv.subrange(j as int, sv.len() as int)[0] == sv[j as int]);
                assert(sv.subrange(j as int, sv.len() as int).drop_first() =~= sv.subrange(
                    j + 1,
                    sv.len() as int,
                ));
                assert(ev.subrange(0, ev.len() as int) =~= ev);
                assert(target == merge_hist_packs(
                    merge_sections(
                        merge_entries(
                            builder.view_secs(),
                            sv[j as int].path,
                            ev.subrange(k as int, ev.len() as int),
                        ),
                        sv.subrange(j + 1, sv.len() as int),
                    ),
                    pv.subrange(i + 1, pv.len() as int),
                ));
            }
            while k < sec.entries.len()
                invariant
                    k <= ev.len(),
                    j < sv.len(),
                    i < packs@.len(),
                    pv == Seq::new(packs@.len(), |m: int| packs@[m]@),
                    forall|m: int| 0 <= m < packs@.len() ==> (#[trigger] packs@[m]).wf(),
                    pack == packs@[i as int],
                    sv == pack@,
                    sec == pack.sections@[j as int],
                    sv[j as int] == pack.sections@[j as int].view_sec(),
                    ev == sv[j as int].entries,
                    builder.wf(),
                    target == merge_hist_packs(Some(Seq::empty()), pv),
                    target == merge_hist_packs(
                        merge_sections(
                            merge_entries(
                                builder.view_secs(),
                                sv[j as int].path,
                                ev.subrange(k as int, ev.len() as int),
                            ),
                            sv.subrange(j + 1, sv.len() as int),
                        ),
                        pv.subrange(i + 1, pv.len() as int),
                    ),
                decreases ev.len() - k,
            {
                let e = &sec.entries[k];
                proof {
                    assert(packs@[i as int].wf());
                    assert(pack@[j as int].wf());
                    assert(ev[k as int] == sec.entries@[k as int]@);
                    assert(ev[k as int].wf());
                    assert(ev.subrange(k as int, ev.len() as int)[0] == ev[k as int]);
                    assert(ev.subrange(k as int, ev.len() as int).drop_first() =~= ev.subrange(
                        k + 1,
                        ev.len() as int,
                    ));
                }
                if !hist_contains(&builder.sections, &sec.path, &e.node) {
                    let kk = Key { path: clone_bytes(&sec.path), node: clone_bytes(&e.node) };
                    let p1path = match e.copyfrom {
                        Some(ref cp) => clone_bytes(cp),
                        None => clone_bytes(&sec.path),
                    };
                    let info = crate::types::NodeInfo {
                        p1: Key { path: p1path, node: clone_bytes(&e.p1) },
                        p2: Key { path: clone_bytes(&sec.path), node: clone_bytes(&e.p2) },
                        linknode: clone_bytes(&e.link),
                        copyfrom: match e.copyfrom {
                            Some(ref cp) => Some(clone_bytes(cp)),
                            None => None,
                        },
                    };
                    proof {
                        assert(kk.wf());
                        assert(info.wf());
                        assert(crate::mutablehistorypack::entry_of(kk@, info@) =~= ev[k as int]);
                    }
                    match builder.add(&kk, &info) {
                        Ok(()) => {},
                        Err(_) => {
                            proof {
                                assert(sec.path@ == sv[j as int].path);
                                assert(crate::mutablehistorypack::hist_add_refused(
                                    builder.view_secs(),
                                    sv[j as int].path,
                                    ev[k as int],
                                ));
                                assert(merge_entries(
                                    builder.view_secs(),
                                    sv[j as int].path,
                                    ev.subrange(k as int, ev.len() as int),
                                ) is None);
                                assert(target is None);
                            }
                            return Err(StoreError::Invariant);
                        },
                    }
                }
                k = k + 1;
            }
            j = j + 1;
            proof {
                assert(ev.subrange(ev.len() as int, ev.len() as int)
                    =~= Seq::<crate::historypack::HistEntryV>::empty());
            }
        }
        i = i + 1;
        proof {
            assert(sv.subrange(sv.len() as int, sv.len() as int)
                =~= Seq::<crate::historypack::SectionV>::empty());
        }
    }
    proof {
        assert(pv.subrange(pv.len() as int, pv.len() as int)
            =~= Seq::<Seq<crate::historypack::SectionV>>::empty());
        assert(target == Some(builder.view_secs()));
    }
    builder.finalize()
}

/// Whether the builder already holds a record under the key.
fn builder_has_key(builder: &MutableDataPack, path: &Vec<u8>, node: &Vec<u8>) -> (r: bool)
    ensures
        r == has_key(builder.view_records(), path@, node@),
{
    let mut i: usize = 0;
    while i < builder.records.len()
        invariant
            i <= builder.records@.len(),
            forall|k: int|
                0 <= k < i ==> !((#[trigger] builder.view_records()[k]).path == path@
                    && builder.view_records()[k].node == node@),
        decreases builder.records@.len() - i,
    {
        proof {
            assert(builder.view_records()[i as int] == builder.records@[i as int]@);
        }
        if bytes_eq(&builder.records[i].path, path) && bytes_eq(&builder.records[i].node, node) {
            return true;
        }
        i = i + 1;
    }
    false
}

} // verus!
