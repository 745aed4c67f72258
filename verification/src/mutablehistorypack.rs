use vstd::prelude::*;

use crate::codec::clone_bytes;
use crate::packindex::node_pair_seq;
use crate::hashing::{hex_of, sha1_of, to_hex};
use crate::historypack::{area_ser, hist_index_pairs, hist_ser, secs_view, secs_wf,
    HistEntry, HistEntryV, HistSection, SectionV};
use crate::historypack::{copy_slot_len, sec_find, lemma_sec_find_at, lemma_sec_find_none};
use crate::lexorder::{lex_cmp_general, lex_lt, lemma_lex_irreflexive, lemma_lex_neq,
    lemma_lex_total_any, lemma_lex_trans};
use crate::types::{Key, KeyV, NodeInfo, NodeInfoV, StoreError};

verus! {

// The write side of a history pack: ancestry records accumulate into
// per-path sections kept in path-sorted order; finalizing lays the sections
// out and names the pack after the hex of the digest of its index bytes.

/// What one accepted record becomes inside its section.
pub open spec fn entry_of(key: KeyV, info: NodeInfoV) -> HistEntryV {
    HistEntryV {
        node: key.node,
        p1: info.p1.node,
        p2: info.p2.node,
        link: info.linknode,
        copyfrom: info.copyfrom,
    }
}

/// Where one record lands: appended to its path's section, or opening a
/// fresh section at the sorted position of its path.
pub open spec fn hist_add(secs: Seq<SectionV>, path: Seq<u8>, e: HistEntryV) -> Seq<SectionV>
    decreases secs.len(),
{
    if secs.len() == 0 {
        seq![SectionV { path, entries: seq![e] }]
    } else if lex_lt(secs[0].path, path) {
        seq![secs[0]] + hist_add(secs.drop_first(), path, e)
    } else if secs[0].path == path {
        seq![SectionV { path: secs[0].path, entries: secs[0].entries.push(e) }]
            + secs.drop_first()
    } else {
        seq![SectionV { path, entries: seq![e] }] + secs
    }
}

/// What the scan position says `hist_add` does.
proof fn lemma_hist_add_at(secs: Seq<SectionV>, path: Seq<u8>, e: HistEntryV, j: int)
    requires
        0 <= j <= secs.len(),
        forall|k: int| 0 <= k < j ==> lex_lt((#[trigger] secs[k]).path, path),
        j < secs.len() ==> !lex_lt(secs[j].path, path),
    ensures
        hist_add(secs, path, e) == if j < secs.len() && secs[j].path == path {
            secs.subrange(0, j) + seq![
                SectionV { path: secs[j].path, entries: secs[j].entries.push(e) },
            ] + secs.subrange(j + 1, secs.len() as int)
        } else {
            secs.subrange(0, j) + seq![SectionV { path, entries: seq![e] }] + secs.subrange(
                j,
                secs.len() as int,
            )
        },
    decreases secs.len(),
{
    if secs.len() == 0 {
        assert(hist_add(secs, path, e) =~= secs.subrange(0, j) + seq![
            SectionV { path, entries: seq![e] },
        ] + secs.subrange(j, secs.len() as int));
    } else if lex_lt(secs[0].path, path) {
        assert(j >= 1) by {
            if j == 0 {
                lemma_lex_irreflexive(path);
                if lex_lt(secs[0].path, path) && lex_lt(path, secs[0].path) {
                    lemma_lex_trans(path, secs[0].path, path);
                }
                assert(secs[0].path != path) by {
                    if secs[0].path == path {
                        lemma_lex_irreflexive(path);
                    }
                }
            }
        }
        let dropped = secs.drop_first();
        assert(forall|k: int| 0 <= k < j - 1 ==> (#[trigger] dropped[k]) == secs[k + 1]);
        if j - 1 < dropped.len() {
            assert(dropped[j - 1] == secs[j]);
        }
        lemma_hist_add_at(dropped, path, e, j - 1);
        if j < secs.len() && secs[j].path == path {
            assert(seq![secs[0]] + (dropped.subrange(0, j - 1) + seq![
                SectionV { path: dropped[j - 1].path, entries: dropped[j - 1].entries.push(e) },
            ] + dropped.subrange(j, dropped.len() as int)) =~= secs.subrange(0, j) + seq![
                SectionV { path: secs[j].path, entries: secs[j].entries.push(e) },
            ] + secs.subrange(j + 1, secs.len() as int));
        } else {
            assert(seq![secs[0]] + (dropped.subrange(0, j - 1) + seq![
                SectionV { path, entries: seq![e] },
            ] + dropped.subrange(j - 1, dropped.len() as int)) =~= secs.subrange(0, j) + seq![
                SectionV { path, entries: seq![e] },
            ] + secs.subrange(j, secs.len() as int));
        }
    } else if secs[0].path == path {
        assert(j == 0);
        assert(hist_add(secs, path, e) =~= secs.subrange(0, 0) + seq![
            SectionV { path: secs[0].path, entries: secs[0].entries.push(e) },
        ] + secs.subrange(1, secs.len() as int));
    } else {
        assert(j == 0) by {
            if j > 0 {
                assert(lex_lt(secs[0].path, path));
            }
        }
        assert(secs.subrange(0, secs.len() as int) =~= secs);
        assert(hist_add(secs, path, e) =~= secs.subrange(0, 0) + seq![
            SectionV { path, entries: seq![e] },
        ] + secs.subrange(0, secs.len() as int));
    }
}

/// Whether the key's section cannot take one more record: its entry count
/// or its copy-source area would outgrow the on-disk fields. A key whose
/// path has no section yet is never refused.
pub open spec fn hist_add_refused(secs: Seq<SectionV>, path: Seq<u8>, e: HistEntryV) -> bool {
    match sec_find(secs, path) {
        Some(sec) => sec.entries.len() >= 0xFFFF_FFFE || area_ser(sec.entries).len()
            + copy_slot_len(e) > 0xFFFF_FFFE,
        None => false,
    }
}

/// The mutable history pack builder.
pub struct MutableHistoryPack {
    pub sections: Vec<HistSection>,
}

impl MutableHistoryPack {
    pub open spec fn view_secs(&self) -> Seq<SectionV> {
        secs_view(self.sections@)
    }

    pub open spec fn wf(&self) -> bool {
        &&& secs_wf(self.view_secs())
        &&& forall|a: int, b: int|
            0 <= a < b < self.view_secs().len() ==> lex_lt(
                (#[trigger] self.view_secs()[a]).path,
                (#[trigger] self.view_secs()[b]).path,
            )
    }

    /// A fresh, empty builder.
    pub fn new() -> (r: MutableHistoryPack)
        ensures
            r.wf(),
            r.view_secs() == Seq::<SectionV>::empty(),
    {
        let r = MutableHistoryPack { sections: Vec::new() };
        proof {
            assert(r.view_secs() =~= Seq::<SectionV>::empty());
        }
        r
    }

    /// Record one key's ancestry. Refused exactly when the key's section
    /// could not hold another entry or copy source within the format's
    /// fields.
    pub fn add(&mut self, key: &Key, info: &NodeInfo) -> (r: Result<(), StoreError>)
        requires
            old(self).wf(),
            key.wf(),
            info.wf(),
        ensures
            final(self).wf(),
            r is Err <==> hist_add_refused(
                old(self).view_secs(),
                key@.path,
                entry_of(key@, info@),
            ),
            r is Ok ==> final(self).view_secs() == hist_add(
                old(self).view_secs(),
                key@.path,
                entry_of(key@, info@),
            ),
            r is Err ==> *final(self) == *old(self),
    {
        let ghost e = entry_of(key@, info@);
        let entry = HistEntry {
            node: clone_bytes(&key.node),
            p1: clone_bytes(&info.p1.node),
            p2: clone_bytes(&info.p2.node),
            link: clone_bytes(&info.linknode),
            copyfrom: match info.copyfrom {
                Some(ref p) => Some(clone_bytes(p)),
                None => None,
            },
        };
        proof {
            assert(entry@ =~= e);
            assert(e.wf());
        }
        let mut j: usize = 0;
        while j < self.sections.len() && lex_cmp_check(&self.sections[j].path, &key.path)
            invariant
                j <= self.sections@.len(),
                self.wf(),
                forall|k: int|
                    0 <= k < j ==> lex_lt((#[trigger] self.view_secs()[k]).path, key@.path),
            decreases self.sections@.len() - j,
        {
            proof {
                assert(self.view_secs()[j as int].path == self.sections@[j as int].path@);
            }
            j = j + 1;
        }
        proof {
            if j < self.sections@.len() {
                assert(self.view_secs()[j as int].path == self.sections@[j as int].path@);
            }
            lemma_hist_add_at(self.view_secs(), key@.path, e, j as int);
        }
        if j < self.sections.len() && crate::codec::bytes_eq(&self.sections[j].path, &key.path) {
            // The path has a section: append there, within the format caps.
            proof {
                assert forall|k: int| 0 <= k < j implies (#[trigger] self.view_secs()[k]).path
                    != key@.path by {
                    lemma_lex_neq(self.view_secs()[k].path, key@.path);
                }
                lemma_sec_find_at(self.view_secs(), key@.path, j as int);
            }
            let sec = &self.sections[j];
            proof {
                assert(sec_find(self.view_secs(), key@.path) == Some(self.view_secs()[j as int]));
                assert(self.view_secs()[j as int].entries.len() == sec.entries@.len());
            }
            if sec.entries.len() >= 0xFFFF_FFFEusize {
                return Err(StoreError::Invariant);
            }
            let slot: usize = match entry.copyfrom {
                Some(ref p) => 2 + p.len(),
                None => 0,
            };
            proof {
                assert(slot as int == copy_slot_len(e));
            }
            let area = section_area_len(sec);
            if area > 0xFFFF_FFFEusize - slot {
                return Err(StoreError::Invariant);
            }
            proof {
                assert(!hist_add_refused(self.view_secs(), key@.path, e));
            }
            let ghost old_secs = self.view_secs();
            let mut owned = self.sections.remove(j);
            owned.entries.push(entry);
            proof {
                assert(owned.view_sec().entries =~= old_secs[j as int].entries.push(e));
                assert(area_ser(old_secs[j as int].entries.push(e)) == area_ser(
                    old_secs[j as int].entries.push(e).drop_last(),
                ) + match e.copyfrom {
                    Some(p) => crate::codec::be16(p.len() as u16) + p,
                    None => Seq::<u8>::empty(),
                });
                assert(old_secs[j as int].entries.push(e).drop_last() =~= old_secs[
                    j as int].entries);
                assert(owned.view_sec().wf()) by {
                    let es = old_secs[j as int].entries.push(e);
                    assert(forall|k: int|
                        0 <= k < es.len() - 1 ==> es[k] == #[trigger] old_secs[
                        j as int].entries[k]);
                    assert(es[es.len() - 1] == e);
                }
            }
            self.sections.insert(j, owned);
            proof {
                assert(self.view_secs() =~= old_secs.subrange(0, j as int) + seq![
                    SectionV {
                        path: old_secs[j as int].path,
                        entries: old_secs[j as int].entries.push(e),
                    },
                ] + old_secs.subrange(j + 1, old_secs.len() as int));
                lemma_secs_wf_glue(self.view_secs(), old_secs, j as int);
                assert forall|a: int, b: int|
                    0 <= a < b < self.view_secs().len() implies lex_lt(
                    (#[trigger] self.view_secs()[a]).path,
                    (#[trigger] self.view_secs()[b]).path,
                ) by {
                    assert(self.view_secs()[a].path == old_secs[a].path);
                    assert(self.view_secs()[b].path == old_secs[b].path);
                }
            }
            Ok(())
        } else {
            let ghost old_secs = self.view_secs();
            proof {
                if (j as int) < old_secs.len() {
                    lemma_lex_total_any(key@.path, old_secs[j as int].path);
                    assert(lex_lt(key@.path, old_secs[j as int].path));
                }
                assert forall|k: int|
                    0 <= k < old_secs.len() implies (#[trigger] old_secs[k]).path
                    != key@.path by {
                    if k < j {
                        lemma_lex_neq(old_secs[k].path, key@.path);
                    } else {
                        if k > j {
                            assert(lex_lt(old_secs[j as int].path, old_secs[k].path));
                            lemma_lex_trans(
                                key@.path,
                                old_secs[j as int].path,
                                old_secs[k].path,
                            );
                        }
                        lemma_lex_neq(key@.path, old_secs[k].path);
                    }
                }
                lemma_sec_find_none(old_secs, key@.path);
            }
            let mut entries: Vec<HistEntry> = Vec::new();
            entries.push(entry);
            let sec = HistSection { path: clone_bytes(&key.path), entries };
            proof {
                assert(sec.view_sec() =~= (SectionV { path: key@.path, entries: seq![e] }));
                assert(area_ser(seq![e]) == area_ser(seq![e].drop_last()) + match e.copyfrom {
                    Some(p) => crate::codec::be16(p.len() as u16) + p,
                    None => Seq::<u8>::empty(),
                });
                assert(seq![e].drop_last() =~= Seq::<HistEntryV>::empty());
                assert(sec.view_sec().wf()) by {
                    assert(seq![e][0] == e);
                }
            }
            self.sections.insert(j, sec);
            proof {
                assert(self.view_secs() =~= old_secs.subrange(0, j as int) + seq![
                    SectionV { path: key@.path, entries: seq![e] },
                ] + old_secs.subrange(j as int, old_secs.len() as int));
                lemma_secs_wf_glue(self.view_secs(), old_secs, j as int);
                assert forall|a: int, b: int|
                    0 <= a < b < self.view_secs().len() implies lex_lt(
                    (#[trigger] self.view_secs()[a]).path,
                    (#[trigger] self.view_secs()[b]).path,
                ) by {
                    let jj = j as int;
                    if a < jj {
                        assert(self.view_secs()[a].path == old_secs[a].path);
                        assert(lex_lt(old_secs[a].path, key@.path));
                    }
                    if b > jj {
                        assert(self.view_secs()[b].path == old_secs[b - 1].path);
                        if jj < old_secs.len() {
                            assert(lex_lt(key@.path, old_secs[jj].path));
                            if b - 1 > jj {
                                assert(lex_lt(old_secs[jj].path, old_secs[b - 1].path));
                                lemma_lex_trans(
                                    key@.path,
                                    old_secs[jj].path,
                                    old_secs[b - 1].path,
                                );
                            }
                        }
                    }
                    if a < jj && b > jj {
                        assert(lex_lt(old_secs[a].path, old_secs[b - 1].path));
                    }
                    if b == jj {
                        assert(self.view_secs()[b].path == key@.path);
                    }
                    if a == jj {
                        assert(self.view_secs()[a].path == key@.path);
                    }
                }
            }
            Ok(())
        }
    }

    /// Lay the sections out in their path-sorted order, build the index over
    /// the entries' nodes at their section offsets, and name the pack after
    /// the hex of the index's trailing digest. Refused exactly when the pack
    /// holds more records than the index's count field can carry.
    pub fn finalize(self) -> (r: Result<(Vec<u8>, Vec<u8>, Vec<u8>), StoreError>)
        requires
            self.wf(),
        ensures
            match r {
                Ok((pb, ib, nm)) => {
                    &&& hist_index_pairs(self.view_secs(), 1).len() <= 0xFFFF_FFFF
                    &&& pb@ == hist_ser(self.view_secs())
                    &&& ib@ == crate::packindex::index_full_ser(
                        crate::packindex::index_of(hist_index_pairs(self.view_secs(), 1)),
                        crate::packindex::INDEX_VERSION_HISTORY,
                    )
                    &&& nm@ == hex_of(
                        sha1_of(
                            crate::packindex::index_body_ser(
                                crate::packindex::index_of(
                                    hist_index_pairs(self.view_secs(), 1),
                                ),
                                crate::packindex::INDEX_VERSION_HISTORY,
                            ),
                        ),
                    )
                },
                Err(_) => hist_index_pairs(self.view_secs(), 1).len() > 0xFFFF_FFFF,
            },
    {
        let ghost sv = self.view_secs();
        // One index entry per record, offset at its section's start.
        let mut nodes: Vec<Vec<u8>> = Vec::new();
        let mut offs: Vec<u64> = Vec::new();
        let mut buf: Vec<u8> = Vec::new();
        buf.push(crate::historypack::HISTPACK_VERSION);
        let mut i: usize = 0;
        proof {
            assert(buf@ =~= hist_ser(sv.subrange(0, 0)));
            assert(node_pair_seq(Seq::new(nodes@.len(), |m: int| nodes@[m]@), offs@)
                =~= hist_index_pairs(sv.subrange(0, 0), 1));
        }
        while i < self.sections.len()
            invariant
                i <= self.sections@.len(),
                sv == self.view_secs(),
                self.wf(),
                nodes@.len() == offs@.len(),
                forall|k: int| 0 <= k < nodes@.len() ==> (#[trigger] nodes@[k]@).len() == 20,
                buf@ == hist_ser(sv.subrange(0, i as int)),
                node_pair_seq(Seq::new(nodes@.len(), |m: int| nodes@[m]@), offs@)
                    == hist_index_pairs(sv.subrange(0, i as int), 1),
            decreases self.sections@.len() - i,
        {
            let ghost pre = sv.subrange(0, i as int);
            let ghost post = sv.subrange(0, i + 1);
            let off = buf.len();
            proof {
                assert(sv[i as int] == self.sections@[i as int].view_sec());
                assert(sv[i as int].wf());
                crate::historypack::lemma_hist_ser_len(pre);
                assert(post.drop_last() =~= pre);
                assert(post.last() == sv[i as int]);
            }
            crate::historypack::serialize_section(&mut buf, &self.sections[i]);
            let sec = &self.sections[i];
            let mut k: usize = 0;
            proof {
                crate::historypack::lemma_hist_pairs_snoc(post, 1);
                assert(hist_index_pairs(post, 1) == hist_index_pairs(pre, 1) + Seq::new(
                    sv[i as int].entries.len(),
                    |m: int|
                        (
                            1 + crate::historypack::sections_len(pre),
                            crate::packindex::node_rec(sv[i as int].entries[m].node),
                        ),
                ));
                assert(off as int == 1 + crate::historypack::sections_len(pre));
            }
            while k < sec.entries.len()
                invariant
                    k <= sec.entries@.len(),
                    i < self.sections@.len(),
                    sv == self.view_secs(),
                    sec == self.sections@[i as int],
                    sv[i as int] == self.sections@[i as int].view_sec(),
                    pre == sv.subrange(0, i as int),
                    off as int == 1 + crate::historypack::sections_len(pre),
                    self.wf(),
                    nodes@.len() == offs@.len(),
                    forall|m: int| 0 <= m < nodes@.len() ==> (#[trigger] nodes@[m]@).len() == 20,
                    node_pair_seq(Seq::new(nodes@.len(), |m: int| nodes@[m]@), offs@)
                        == hist_index_pairs(pre, 1) + Seq::new(
                        k as nat,
                        |m: int|
                            (off as int, crate::packindex::node_rec(sv[i as int].entries[m].node)),
                    ),
                decreases sec.entries@.len() - k,
            {
                proof {
                    assert(sv[i as int].wf());
                    assert(sv[i as int].entries[k as int].wf());
                    assert(sv[i as int].entries[k as int] == sec.entries@[k as int]@);
                }
                let ghost old_pairs = node_pair_seq(
                    Seq::new(nodes@.len(), |m: int| nodes@[m]@),
                    offs@,
                );
                nodes.push(clone_bytes(&sec.entries[k].node));
                offs.push(off as u64);
                k = k + 1;
                proof {
                    assert(node_pair_seq(Seq::new(nodes@.len(), |m: int| nodes@[m]@), offs@)
                        =~= old_pairs.push(
                        (off as int, crate::packindex::node_rec(sv[i as int].entries[k - 1].node)),
                    ));
                    assert(hist_index_pairs(pre, 1) + Seq::new(
                        k as nat,
                        |m: int|
                            (off as int, crate::packindex::node_rec(sv[i as int].entries[m].node)),
                    ) =~= old_pairs.push(
                        (off as int, crate::packindex::node_rec(sv[i as int].entries[k - 1].node)),
                    ));
                }
            }
            i = i + 1;
            proof {
                assert(Seq::new(
                    sec.entries@.len() as nat,
                    |m: int|
                        (off as int, crate::packindex::node_rec(sv[i - 1].entries[m].node)),
                ) =~= Seq::new(
                    sv[i - 1].entries.len(),
                    |m: int|
                        (
                            1 + crate::historypack::sections_len(sv.subrange(0, i - 1)),
                            crate::packindex::node_rec(sv[i - 1].entries[m].node),
                        ),
                ));
                assert(node_pair_seq(Seq::new(nodes@.len(), |m: int| nodes@[m]@), offs@)
                    == hist_index_pairs(sv.subrange(0, i as int), 1));
            }
        }
        proof {
            assert(sv.subrange(0, sv.len() as int) =~= sv);
        }
        let pack_bytes = buf;
        if nodes.len() > 0xFFFF_FFFFusize {
            return Err(StoreError::Invariant);
        }
        let index = crate::packindex::build_node_index(&nodes, &offs);
        proof {
            crate::packindex::lemma_index_of_props(crate::packindex::node_pair_seq(
                Seq::new(nodes@.len(), |m: int| nodes@[m]@),
                offs@,
            ));
            crate::packindex::lemma_index_len(crate::packindex::node_pair_seq(
                Seq::new(nodes@.len(), |m: int| nodes@[m]@),
                offs@,
            ));
        }
        let (index_bytes, digest) = crate::packindex::build_index_bytes(
            &index,
            crate::packindex::INDEX_VERSION_HISTORY,
        );
        let name = to_hex(&digest);
        Ok((pack_bytes, index_bytes, name))
    }
}

/// Splicing one well-formed section into a well-formed run keeps every
/// section well formed.
proof fn lemma_secs_wf_glue(new_secs: Seq<SectionV>, old_secs: Seq<SectionV>, j: int)
    requires
        secs_wf(old_secs),
        0 <= j <= new_secs.len(),
        forall|k: int|
            0 <= k < new_secs.len() ==> (#[trigger] new_secs[k]).wf() || (exists|m: int|
                0 <= m < old_secs.len() && old_secs[m] == new_secs[k]),
    ensures
        secs_wf(new_secs),
{
    assert forall|k: int| 0 <= k < new_secs.len() implies (#[trigger] new_secs[k]).wf() by {
        if !new_secs[k].wf() {
            let m = choose|m: int| 0 <= m < old_secs.len() && old_secs[m] == new_secs[k];
            assert(old_secs[m].wf());
        }
    }
}

/// Whether `a` sorts strictly before `b`.
fn lex_cmp_check(a: &Vec<u8>, b: &Vec<u8>) -> (r: bool)
    ensures
        r == lex_lt(a@, b@),
{
    let c = lex_cmp_general(a, b);
    proof {
        if c == 0 {
            lemma_lex_irreflexive(a@);
        }
        if c == 2 && lex_lt(a@, b@) {
            lemma_lex_trans(a@, b@, a@);
            lemma_lex_irreflexive(a@);
        }
    }
    c == 1
}

/// The byte length of a section's copy-source area so far.
fn section_area_len(sec: &HistSection) -> (r: usize)
    requires
        sec.view_sec().wf(),
    ensures
        r as int == area_ser(sec.view_sec().entries).len(),
{
    let ghost ev = sec.view_sec().entries;
    let mut total: usize = 0;
    let mut i: usize = 0;
    proof {
        assert(ev.subrange(0, 0) =~= Seq::<HistEntryV>::empty());
    }
    while i < sec.entries.len()
        invariant
            i <= ev.len(),
            ev == sec.view_sec().entries,
            sec.view_sec().wf(),
            total as int == area_ser(ev.subrange(0, i as int)).len(),
        decreases ev.len() - i,
    {
        proof {
            assert(ev[i as int] == sec.entries@[i as int]@);
            assert(ev[i as int].wf());
            crate::historypack::lemma_area_prefix(ev, i + 1);
            assert(ev.subrange(0, i + 1).drop_last() =~= ev.subrange(0, i as int));
            assert(ev.subrange(0, i + 1).last() == ev[i as int]);
        }
        match sec.entries[i].copyfrom {
            Some(ref p) => {
                total = total + 2 + p.len();
            },
            None => {},
        }
        i = i + 1;
    }
    proof {
        assert(ev.subrange(0, ev.len() as int) =~= ev);
    }
    total
}

} // verus!
