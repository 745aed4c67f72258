use vstd::prelude::*;

use crate::codec::{be16, be32, bytes_eq, clone_bytes, push_be16, push_be32, push_bytes,
    read_be16, read_be32, read_bytes};
use crate::metadata::Metadata;
use crate::types::{is_null_node, is_path, keys_view, spec_null_node, Key, KeyV, NodeInfo,
    NodeInfoV, StoreError};

verus! {

// The history pack: one section per path, each a run of fixed-width node
// entries followed by the section's copy-source area. An entry holds the
// node, its two parent nodes, the linknode, and the offset of its copy
// source inside the area, with an all-ones offset standing for none. Slots
// in the area lie one after the other, in entry order.

/// The version byte of a history pack.
pub const HISTPACK_VERSION: u8 = 1;

/// The offset value standing for "no copy source".
pub const COPYFROM_NONE: u32 = 0xFFFF_FFFF;

/// One ancestry entry as the format sees it.
#[verifier::ext_equal]
pub struct HistEntryV {
    pub node: Seq<u8>,
    pub p1: Seq<u8>,
    pub p2: Seq<u8>,
    pub link: Seq<u8>,
    pub copyfrom: Option<Seq<u8>>,
}

impl HistEntryV {
    pub open spec fn wf(self) -> bool {
        &&& self.node.len() == 20
        &&& self.p1.len() == 20
        &&& self.p2.len() == 20
        &&& self.link.len() == 20
        &&& match self.copyfrom {
            Some(p) => 0 < p.len() <= 0xFFFF,
            None => true,
        }
    }
}

pub struct HistEntry {
    pub node: Vec<u8>,
    pub p1: Vec<u8>,
    pub p2: Vec<u8>,
    pub link: Vec<u8>,
    pub copyfrom: Option<Vec<u8>>,
}

impl View for HistEntry {
    type V = HistEntryV;

    open spec fn view(&self) -> HistEntryV {
        HistEntryV {
            node: self.node@,
            p1: self.p1@,
            p2: self.p2@,
            link: self.link@,
            copyfrom: match self.copyfrom {
                Some(ref p) => Some(p@),
                None => None,
            },
        }
    }
}

/// One section as the format sees it.
#[verifier::ext_equal]
pub struct SectionV {
    pub path: Seq<u8>,
    pub entries: Seq<HistEntryV>,
}

pub struct HistSection {
    pub path: Vec<u8>,
    pub entries: Vec<HistEntry>,
}

impl HistSection {
    pub open spec fn view_sec(&self) -> SectionV {
        SectionV {
            path: self.path@,
            entries: Seq::new(self.entries@.len(), |i: int| self.entries@[i]@),
        }
    }
}

/// The bytes a copy source occupies in the area.
pub open spec fn copy_slot_len(e: HistEntryV) -> int {
    match e.copyfrom {
        Some(p) => 2 + p.len() as int,
        None => 0,
    }
}

/// The copy-source area: the slots of the entries, in entry order.
pub open spec fn area_ser(es: Seq<HistEntryV>) -> Seq<u8>
    decreases es.len(),
{
    if es.len() == 0 {
        Seq::empty()
    } else {
        area_ser(es.drop_last()) + match es.last().copyfrom {
            Some(p) => be16(p.len() as u16) + p,
            None => Seq::empty(),
        }
    }
}

/// The fixed-width entries, threading the running area offset.
pub open spec fn entries_fixed_ser(es: Seq<HistEntryV>, off: int) -> Seq<u8>
    decreases es.len(),
{
    if es.len() == 0 {
        Seq::empty()
    } else {
        let e = es[0];
        e.node + e.p1 + e.p2 + e.link + be32(
            match e.copyfrom {
                Some(_) => off as u32,
                None => COPYFROM_NONE,
            },
        ) + entries_fixed_ser(es.drop_first(), off + copy_slot_len(e))
    }
}

pub open spec fn section_ser(sec: SectionV) -> Seq<u8> {
    be16(sec.path.len() as u16) + sec.path + be32(sec.entries.len() as u32) + entries_fixed_ser(
        sec.entries,
        0,
    ) + area_ser(sec.entries)
}

impl SectionV {
    pub open spec fn wf(self) -> bool {
        &&& is_path(self.path)
        &&& self.entries.len() < 0xFFFF_FFFF
        &&& forall|i: int| 0 <= i < self.entries.len() ==> (#[trigger] self.entries[i]).wf()
        &&& area_ser(self.entries).len() < 0xFFFF_FFFF
    }
}

/// The whole file: a version byte, then the sections.
pub open spec fn hist_ser(secs: Seq<SectionV>) -> Seq<u8>
    decreases secs.len(),
{
    if secs.len() == 0 {
        seq![HISTPACK_VERSION]
    } else {
        hist_ser(secs.drop_last()) + section_ser(secs.last())
    }
}

pub open spec fn secs_view(ss: Seq<HistSection>) -> Seq<SectionV> {
    Seq::new(ss.len(), |i: int| ss[i].view_sec())
}

pub open spec fn secs_wf(ss: Seq<SectionV>) -> bool {
    forall|i: int| 0 <= i < ss.len() ==> (#[trigger] ss[i]).wf()
}

/// An area prefix never outgrows the whole area.
pub proof fn lemma_area_prefix(es: Seq<HistEntryV>, i: int)
    requires
        0 <= i <= es.len(),
    ensures
        area_ser(es.subrange(0, i)).len() <= area_ser(es).len(),
    decreases es.len(),
{
    if i == es.len() {
        assert(es.subrange(0, i) =~= es);
    } else {
        assert(es.drop_last().subrange(0, i) =~= es.subrange(0, i));
        lemma_area_prefix(es.drop_last(), i);
    }
}

/// Serialize one section into `buf`.
pub fn serialize_section(buf: &mut Vec<u8>, sec: &HistSection)
    requires
        sec.view_sec().wf(),
    ensures
        final(buf)@ == old(buf)@ + section_ser(sec.view_sec()),
{
    let ghost ev = sec.view_sec().entries;
    push_be16(buf, sec.path.len() as u16);
    push_bytes(buf, &sec.path);
    push_be32(buf, sec.entries.len() as u32);
    let ghost fixed_start = buf@;
    let mut off: usize = 0;
    let mut i: usize = 0;
    proof {
        assert(area_ser(ev.subrange(0, 0)) =~= Seq::<u8>::empty());
        assert(entries_fixed_ser(ev, 0) == Seq::<u8>::empty() + entries_fixed_ser(
            ev.subrange(0, ev.len() as int),
            0,
        )) by {
            assert(ev.subrange(0, ev.len() as int) =~= ev);
            assert(Seq::<u8>::empty() + entries_fixed_ser(ev, 0) =~= entries_fixed_ser(ev, 0));
        }
    }
    while i < sec.entries.len()
        invariant
            i <= ev.len(),
            ev == sec.view_sec().entries,
            sec.view_sec().wf(),
            off as int == area_ser(ev.subrange(0, i as int)).len(),
            buf@ == fixed_start + entries_fixed_ser(ev, 0).subrange(
                0,
                entries_fixed_ser(ev, 0).len() - entries_fixed_ser(
                    ev.subrange(i as int, ev.len() as int),
                    off as int,
                ).len(),
            ),
            entries_fixed_ser(ev, 0) == buf@.subrange(fixed_start.len() as int, buf@.len() as int)
                + entries_fixed_ser(ev.subrange(i as int, ev.len() as int), off as int),
        decreases ev.len() - i,
    {
        let e = &sec.entries[i];
        proof {
            assert(ev[i as int] == e@);
            assert(ev[i as int].wf());
            assert(ev.subrange(i as int, ev.len() as int)[0] == ev[i as int]);
            assert(ev.subrange(i as int, ev.len() as int).drop_first() =~= ev.subrange(
                i + 1,
                ev.len() as int,
            ));
        }
        let ghost old_buf = buf@;
        push_bytes(buf, &e.node);
        push_bytes(buf, &e.p1);
        push_bytes(buf, &e.p2);
        push_bytes(buf, &e.link);
        let slot: usize = match e.copyfrom {
            Some(ref p) => {
                push_be32(buf, off as u32);
                2 + p.len()
            },
            None => {
                push_be32(buf, COPYFROM_NONE);
                0
            },
        };
        proof {
            lemma_area_prefix(ev, i + 1);
            assert(ev.subrange(0, i + 1).drop_last() =~= ev.subrange(0, i as int));
            assert(ev.subrange(0, i + 1).last() == ev[i as int]);
            assert(area_ser(ev.subrange(0, i + 1)).len() == off + copy_slot_len(ev[i as int]));
        }
        off = off + slot;
        i = i + 1;
        proof {
            assert(buf@ =~= old_buf + ev[i - 1].node + ev[i - 1].p1 + ev[i - 1].p2 + ev[i
                - 1].link + be32(
                match ev[i - 1].copyfrom {
                    Some(_) => area_ser(ev.subrange(0, i - 1)).len() as u32,
                    None => COPYFROM_NONE,
                },
            ));
            assert(entries_fixed_ser(ev, 0) =~= buf@.subrange(
                fixed_start.len() as int,
                buf@.len() as int,
            ) + entries_fixed_ser(ev.subrange(i as int, ev.len() as int), off as int));
            assert(buf@ =~= fixed_start + entries_fixed_ser(ev, 0).subrange(
                0,
                entries_fixed_ser(ev, 0).len() - entries_fixed_ser(
                    ev.subrange(i as int, ev.len() as int),
                    off as int,
                ).len(),
            ));
        }
    }
    proof {
        assert(ev.subrange(ev.len() as int, ev.len() as int) =~= Seq::<HistEntryV>::empty());
        assert(entries_fixed_ser(Seq::<HistEntryV>::empty(), off as int) =~= Seq::<u8>::empty());
        assert(buf@ =~= fixed_start + entries_fixed_ser(ev, 0));
    }
    // The copy-source area.
    let ghost area_start = buf@;
    let mut j: usize = 0;
    proof {
        assert(area_ser(ev.subrange(0, 0)) =~= Seq::<u8>::empty());
        assert(buf@ =~= area_start + area_ser(ev.subrange(0, 0)));
    }
    while j < sec.entries.len()
        invariant
            j <= ev.len(),
            ev == sec.view_sec().entries,
            sec.view_sec().wf(),
            buf@ == area_start + area_ser(ev.subrange(0, j as int)),
        decreases ev.len() - j,
    {
        let e = &sec.entries[j];
        proof {
            assert(ev[j as int] == e@);
            assert(ev[j as int].wf());
        }
        match e.copyfrom {
            Some(ref p) => {
                push_be16(buf, p.len() as u16);
                push_bytes(buf, p);
            },
            None => {},
        }
        j = j + 1;
        proof {
            assert(ev.subrange(0, j as int).drop_last() =~= ev.subrange(0, j - 1));
            assert(ev.subrange(0, j as int).last() == ev[j - 1]);
            assert(buf@ =~= area_start + area_ser(ev.subrange(0, j as int)));
        }
    }
    proof {
        assert(ev.subrange(0, ev.len() as int) =~= ev);
        assert(buf@ =~= old(buf)@ + section_ser(sec.view_sec()));
    }
}

/// Serialize a whole history pack: the version byte and every section.
pub fn serialize_hist(secs: &Vec<HistSection>) -> (r: Vec<u8>)
    requires
        secs_wf(secs_view(secs@)),
    ensures
        r@ == hist_ser(secs_view(secs@)),
{
    let mut buf: Vec<u8> = Vec::new();
    buf.push(HISTPACK_VERSION);
    let mut i: usize = 0;
    proof {
        assert(buf@ =~= hist_ser(secs_view(secs@).subrange(0, 0)));
    }
    while i < secs.len()
        invariant
            i <= secs@.len(),
            secs_wf(secs_view(secs@)),
            buf@ == hist_ser(secs_view(secs@).subrange(0, i as int)),
        decreases secs@.len() - i,
    {
        proof {
            assert(secs_view(secs@)[i as int] == secs@[i as int].view_sec());
            assert(secs_view(secs@)[i as int].wf());
        }
        serialize_section(&mut buf, &secs[i]);
        i = i + 1;
        proof {
            let sv = secs_view(secs@);
            assert(sv.subrange(0, i as int).drop_last() =~= sv.subrange(0, i - 1));
            assert(sv.subrange(0, i as int).last() == sv[i - 1]);
        }
    }
    proof {
        assert(secs_view(secs@).subrange(0, secs@.len() as int) =~= secs_view(secs@));
    }
    buf
}

/// Parse a history pack: sections to the end of the file, slots walked in
/// entry order. The caller checks the result by serializing it again.
/// The fixed fields of entry `m`, as the file spells them.
pub open spec fn raw_fields_at(s: Seq<u8>, es_start: int, e: HistEntryV, m: int) -> bool {
    &&& e.node == s.subrange(es_start + 84 * m, es_start + 84 * m + 20)
    &&& e.p1 == s.subrange(es_start + 84 * m + 20, es_start + 84 * m + 40)
    &&& e.p2 == s.subrange(es_start + 84 * m + 40, es_start + 84 * m + 60)
    &&& e.link == s.subrange(es_start + 84 * m + 60, es_start + 84 * m + 80)
}

/// Hand each referenced copy-source slot to its entry, walking the area in
/// entry order: the parsed entries and the area's total byte length.
pub open spec fn area_walk(
    s: Seq<u8>,
    es_start: int,
    count: int,
    k: int,
    area_start: int,
    expected: int,
) -> Option<(Seq<HistEntryV>, int)>
    decreases count - k
        when 0 <= k <= count
{
    if k == count {
        Some((Seq::empty(), expected))
    } else {
        let ep = es_start + 84 * k;
        let node = s.subrange(ep, ep + 20);
        let p1 = s.subrange(ep + 20, ep + 40);
        let p2 = s.subrange(ep + 40, ep + 60);
        let link = s.subrange(ep + 60, ep + 80);
        let cfoff = crate::codec::be32_val(s.subrange(ep + 80, ep + 84));
        if cfoff == COPYFROM_NONE {
            match area_walk(s, es_start, count, k + 1, area_start, expected) {
                Some((rest, e2)) => Some(
                    (seq![HistEntryV { node, p1, p2, link, copyfrom: None }] + rest, e2),
                ),
                None => None,
            }
        } else if cfoff as int != expected {
            None
        } else if area_start + expected + 2 > s.len() {
            None
        } else {
            let slen = crate::codec::be16_val(
                s.subrange(area_start + expected, area_start + expected + 2),
            ) as int;
            if slen == 0 || slen > s.len() - (area_start + expected + 2) {
                None
            } else {
                let src = s.subrange(area_start + expected + 2, area_start + expected + 2 + slen);
                match area_walk(s, es_start, count, k + 1, area_start, expected + 2 + slen) {
                    Some((rest, e2)) => Some(
                        (seq![HistEntryV { node, p1, p2, link, copyfrom: Some(src) }] + rest, e2),
                    ),
                    None => None,
                }
            }
        }
    }
}

/// Parse one section at `pos`: path, count, the fixed entries, then the
/// copy-source area walked in entry order.
pub open spec fn section_parse(s: Seq<u8>, pos: int) -> Option<(SectionV, int)> {
    if pos < 0 || pos + 2 > s.len() {
        None
    } else {
        let plen = crate::codec::be16_val(s.subrange(pos, pos + 2)) as int;
        if pos + 2 + plen + 4 > s.len() {
            None
        } else {
            let path = s.subrange(pos + 2, pos + 2 + plen);
            let count = crate::codec::be32_val(
                s.subrange(pos + 2 + plen, pos + 2 + plen + 4),
            ) as int;
            let es_start = pos + 2 + plen + 4;
            if count >= 0xFFFF_FFFF || count > (s.len() - es_start) / 84 {
                None
            } else {
                let area_start = es_start + 84 * count;
                match area_walk(s, es_start, count, 0, area_start, 0) {
                    None => None,
                    Some((entries, expected)) => {
                        if expected >= 0xFFFF_FFFF {
                            None
                        } else {
                            Some((SectionV { path, entries }, area_start + expected))
                        }
                    },
                }
            }
        }
    }
}

/// Parse sections from `pos` to the very end of the file.
pub open spec fn hist_sections_parse(s: Seq<u8>, pos: int) -> Option<Seq<SectionV>>
    decreases s.len() - pos
        when 0 <= pos <= s.len()
{
    if pos == s.len() {
        Some(Seq::empty())
    } else {
        match section_parse(s, pos) {
            None => None,
            Some((sec, p2)) => {
                if p2 <= pos || p2 > s.len() {
                    None
                } else {
                    match hist_sections_parse(s, p2) {
                        None => None,
                        Some(rest) => Some(seq![sec] + rest),
                    }
                }
            },
        }
    }
}

/// The whole file: the version byte, then sections to the last byte.
pub open spec fn hist_parse(s: Seq<u8>) -> Option<Seq<SectionV>> {
    if s.len() >= 1 && s[0] == HISTPACK_VERSION {
        hist_sections_parse(s, 1)
    } else {
        None
    }
}

/// When the walk from the start of a section's area fails, the whole file
/// fails to parse.
proof fn lemma_parse_none_here(
    s: Seq<u8>,
    pos: int,
    plen: int,
    count: int,
    es_start: int,
    done: Seq<SectionV>,
)
    requires
        s.len() >= 1,
        s[0] == HISTPACK_VERSION,
        1 <= pos,
        pos + 2 <= s.len(),
        plen == crate::codec::be16_val(s.subrange(pos, pos + 2)) as int,
        es_start == pos + 2 + plen + 4,
        es_start <= s.len(),
        count == crate::codec::be32_val(s.subrange(pos + 2 + plen, pos + 2 + plen + 4)) as int,
        0 <= count < 0xFFFF_FFFF,
        count <= (s.len() - es_start) / 84,
        area_walk(s, es_start, count, 0, es_start + 84 * count, 0) is None,
        hist_sections_parse(s, 1) == (match hist_sections_parse(s, pos) {
            Some(rest) => Some(done + rest),
            None => None,
        }),
    ensures
        hist_parse(s) is None,
{
    assert(section_parse(s, pos) is None);
    assert(hist_sections_parse(s, pos) is None);
}

fn parse_hist(bytes: &Vec<u8>) -> (r: Result<Vec<HistSection>, StoreError>)
    ensures
        match r {
            Ok(ss) => secs_wf(secs_view(ss@)) && hist_parse(bytes@) == Some(secs_view(ss@)),
            Err(_) => hist_parse(bytes@) is None,
        },
{
    let n = bytes.len();
    if n < 1 || bytes[0] != HISTPACK_VERSION {
        return Err(StoreError::Corrupt);
    }
    let mut secs: Vec<HistSection> = Vec::new();
    let mut pos: usize = 1;
    proof {
        match hist_sections_parse(bytes@, 1) {
            Some(rest) => {
                assert(secs_view(secs@) + rest =~= rest);
            },
            None => {},
        }
    }
    while pos < n
        invariant
            1 <= pos <= n,
            n == bytes@.len(),
            n >= 1,
            bytes@[0] == HISTPACK_VERSION,
            secs_wf(secs_view(secs@)),
            hist_sections_parse(bytes@, 1) == (match hist_sections_parse(bytes@, pos as int) {
                Some(rest) => Some(secs_view(secs@) + rest),
                None => None,
            }),
        decreases n - pos,
    {
        if n - pos < 2 {
            proof {
                assert(section_parse(bytes@, pos as int) is None);
                assert(hist_sections_parse(bytes@, pos as int) is None);
            }
            return Err(StoreError::Corrupt);
        }
        let plen = read_be16(bytes, pos) as usize;
        if plen > n - pos - 2 {
            proof {
                assert(section_parse(bytes@, pos as int) is None);
                assert(hist_sections_parse(bytes@, pos as int) is None);
            }
            return Err(StoreError::Corrupt);
        }
        let path = read_bytes(bytes, pos + 2, plen);
        let mut cur: usize = pos + 2 + plen;
        if n - cur < 4 {
            proof {
                assert(section_parse(bytes@, pos as int) is None);
                assert(hist_sections_parse(bytes@, pos as int) is None);
            }
            return Err(StoreError::Corrupt);
        }
        let count = read_be32(bytes, cur) as usize;
        cur = cur + 4;
        let ghost es_start = cur as int;
        if count >= 0xFFFF_FFFFusize || count > (n - cur) / 84 {
            proof {
                assert(section_parse(bytes@, pos as int) is None);
                assert(hist_sections_parse(bytes@, pos as int) is None);
            }
            return Err(StoreError::Corrupt);
        }
        proof {
            assert((n - cur) / 84 * 84 <= n - cur) by (nonlinear_arith);
            assert(count * 84 <= (n - cur) / 84 * 84) by (nonlinear_arith)
                requires
                    count <= (n - cur) / 84,
            ;
        }
        let mut entries: Vec<HistEntry> = Vec::new();
        let mut offs: Vec<u32> = Vec::new();
        let mut k: usize = 0;
        while k < count
            invariant
                k <= count,
                pos < cur,
                cur as int == es_start + 84 * k,
                cur + (count - k) * 84 <= n,
                n == bytes@.len(),
                entries@.len() == k,
                offs@.len() == k,
                forall|m: int| 0 <= m < k ==> (#[trigger] entries@[m]@).wf(),
                forall|m: int| 0 <= m < k ==> (#[trigger] entries@[m]@).copyfrom is None,
                forall|m: int|
                    0 <= m < k ==> raw_fields_at(bytes@, es_start, #[trigger] entries@[m]@, m),
                forall|m: int|
                    0 <= m < k ==> (#[trigger] offs@[m]) == crate::codec::be32_val(
                        bytes@.subrange(es_start + 84 * m + 80, es_start + 84 * m + 84),
                    ),
            decreases count - k,
        {
            let node = read_bytes(bytes, cur, 20);
            let p1 = read_bytes(bytes, cur + 20, 20);
            let p2 = read_bytes(bytes, cur + 40, 20);
            let link = read_bytes(bytes, cur + 60, 20);
            let cfoff = read_be32(bytes, cur + 80);
            offs.push(cfoff);
            entries.push(HistEntry { node, p1, p2, link, copyfrom: None });
            cur = cur + 84;
            k = k + 1;
            proof {
                assert(entries@[k - 1]@.wf());
                assert(entries@[k - 1]@.copyfrom is None);
                assert(raw_fields_at(bytes@, es_start, entries@[k - 1]@, k - 1));
            }
        }
        // Walk the copy-source area in entry order, handing each referenced
        // slot to its entry.
        let area_start = cur;
        let mut expected: usize = 0;
        let mut k2: usize = 0;
        proof {
            assert(area_ser(ev_of(entries@).subrange(0, 0)) =~= Seq::<u8>::empty());
            assert(ev_of(entries@).subrange(0, 0) =~= Seq::<HistEntryV>::empty());
        }
        while k2 < count
            invariant
                k2 <= count,
                count == entries@.len(),
                count == offs@.len(),
                area_start <= n,
                area_start as int == es_start + 84 * count,
                expected <= n - area_start,
                n == bytes@.len(),
                forall|m: int| 0 <= m < count ==> (#[trigger] entries@[m]@).wf(),
                forall|m: int| k2 <= m < count ==> (#[trigger] entries@[m]@).copyfrom is None,
                forall|m: int|
                    0 <= m < count ==> raw_fields_at(bytes@, es_start, #[trigger] entries@[m]@, m),
                forall|m: int|
                    0 <= m < count ==> (#[trigger] offs@[m]) == crate::codec::be32_val(
                        bytes@.subrange(es_start + 84 * m + 80, es_start + 84 * m + 84),
                    ),
                expected as int == area_ser(ev_of(entries@).subrange(0, k2 as int)).len(),
                1 <= pos && pos + 2 <= n,
                bytes@[0] == HISTPACK_VERSION,
                plen as int == crate::codec::be16_val(
                    bytes@.subrange(pos as int, pos as int + 2),
                ),
                es_start == pos + 2 + plen + 4,
                es_start <= n,
                count as int == crate::codec::be32_val(
                    bytes@.subrange(pos + 2 + plen, pos + 2 + plen + 4),
                ),
                count < 0xFFFF_FFFF,
                count as int <= (n - es_start) / 84,
                hist_sections_parse(bytes@, 1) == (match hist_sections_parse(
                    bytes@,
                    pos as int,
                ) {
                    Some(rest) => Some(secs_view(secs@) + rest),
                    None => None,
                }),
                area_walk(bytes@, es_start, count as int, 0, area_start as int, 0) == (
                match area_walk(
                    bytes@,
                    es_start,
                    count as int,
                    k2 as int,
                    area_start as int,
                    expected as int,
                ) {
                    Some((rest, e2)) => Some(
                        (ev_of(entries@).subrange(0, k2 as int) + rest, e2),
                    ),
                    None => None,
                }),
            decreases count - k2,
        {
            let ghost pre_entries = ev_of(entries@);
            let ghost old_expected = expected as int;
            let cfoff = offs[k2];
            proof {
                assert(raw_fields_at(bytes@, es_start, entries@[k2 as int]@, k2 as int));
                assert(offs@[k2 as int] == crate::codec::be32_val(
                    bytes@.subrange(es_start + 84 * k2 + 80, es_start + 84 * k2 + 84),
                ));
            }
            if cfoff != COPYFROM_NONE {
                if cfoff as usize != expected {
                    proof {
                        assert(area_walk(
                            bytes@,
                            es_start,
                            count as int,
                            k2 as int,
                            area_start as int,
                            expected as int,
                        ) is None);
                        lemma_parse_none_here(
                            bytes@,
                            pos as int,
                            plen as int,
                            count as int,
                            es_start,
                            secs_view(secs@),
                        );
                    }
                    return Err(StoreError::Corrupt);
                }
                if n - area_start - expected < 2 {
                    proof {
                        assert(area_walk(
                            bytes@,
                            es_start,
                            count as int,
                            k2 as int,
                            area_start as int,
                            expected as int,
                        ) is None);
                        lemma_parse_none_here(
                            bytes@,
                            pos as int,
                            plen as int,
                            count as int,
                            es_start,
                            secs_view(secs@),
                        );
                    }
                    return Err(StoreError::Corrupt);
                }
                let slen = read_be16(bytes, area_start + expected) as usize;
                if slen == 0 || slen > n - area_start - expected - 2 {
                    proof {
                        assert(area_walk(
                            bytes@,
                            es_start,
                            count as int,
                            k2 as int,
                            area_start as int,
                            expected as int,
                        ) is None);
                        lemma_parse_none_here(
                            bytes@,
                            pos as int,
                            plen as int,
                            count as int,
                            es_start,
                            secs_view(secs@),
                        );
                    }
                    return Err(StoreError::Corrupt);
                }
                let src = read_bytes(bytes, area_start + expected + 2, slen);
                proof {
                    assert(entries@[k2 as int]@.wf());
                }
                let old_entry = &entries[k2];
                let updated = HistEntry {
                    node: clone_bytes(&old_entry.node),
                    p1: clone_bytes(&old_entry.p1),
                    p2: clone_bytes(&old_entry.p2),
                    link: clone_bytes(&old_entry.link),
                    copyfrom: Some(src),
                };
                proof {
                    assert(updated@.wf());
                }
                entries.set(k2, updated);
                expected = expected + 2 + slen;
                proof {
                    assert(ev_of(entries@)[k2 as int] == updated@);
                    assert(copy_slot_len(ev_of(entries@)[k2 as int]) == 2 + slen);
                    assert forall|m: int| 0 <= m < count implies (#[trigger] entries@[m]@).wf() by {
                        if m != k2 {
                            assert(entries@[m]@ == pre_entries[m]);
                        }
                    }
                    assert forall|m: int| k2 + 1 <= m < count implies (#[trigger] entries@[m]@).copyfrom
                        is None by {
                        assert(entries@[m]@ == pre_entries[m]);
                    }
                }
            } else {
                proof {
                    assert(ev_of(entries@)[k2 as int] == pre_entries[k2 as int]);
                    assert(entries@[k2 as int]@.copyfrom is None);
                    assert(copy_slot_len(ev_of(entries@)[k2 as int]) == 0);
                }
            }
            k2 = k2 + 1;
            proof {
                let cur_entries = ev_of(entries@);
                assert(cur_entries.subrange(0, k2 - 1) =~= pre_entries.subrange(0, k2 - 1));
                assert(cur_entries.subrange(0, k2 as int).drop_last() =~= cur_entries.subrange(
                    0,
                    k2 - 1,
                ));
                assert(cur_entries.subrange(0, k2 as int).last() == cur_entries[k2 - 1]);
                assert(cur_entries[k2 - 1] == entries@[k2 - 1]@);
                assert(area_ser(cur_entries.subrange(0, k2 as int)).len() == area_ser(
                    cur_entries.subrange(0, k2 - 1),
                ).len() + copy_slot_len(cur_entries[k2 - 1]));
                assert(expected as int == old_expected + copy_slot_len(cur_entries[k2 - 1]));
                assert(expected as int == area_ser(cur_entries.subrange(0, k2 as int)).len());
                // One walk step: the spec reads the same fields and slot.
                let ep = es_start + 84 * (k2 - 1);
                assert(raw_fields_at(bytes@, es_start, cur_entries[k2 - 1], k2 - 1));
                assert(area_walk(
                    bytes@,
                    es_start,
                    count as int,
                    k2 - 1,
                    area_start as int,
                    old_expected,
                ) == (match area_walk(
                    bytes@,
                    es_start,
                    count as int,
                    k2 as int,
                    area_start as int,
                    expected as int,
                ) {
                    Some((rest, e2)) => Some((seq![cur_entries[k2 - 1]] + rest, e2)),
                    None => None,
                })) by {
                    assert(crate::codec::be32_val(
                        bytes@.subrange(ep + 80, ep + 84),
                    ) == offs@[k2 - 1]);
                    match area_walk(
                        bytes@,
                        es_start,
                        count as int,
                        k2 as int,
                        area_start as int,
                        expected as int,
                    ) {
                        Some((rest, e2)) => {
                            if offs@[k2 - 1] == COPYFROM_NONE {
                                assert(cur_entries[k2 - 1] =~= (HistEntryV {
                                    node: bytes@.subrange(ep, ep + 20),
                                    p1: bytes@.subrange(ep + 20, ep + 40),
                                    p2: bytes@.subrange(ep + 40, ep + 60),
                                    link: bytes@.subrange(ep + 60, ep + 80),
                                    copyfrom: None,
                                }));
                            } else {
                                assert(cur_entries[k2 - 1] =~= (HistEntryV {
                                    node: bytes@.subrange(ep, ep + 20),
                                    p1: bytes@.subrange(ep + 20, ep + 40),
                                    p2: bytes@.subrange(ep + 40, ep + 60),
                                    link: bytes@.subrange(ep + 60, ep + 80),
                                    copyfrom: Some(
                                        bytes@.subrange(
                                            area_start + old_expected + 2,
                                            area_start + old_expected + 2 + (expected
                                                - old_expected - 2),
                                        ),
                                    ),
                                }));
                            }
                        },
                        None => {},
                    }
                }
                match area_walk(
                    bytes@,
                    es_start,
                    count as int,
                    k2 as int,
                    area_start as int,
                    expected as int,
                ) {
                    Some((rest, e2)) => {
                        assert(cur_entries.subrange(0, k2 - 1) + (seq![cur_entries[k2 - 1]]
                            + rest) =~= cur_entries.subrange(0, k2 as int) + rest);
                    },
                    None => {},
                }
            }
        }
        proof {
            assert(ev_of(entries@).subrange(0, count as int) =~= ev_of(entries@));
            assert(ev_of(entries@).subrange(0, count as int) + Seq::<HistEntryV>::empty()
                =~= ev_of(entries@));
            assert(area_walk(bytes@, es_start, count as int, 0, area_start as int, 0) == Some(
                (ev_of(entries@), expected as int),
            ));
        }
        if expected >= 0xFFFF_FFFFusize {
            proof {
                assert(section_parse(bytes@, pos as int) is None);
                assert(hist_sections_parse(bytes@, pos as int) is None);
            }
            return Err(StoreError::Corrupt);
        }
        let ghost old_pos = pos as int;
        let sec = HistSection { path, entries };
        pos = area_start + expected;
        proof {
            assert(sec.view_sec().entries =~= ev_of(sec.entries@));
            assert(ev_of(sec.entries@).subrange(0, sec.entries@.len() as int) =~= ev_of(
                sec.entries@,
            ));
            assert(sec.view_sec().wf()) by {
                assert(forall|m: int|
                    0 <= m < sec.entries@.len() ==> (#[trigger] sec.view_sec().entries[m])
                        == sec.entries@[m]@);
            }
            assert(sec.view_sec() =~= (SectionV {
                path: bytes@.subrange(old_pos + 2, old_pos + 2 + plen as int),
                entries: ev_of(sec.entries@),
            }));
            assert(section_parse(bytes@, old_pos) == Some((sec.view_sec(), pos as int)));
            assert(old_pos < pos <= n);
        }
        let ghost old_secs = secs@;
        secs.push(sec);
        proof {
            assert forall|m: int| 0 <= m < secs@.len() implies (#[trigger] secs_view(
                secs@,
            )[m]).wf() by {
                assert(secs_view(secs@)[m] == secs@[m].view_sec());
                if m < old_secs.len() {
                    assert(secs@[m] == old_secs[m]);
                    assert(secs_view(old_secs)[m] == old_secs[m].view_sec());
                    assert(secs_view(old_secs)[m].wf());
                }
            }
            assert(secs_view(secs@) =~= secs_view(old_secs).push(secs@[secs@.len() - 1].view_sec()));
            assert(hist_sections_parse(bytes@, old_pos) == (match hist_sections_parse(
                bytes@,
                pos as int,
            ) {
                Some(rest) => Some(seq![secs@[secs@.len() - 1].view_sec()] + rest),
                None => None,
            }));
            match hist_sections_parse(bytes@, pos as int) {
                Some(rest) => {
                    assert(secs_view(old_secs) + (seq![secs@[secs@.len() - 1].view_sec()] + rest)
                        =~= secs_view(secs@) + rest);
                },
                None => {},
            }
        }
    }
    proof {
        assert(hist_sections_parse(bytes@, n as int) == Some(Seq::<SectionV>::empty()));
        assert(secs_view(secs@) + Seq::<SectionV>::empty() =~= secs_view(secs@));
    }
    Ok(secs)
}

/// The views of a run of entries.
pub open spec fn ev_of(es: Seq<HistEntry>) -> Seq<HistEntryV> {
    Seq::new(es.len(), |i: int| es[i]@)
}

/// The first section carrying `path`, in file order.
pub open spec fn sec_find(secs: Seq<SectionV>, path: Seq<u8>) -> Option<SectionV>
    decreases secs.len(),
{
    if secs.len() == 0 {
        None
    } else if secs[0].path == path {
        Some(secs[0])
    } else {
        sec_find(secs.drop_first(), path)
    }
}

/// The first entry carrying `node`, in section order.
pub open spec fn entry_find(es: Seq<HistEntryV>, node: Seq<u8>) -> Option<HistEntryV>
    decreases es.len(),
{
    if es.len() == 0 {
        None
    } else if es[0].node == node {
        Some(es[0])
    } else {
        entry_find(es.drop_first(), node)
    }
}

/// The ancestry entry stored under a key, if any.
pub open spec fn hist_lookup(secs: Seq<SectionV>, path: Seq<u8>, node: Seq<u8>) -> Option<
    HistEntryV,
> {
    match sec_find(secs, path) {
        None => None,
        Some(sec) => entry_find(sec.entries, node),
    }
}

/// The node info an entry spells for a key at `path`: the first parent lives
/// at the copy source when there is one, both parents otherwise at the same
/// path.
pub open spec fn info_of(path: Seq<u8>, e: HistEntryV) -> NodeInfoV {
    NodeInfoV {
        p1: KeyV {
            path: match e.copyfrom {
                Some(cp) => cp,
                None => path,
            },
            node: e.p1,
        },
        p2: KeyV { path, node: e.p2 },
        linknode: e.link,
        copyfrom: e.copyfrom,
    }
}

pub proof fn lemma_sec_find_at(secs: Seq<SectionV>, path: Seq<u8>, pos: int)
    requires
        0 <= pos < secs.len(),
        secs[pos].path == path,
        forall|k: int| 0 <= k < pos ==> (#[trigger] secs[k]).path != path,
    ensures
        sec_find(secs, path) == Some(secs[pos]),
    decreases pos,
{
    if pos > 0 {
        assert(secs[0].path != path);
        assert(forall|k: int|
            0 <= k < pos - 1 ==> (#[trigger] secs.drop_first()[k]) == secs[k + 1]);
        assert(secs.drop_first()[pos - 1] == secs[pos]);
        lemma_sec_find_at(secs.drop_first(), path, pos - 1);
    }
}

pub proof fn lemma_sec_find_none(secs: Seq<SectionV>, path: Seq<u8>)
    requires
        forall|k: int| 0 <= k < secs.len() ==> (#[trigger] secs[k]).path != path,
    ensures
        sec_find(secs, path) is None,
    decreases secs.len(),
{
    if secs.len() > 0 {
        assert(forall|k: int|
            0 <= k < secs.len() - 1 ==> (#[trigger] secs.drop_first()[k]) == secs[k + 1]);
        lemma_sec_find_none(secs.drop_first(), path);
    }
}

pub proof fn lemma_entry_find_at(es: Seq<HistEntryV>, node: Seq<u8>, pos: int)
    requires
        0 <= pos < es.len(),
        es[pos].node == node,
        forall|k: int| 0 <= k < pos ==> (#[trigger] es[k]).node != node,
    ensures
        entry_find(es, node) == Some(es[pos]),
    decreases pos,
{
    if pos > 0 {
        assert(es[0].node != node);
        assert(forall|k: int| 0 <= k < pos - 1 ==> (#[trigger] es.drop_first()[k]) == es[k + 1]);
        assert(es.drop_first()[pos - 1] == es[pos]);
        lemma_entry_find_at(es.drop_first(), node, pos - 1);
    }
}

pub proof fn lemma_entry_find_none(es: Seq<HistEntryV>, node: Seq<u8>)
    requires
        forall|k: int| 0 <= k < es.len() ==> (#[trigger] es[k]).node != node,
    ensures
        entry_find(es, node) is None,
    decreases es.len(),
{
    if es.len() > 0 {
        assert(forall|k: int|
            0 <= k < es.len() - 1 ==> (#[trigger] es.drop_first()[k]) == es[k + 1]);
        lemma_entry_find_none(es.drop_first(), node);
    }
}

/// An immutable history pack.
pub struct HistoryPack {
    pub sections: Vec<HistSection>,
}

impl View for HistoryPack {
    type V = Seq<SectionV>;

    open spec fn view(&self) -> Seq<SectionV> {
        secs_view(self.sections@)
    }
}

/// What a successful ancestor walk from `key` guarantees: the start key was
/// gathered; every gathered record is what the pack stores under its key;
/// and the gathered set is closed under the parents the pack holds.
pub open spec fn ancestors_ok(secs: Seq<SectionV>, key: KeyV, mv: Seq<(KeyV, NodeInfoV)>) -> bool {
    &&& (exists|i: int| 0 <= i < mv.len() && (#[trigger] mv[i]).0 == key)
    &&& forall|i: int| 0 <= i < mv.len() ==> anc_sound(secs, (#[trigger] mv[i]).0, mv[i].1)
    &&& forall|i: int| 0 <= i < mv.len() ==> anc_closed(secs, mv, (#[trigger] mv[i]).1)
}

/// A node is among the gathered ancestors.
pub open spec fn in_results(mv: Seq<(KeyV, NodeInfoV)>, node: Seq<u8>) -> bool {
    exists|i: int| 0 <= i < mv.len() && (#[trigger] mv[i]).0.node == node
}

/// One gathered ancestor is sound: its key resolves in the pack and its
/// info is what the entry spells.
pub open spec fn anc_sound(secs: Seq<SectionV>, kv: KeyV, iv: NodeInfoV) -> bool {
    hist_lookup(secs, kv.path, kv.node) matches Some(e) && iv == info_of(kv.path, e)
}

/// One gathered ancestor is closed: each of its parents that is non-null
/// and present in the pack was gathered too.
pub open spec fn anc_closed(secs: Seq<SectionV>, mv: Seq<(KeyV, NodeInfoV)>, iv: NodeInfoV) -> bool {
    &&& (iv.p1.node != spec_null_node() && hist_lookup(secs, iv.p1.path, iv.p1.node) is Some)
        ==> in_results(mv, iv.p1.node)
    &&& (iv.p2.node != spec_null_node() && hist_lookup(secs, iv.p2.path, iv.p2.node) is Some)
        ==> in_results(mv, iv.p2.node)
}

pub open spec fn anc_view(m: Seq<(Key, NodeInfo)>) -> Seq<(KeyV, NodeInfoV)> {
    Seq::new(m.len(), |i: int| (m[i].0@, m[i].1@))
}

impl HistoryPack {
    pub open spec fn wf(&self) -> bool {
        secs_wf(self@)
    }

    /// Open a pack from its file bytes: succeeds exactly when the bytes
    /// parse and the parsed sections spell the very bytes given, so any
    /// deviation is corruption.
    pub fn open(bytes: &Vec<u8>) -> (r: Result<HistoryPack, StoreError>)
        ensures
            r is Ok <==> (hist_parse(bytes@) matches Some(secs) && hist_ser(secs) == bytes@),
            r matches Ok(p) ==> p.wf() && hist_parse(bytes@) == Some(p@) && bytes@ == hist_ser(
                p@,
            ),
    {
        let sections = match parse_hist(bytes) {
            Ok(s) => s,
            Err(e) => {
                return Err(e);
            },
        };
        let reser = serialize_hist(&sections);
        if !bytes_eq(&reser, bytes) {
            return Err(StoreError::Corrupt);
        }
        Ok(HistoryPack { sections })
    }

    /// The section and entry positions of the first entry under the key.
    fn find(&self, path: &Vec<u8>, node: &Vec<u8>) -> (r: Option<(usize, usize)>)
        requires
            self.wf(),
        ensures
            match r {
                Some((i, j)) => i < self@.len() && j < self@[i as int].entries.len()
                    && hist_lookup(self@, path@, node@) == Some(self@[i as int].entries[j as int]),
                None => hist_lookup(self@, path@, node@) is None,
            },
    {
        let ghost sv = self@;
        let mut i: usize = 0;
        while i < self.sections.len()
            invariant
                i <= sv.len(),
                sv == self@,
                self.wf(),
                forall|k: int| 0 <= k < i ==> (#[trigger] sv[k]).path != path@,
            decreases sv.len() - i,
        {
            proof {
                assert(sv[i as int] == self.sections@[i as int].view_sec());
            }
            if bytes_eq(&self.sections[i].path, path) {
                proof {
                    lemma_sec_find_at(sv, path@, i as int);
                }
                let sec = &self.sections[i];
                let ghost ev = sv[i as int].entries;
                let mut j: usize = 0;
                while j < sec.entries.len()
                    invariant
                        j <= ev.len(),
                        ev == sv[i as int].entries,
                        i < sv.len(),
                        sv == self@,
                        sec == self.sections@[i as int],
                        sv[i as int] == self.sections@[i as int].view_sec(),
                        sec_find(sv, path@) == Some(sv[i as int]),
                        forall|k: int| 0 <= k < j ==> (#[trigger] ev[k]).node != node@,
                    decreases ev.len() - j,
                {
                    proof {
                        assert(ev[j as int] == sec.entries@[j as int]@);
                    }
                    if bytes_eq(&sec.entries[j].node, node) {
                        proof {
                            lemma_entry_find_at(ev, node@, j as int);
                            assert(entry_find(ev, node@) == Some(ev[j as int]));
                            assert(hist_lookup(self@, path@, node@) == Some(ev[j as int]));
                            assert(ev[j as int] == self@[i as int].entries[j as int]);
                        }
                        return Some((i, j));
                    }
                    j = j + 1;
                }
                proof {
                    lemma_entry_find_none(ev, node@);
                }
                return None;
            }
            i = i + 1;
        }
        proof {
            lemma_sec_find_none(sv, path@);
        }
        None
    }

    /// The ancestry record stored under the key.
    pub fn get_node_info(&self, key: &Key) -> (r: Result<NodeInfo, StoreError>)
        requires
            self.wf(),
            key.wf(),
        ensures
            match r {
                Ok(info) => hist_lookup(self@, key@.path, key@.node) matches Some(e) && info@
                    == info_of(key@.path, e),
                Err(err) => err matches StoreError::NotFound(k) && k@ == key@ && hist_lookup(
                    self@,
                    key@.path,
                    key@.node,
                ) is None,
            },
    {
        match self.find(&key.path, &key.node) {
            Some((i, j)) => {
                let e = &self.sections[i].entries[j];
                proof {
                    assert(self@[i as int] == self.sections@[i as int].view_sec());
                    assert(self@[i as int].entries[j as int] == e@);
                }
                let p1path = match e.copyfrom {
                    Some(ref cp) => clone_bytes(cp),
                    None => clone_bytes(&key.path),
                };
                let info = NodeInfo {
                    p1: Key { path: p1path, node: clone_bytes(&e.p1) },
                    p2: Key { path: clone_bytes(&key.path), node: clone_bytes(&e.p2) },
                    linknode: clone_bytes(&e.link),
                    copyfrom: match e.copyfrom {
                        Some(ref cp) => Some(clone_bytes(cp)),
                        None => None,
                    },
                };
                proof {
                    assert(info@ =~= info_of(key@.path, e@));
                }
                Ok(info)
            },
            None => Err(StoreError::NotFound(key.clone_key())),
        }
    }

    /// Exactly the keys this pack holds no ancestry record for, in input
    /// order.
    pub fn get_missing(&self, keys: &Vec<Key>) -> (r: Result<Vec<Key>, StoreError>)
        requires
            self.wf(),
        ensures
            r matches Ok(v) && keys_view(v@) == hist_missing(self@, keys_view(keys@)),
    {
        let mut out: Vec<Key> = Vec::new();
        let mut i: usize = 0;
        proof {
            assert(keys_view(out@) =~= hist_missing(self@, keys_view(keys@).subrange(0, 0)));
        }
        while i < keys.len()
            invariant
                self.wf(),
                i <= keys@.len(),
                keys_view(out@) == hist_missing(self@, keys_view(keys@).subrange(0, i as int)),
            decreases keys@.len() - i,
        {
            let ghost pre = keys_view(keys@).subrange(0, i as int);
            let ghost post = keys_view(keys@).subrange(0, i + 1);
            let k = &keys[i];
            let ghost old_out = out@;
            if self.find(&k.path, &k.node).is_none() {
                out.push(k.clone_key());
            }
            i = i + 1;
            proof {
                assert(post.drop_last() =~= pre);
                assert(post.last() == keys_view(keys@)[i - 1]);
                assert(keys_view(keys@)[i - 1] == keys@[i - 1]@);
                if hist_lookup(self@, keys@[i - 1]@.path, keys@[i - 1]@.node) is None {
                    assert(keys_view(out@) =~= keys_view(old_out) + seq![keys@[i - 1]@]);
                } else {
                    assert(keys_view(out@) =~= keys_view(old_out));
                }
            }
        }
        proof {
            assert(keys_view(keys@).subrange(0, keys@.len() as int) =~= keys_view(keys@));
        }
        Ok(out)
    }

    /// Walk the parents from `key`: every reachable ancestor inside this
    /// pack, the start included. The result holds one record per node, is
    /// closed under the parents the pack holds, and contains the start key.
    /// Fails exactly when the pack holds no record under the start key.
    #[verifier::rlimit(60)]
    pub fn get_ancestors(&self, key: &Key) -> (r: Result<Vec<(Key, NodeInfo)>, StoreError>)
        requires
            self.wf(),
            key.wf(),
        ensures
            match r {
                Ok(m) => ancestors_ok(self@, key@, anc_view(m@)),
                Err(err) => err matches StoreError::NotFound(k) && k@ == key@ && hist_lookup(
                    self@,
                    key@.path,
                    key@.node,
                ) is None,
            },
    {
        let mut results: Vec<(Key, NodeInfo)> = Vec::new();
        let mut queue: Vec<Key> = Vec::new();
        // Count every slot of the pack: pairwise-distinct gathered nodes can
        // never outnumber them.
        let mut total: u128 = 0;
        let mut si: usize = 0;
        proof {
            assert(all_nodes(self@.subrange(0, 0)) =~= Seq::<Seq<u8>>::empty());
        }
        while si < self.sections.len()
            invariant
                si <= self.sections@.len(),
                total as int == all_nodes(self@.subrange(0, si as int)).len(),
                total <= (si as u128) * 0xFFFF_FFFF_FFFF_FFFFu128,
            decreases self.sections@.len() - si,
        {
            let c = self.sections[si].entries.len();
            proof {
                assert((si as u128 + 1) * 0xFFFF_FFFF_FFFF_FFFFu128
                    < 0xFFFF_FFFF_FFFF_FFFF_FFFF_FFFF_FFFF_FFFFu128) by (nonlinear_arith)
                    requires
                        si as u128 + 1 <= 0x1_0000_0000_0000_0000u128,
                ;
                assert(total + (c as u128) <= (si as u128 + 1) * 0xFFFF_FFFF_FFFF_FFFFu128)
                    by (nonlinear_arith)
                    requires
                        total <= (si as u128) * 0xFFFF_FFFF_FFFF_FFFFu128,
                        c <= 0xFFFF_FFFF_FFFF_FFFFu64 as usize || c as u128
                            <= 0xFFFF_FFFF_FFFF_FFFFu128,
                ;
            }
            total = total + (c as u128);
            si = si + 1;
            proof {
                let pre = self@.subrange(0, si - 1);
                let post = self@.subrange(0, si as int);
                assert(post.drop_last() =~= pre);
                assert(post.last() == self@[si - 1]);
                assert(self@[si - 1] == self.sections@[si - 1].view_sec());
                assert(sec_nodes(self@[si - 1]).len() == c as int);
            }
        }
        proof {
            assert(self@.subrange(0, self@.len() as int) =~= self@);
        }
        // Gather the start first; its absence is the not-found case.
        match self.insert_with_parents(key, &mut results, &mut queue) {
            Ok(true) => {},
            Ok(false) => {
                return Err(StoreError::NotFound(key.clone_key()));
            },
            Err(e) => {
                proof {
                    assert(false);
                }
                return Err(e);
            },
        }
        proof {
            assert(anc_view(results@)[0].0 == key@);
            assert(anc_view(results@).len() == 1);
            assert(results@.len() == anc_view(results@).len());
        }
        proof {
            assert(hist_lookup(self@, key@.path, key@.node) is Some);
            lemma_lookup_in_nodes(self@, key@.path, key@.node);
            assert(anc_view(results@)[0].0.node == key@.node);
            lemma_distinct_nodes_bound(
                self@,
                Seq::new(anc_view(results@).len(), |i: int| anc_view(results@)[i].0.node),
            );
        }
        while queue.len() > 0
            invariant
                self.wf(),
                total as int == all_nodes(self@).len(),
                results@.len() <= total,
                forall|i: int, j: int|
                    0 <= i < j < anc_view(results@).len() ==> (#[trigger] anc_view(
                        results@,
                    )[i]).0.node != (#[trigger] anc_view(results@)[j]).0.node,
                forall|i: int|
                    0 <= i < anc_view(results@).len() ==> all_nodes(self@).contains(
                        (#[trigger] anc_view(results@)[i]).0.node,
                    ),
                exists|i: int|
                    0 <= i < anc_view(results@).len() && (#[trigger] anc_view(results@)[i]).0
                        == key@,
                forall|i: int|
                    0 <= i < anc_view(results@).len() ==> anc_sound(
                        self@,
                        (#[trigger] anc_view(results@)[i]).0,
                        anc_view(results@)[i].1,
                    ),
                forall|i: int|
                    0 <= i < queue@.len() ==> (#[trigger] queue@[i]).wf(),
                forall|i: int|
                    0 <= i < anc_view(results@).len() ==> anc_open(
                        self@,
                        anc_view(results@),
                        queue@,
                        (#[trigger] anc_view(results@)[i]).1,
                    ),
            decreases (total as int + 2 - results@.len()), queue@.len(),
        {
            let ghost old_results = anc_view(results@);
            let ghost old_queue = queue@;
            let ghost start_idx = choose|i: int|
                0 <= i < anc_view(results@).len() && (#[trigger] anc_view(results@)[i]).0
                    == key@;
            let q = queue.pop().unwrap();
            if self.node_in_results(&q.node, &results) {
                proof {
                    lemma_anc_open_pop(self@, anc_view(results@), old_queue, queue@, q@, true);
                    assert(anc_view(results@)[start_idx].0 == key@);
                    assert(results@.len() == old_results.len());
                }
                continue ;
            }
            match self.insert_with_parents(&q, &mut results, &mut queue) {
                Ok(found) => {
                    proof {
                        if found {
                            assert(anc_view(results@).len() == old_results.len() + 1);
                            assert(results@.len() == anc_view(results@).len());
                            assert(anc_view(results@)[old_results.len() as int].0 == q@);
                            assert(hist_lookup(self@, q@.path, q@.node) is Some);
                            lemma_lookup_in_nodes(self@, q@.path, q@.node);
                            assert forall|i: int, j: int|
                                0 <= i < j < anc_view(results@).len() implies (#[trigger] anc_view(
                                results@,
                            )[i]).0.node != (#[trigger] anc_view(results@)[j]).0.node by {
                                if j < old_results.len() {
                                    assert(anc_view(results@)[i] == old_results[i]);
                                    assert(anc_view(results@)[j] == old_results[j]);
                                } else {
                                    assert(anc_view(results@)[i] == old_results[i]);
                                    assert(!in_results(old_results, q@.node));
                                }
                            }
                            assert forall|i: int|
                                0 <= i < anc_view(results@).len() implies all_nodes(
                                self@,
                            ).contains((#[trigger] anc_view(results@)[i]).0.node) by {
                                if i < old_results.len() {
                                    assert(anc_view(results@)[i] == old_results[i]);
                                }
                            }
                            lemma_distinct_nodes_bound(
                                self@,
                                Seq::new(
                                    anc_view(results@).len(),
                                    |i: int| anc_view(results@)[i].0.node,
                                ),
                            );
                            lemma_anc_open_step(
                                self@,
                                old_results,
                                anc_view(results@),
                                old_queue,
                                queue@,
                                q@,
                            );
                            assert(anc_view(results@)[start_idx] == old_results[start_idx]);
                            assert forall|i: int|
                                0 <= i < anc_view(results@).len() implies anc_sound(
                                self@,
                                (#[trigger] anc_view(results@)[i]).0,
                                anc_view(results@)[i].1,
                            ) by {
                                if i < old_results.len() {
                                    assert(anc_view(results@)[i] == old_results[i]);
                                }
                            }
                            assert forall|i: int|
                                0 <= i < queue@.len() implies (#[trigger] queue@[i]).wf() by {
                                if old_queue.drop_last().contains(queue@[i]) {
                                    let ix = choose|ix: int|
                                        0 <= ix < old_queue.drop_last().len()
                                            && old_queue.drop_last()[ix] == queue@[i];
                                    assert(old_queue[ix] == queue@[i]);
                                }
                            }
                        } else {
                            lemma_anc_open_pop(
                                self@,
                                anc_view(results@),
                                old_queue,
                                queue@,
                                q@,
                                false,
                            );
                            assert(anc_view(results@)[start_idx].0 == key@);
                            assert(results@.len() == old_results.len());
                        }
                    }
                },
                Err(e) => {
                    proof {
                        assert(false);
                    }
                    return Err(e);
                },
            }
        }
        proof {
            assert forall|i: int| 0 <= i < anc_view(results@).len() implies anc_closed(
                self@,
                anc_view(results@),
                (#[trigger] anc_view(results@)[i]).1,
            ) by {
                assert(anc_open(
                    self@,
                    anc_view(results@),
                    queue@,
                    anc_view(results@)[i].1,
                ));
            }
            assert(ancestors_ok(self@, key@, anc_view(results@)));
        }
        Ok(results)
    }

    /// Whether a node was gathered already.
    fn node_in_results(&self, node: &Vec<u8>, results: &Vec<(Key, NodeInfo)>) -> (r: bool)
        ensures
            r == in_results(anc_view(results@), node@),
    {
        let mut i: usize = 0;
        while i < results.len()
            invariant
                i <= results@.len(),
                forall|k: int|
                    0 <= k < i ==> (#[trigger] anc_view(results@)[k]).0.node != node@,
            decreases results@.len() - i,
        {
            proof {
                assert(anc_view(results@)[i as int].0 == results@[i as int].0@);
            }
            if bytes_eq(&results[i].0.node, node) {
                return true;
            }
            i = i + 1;
        }
        false
    }

    /// Look the key up; on success append its record to the results and its
    /// non-null parents to the queue. Yields whether the key was found.
    fn insert_with_parents(
        &self,
        key: &Key,
        results: &mut Vec<(Key, NodeInfo)>,
        queue: &mut Vec<Key>,
    ) -> (r: Result<bool, StoreError>)
        requires
            self.wf(),
            key.wf(),
        ensures
            match r {
                Ok(found) => {
                    &&& !found ==> (hist_lookup(self@, key@.path, key@.node) is None) && *final(results) == *old(results) && *final(queue) == *old(queue)
                    &&& found ==> {
                        &&& anc_view(final(results)@) == anc_view(old(results)@).push(
                            (key@, info_of(key@.path, hist_lookup(self@, key@.path, key@.node)->Some_0)),
                        )
                        &&& hist_lookup(self@, key@.path, key@.node) is Some
                        &&& queue_extended_with_parents(
                            self@,
                            old(queue)@,
                            final(queue)@,
                            info_of(key@.path, hist_lookup(self@, key@.path, key@.node)->Some_0),
                        )
                        &&& forall|i: int|
                            0 <= i < final(queue)@.len() ==> (old(queue)@.contains(
                                #[trigger] final(queue)@[i],
                            ) || final(queue)@[i].wf())
                    }
                },
                Err(_) => false,
            },
    {
        match self.find(&key.path, &key.node) {
            None => Ok(false),
            Some((i, j)) => {
                let e = &self.sections[i].entries[j];
                proof {
                    assert(self@[i as int] == self.sections@[i as int].view_sec());
                    assert(self@[i as int].entries[j as int] == e@);
                    assert(self@[i as int].wf());
                    assert(self@[i as int].entries[j as int].wf());
                }
                let p1path = match e.copyfrom {
                    Some(ref cp) => clone_bytes(cp),
                    None => clone_bytes(&key.path),
                };
                let info = NodeInfo {
                    p1: Key { path: p1path, node: clone_bytes(&e.p1) },
                    p2: Key { path: clone_bytes(&key.path), node: clone_bytes(&e.p2) },
                    linknode: clone_bytes(&e.link),
                    copyfrom: match e.copyfrom {
                        Some(ref cp) => Some(clone_bytes(cp)),
                        None => None,
                    },
                };
                proof {
                    assert(info@ =~= info_of(key@.path, e@));
                    assert(info.p1.wf());
                    assert(info.p2.wf());
                }
                let ghost old_q = queue@;
                let ghost iv = info_of(key@.path, e@);
                if !is_null_node(&info.p1.node) {
                    queue.push(info.p1.clone_key());
                    proof {
                        assert(queue@[queue@.len() - 1]@ == iv.p1);
                        assert(in_queue(queue@, iv.p1));
                    }
                }
                let ghost q1 = queue@;
                if !is_null_node(&info.p2.node) {
                    queue.push(info.p2.clone_key());
                    proof {
                        assert(queue@[queue@.len() - 1]@ == iv.p2);
                        assert(in_queue(queue@, iv.p2));
                    }
                }
                proof {
                    assert forall|x: KeyV| in_queue(old_q, x) implies in_queue(queue@, x) by {
                        let ix = choose|ix: int| 0 <= ix < old_q.len() && (#[trigger] old_q[ix])@ == x;
                        assert(queue@[ix]@ == x);
                    }
                    if iv.p1.node != spec_null_node() {
                        let ix = choose|ix: int| 0 <= ix < q1.len() && (#[trigger] q1[ix])@ == iv.p1;
                        assert(queue@[ix]@ == iv.p1);
                        assert(in_queue(queue@, iv.p1));
                    }
                    assert(hist_lookup(self@, key@.path, key@.node) == Some(e@));
                    assert(queue_extended_with_parents(self@, old_q, queue@, iv));
                    assert forall|ix: int| 0 <= ix < queue@.len() implies (old_q.contains(
                        #[trigger] queue@[ix],
                    ) || queue@[ix].wf()) by {
                        if ix >= old_q.len() {
                            assert(queue@[ix].wf());
                        } else {
                            assert(old_q[ix] == queue@[ix]);
                        }
                    }
                }
                let ghost mid_results = anc_view(results@);
                results.push((key.clone_key(), info));
                proof {
                    assert(anc_view(results@) =~= mid_results.push(
                        (key@, info_of(key@.path, e@)),
                    ));
                }
                Ok(true)
            },
        }
    }
}

/// Between the old and new queue, only the given record's non-null parents
/// were added, and nothing was taken away.
pub open spec fn queue_extended_with_parents(
    secs: Seq<SectionV>,
    oldq: Seq<Key>,
    newq: Seq<Key>,
    iv: NodeInfoV,
) -> bool {
    &&& forall|p: KeyV| in_queue(oldq, p) ==> in_queue(newq, p)
    &&& (iv.p1.node != spec_null_node() ==> in_queue(newq, iv.p1))
    &&& (iv.p2.node != spec_null_node() ==> in_queue(newq, iv.p2))
}

pub open spec fn in_queue(q: Seq<Key>, p: KeyV) -> bool {
    exists|i: int| 0 <= i < q.len() && (#[trigger] q[i])@ == p
}

/// The loop shape of the closure: each parent is gathered, or waiting in
/// the queue, or absent from the pack.
pub open spec fn anc_open(
    secs: Seq<SectionV>,
    mv: Seq<(KeyV, NodeInfoV)>,
    q: Seq<Key>,
    iv: NodeInfoV,
) -> bool {
    &&& (iv.p1.node != spec_null_node() && hist_lookup(secs, iv.p1.path, iv.p1.node) is Some)
        ==> (in_results(mv, iv.p1.node) || in_queue(q, iv.p1) || hist_lookup(
        secs,
        iv.p1.path,
        iv.p1.node,
    ) is None)
    &&& (iv.p2.node != spec_null_node() && hist_lookup(secs, iv.p2.path, iv.p2.node) is Some)
        ==> (in_results(mv, iv.p2.node) || in_queue(q, iv.p2) || hist_lookup(
        secs,
        iv.p2.path,
        iv.p2.node,
    ) is None)
}

/// Popping a key already gathered, or absent, keeps every record open.
pub proof fn lemma_anc_open_pop(
    secs: Seq<SectionV>,
    mv: Seq<(KeyV, NodeInfoV)>,
    oldq: Seq<Key>,
    newq: Seq<Key>,
    popped: KeyV,
    covered: bool,
)
    requires
        oldq.len() > 0,
        newq == oldq.drop_last(),
        oldq.last()@ == popped,
        covered ==> in_results(mv, popped.node),
        !covered ==> hist_lookup(secs, popped.path, popped.node) is None,
        forall|i: int| 0 <= i < mv.len() ==> anc_open(secs, mv, oldq, (#[trigger] mv[i]).1),
    ensures
        forall|i: int| 0 <= i < mv.len() ==> anc_open(secs, mv, newq, (#[trigger] mv[i]).1),
{
    assert forall|i: int| 0 <= i < mv.len() implies anc_open(
        secs,
        mv,
        newq,
        (#[trigger] mv[i]).1,
    ) by {
        let iv = mv[i].1;
        lemma_open_one(secs, mv, oldq, newq, popped, covered, iv.p1);
        lemma_open_one(secs, mv, oldq, newq, popped, covered, iv.p2);
    }
}

/// One parent stays covered after the pop.
proof fn lemma_open_one(
    secs: Seq<SectionV>,
    mv: Seq<(KeyV, NodeInfoV)>,
    oldq: Seq<Key>,
    newq: Seq<Key>,
    popped: KeyV,
    covered: bool,
    p: KeyV,
)
    requires
        oldq.len() > 0,
        newq == oldq.drop_last(),
        oldq.last()@ == popped,
        covered ==> in_results(mv, popped.node),
        !covered ==> hist_lookup(secs, popped.path, popped.node) is None,
    ensures
        (in_results(mv, p.node) || in_queue(oldq, p) || hist_lookup(secs, p.path, p.node)
            is None) ==> (in_results(mv, p.node) || in_queue(newq, p) || hist_lookup(
            secs,
            p.path,
            p.node,
        ) is None),
{
    if in_queue(oldq, p) && !in_queue(newq, p) && !in_results(mv, p.node) {
        let i = choose|i: int| 0 <= i < oldq.len() && (#[trigger] oldq[i])@ == p;
        if i < oldq.len() - 1 {
            assert(newq[i]@ == p);
            assert(in_queue(newq, p));
        } else {
            assert(p == popped);
        }
    }
}

/// After gathering the popped key, every record is open again.
pub proof fn lemma_anc_open_step(
    secs: Seq<SectionV>,
    old_mv: Seq<(KeyV, NodeInfoV)>,
    new_mv: Seq<(KeyV, NodeInfoV)>,
    oldq: Seq<Key>,
    newq: Seq<Key>,
    popped: KeyV,
)
    requires
        oldq.len() > 0,
        oldq.last()@ == popped,
        hist_lookup(secs, popped.path, popped.node) is Some,
        new_mv == old_mv.push(
            (popped, info_of(popped.path, hist_lookup(secs, popped.path, popped.node)->Some_0)),
        ),
        queue_extended_with_parents(
            secs,
            oldq.drop_last(),
            newq,
            info_of(popped.path, hist_lookup(secs, popped.path, popped.node)->Some_0),
        ),
        forall|i: int| 0 <= i < old_mv.len() ==> anc_open(secs, old_mv, oldq, (#[trigger] old_mv[i]).1),
    ensures
        forall|i: int| 0 <= i < new_mv.len() ==> anc_open(secs, new_mv, newq, (#[trigger] new_mv[i]).1),
{
    let info = info_of(popped.path, hist_lookup(secs, popped.path, popped.node)->Some_0);
    assert(new_mv[new_mv.len() - 1] == (popped, info));
    assert forall|i: int| 0 <= i < new_mv.len() implies anc_open(
        secs,
        new_mv,
        newq,
        (#[trigger] new_mv[i]).1,
    ) by {
        if i < old_mv.len() {
            assert(new_mv[i] == old_mv[i]);
            assert(anc_open(secs, old_mv, oldq, old_mv[i].1));
            lemma_open_step_one(secs, old_mv, new_mv, oldq, newq, popped, old_mv[i].1.p1);
            lemma_open_step_one(secs, old_mv, new_mv, oldq, newq, popped, old_mv[i].1.p2);
        } else {
            // The fresh record's parents went straight to the queue.
            assert(new_mv[i].1 == info);
        }
    }
}

/// One parent of an old record stays covered after the gather.
proof fn lemma_open_step_one(
    secs: Seq<SectionV>,
    old_mv: Seq<(KeyV, NodeInfoV)>,
    new_mv: Seq<(KeyV, NodeInfoV)>,
    oldq: Seq<Key>,
    newq: Seq<Key>,
    popped: KeyV,
    p: KeyV,
)
    requires
        oldq.len() > 0,
        oldq.last()@ == popped,
        new_mv.len() == old_mv.len() + 1,
        forall|k: int| 0 <= k < old_mv.len() ==> #[trigger] new_mv[k] == old_mv[k],
        new_mv[old_mv.len() as int].0 == popped,
        forall|x: KeyV| in_queue(oldq.drop_last(), x) ==> in_queue(newq, x),
    ensures
        (in_results(old_mv, p.node) || in_queue(oldq, p) || hist_lookup(secs, p.path, p.node)
            is None) ==> (in_results(new_mv, p.node) || in_queue(newq, p) || hist_lookup(
            secs,
            p.path,
            p.node,
        ) is None),
{
    if in_results(old_mv, p.node) {
        let i = choose|i: int| 0 <= i < old_mv.len() && (#[trigger] old_mv[i]).0.node == p.node;
        assert(new_mv[i].0.node == p.node);
        assert(in_results(new_mv, p.node));
    } else if in_queue(oldq, p) {
        let i = choose|i: int| 0 <= i < oldq.len() && (#[trigger] oldq[i])@ == p;
        if i < oldq.len() - 1 {
            assert(oldq.drop_last()[i]@ == p);
            assert(in_queue(oldq.drop_last(), p));
        } else {
            assert(p == popped);
            assert(new_mv[old_mv.len() as int].0.node == p.node);
            assert(in_results(new_mv, p.node));
        }
    }
}

/// The nodes of one section's entries.
pub open spec fn sec_nodes(sec: SectionV) -> Seq<Seq<u8>> {
    Seq::new(sec.entries.len(), |i: int| sec.entries[i].node)
}

/// Every node the pack stores, in file order.
pub open spec fn all_nodes(secs: Seq<SectionV>) -> Seq<Seq<u8>>
    decreases secs.len(),
{
    if secs.len() == 0 {
        Seq::empty()
    } else {
        all_nodes(secs.drop_last()) + sec_nodes(secs.last())
    }
}

/// What a successful section search yields sits in the run.
proof fn lemma_sec_find_mem(secs: Seq<SectionV>, path: Seq<u8>)
    requires
        sec_find(secs, path) is Some,
    ensures
        exists|i: int| 0 <= i < secs.len() && secs[i] == sec_find(secs, path)->Some_0,
    decreases secs.len(),
{
    if secs.len() > 0 {
        if secs[0].path == path {
        } else {
            lemma_sec_find_mem(secs.drop_first(), path);
            let i = choose|i: int|
                0 <= i < secs.drop_first().len() && secs.drop_first()[i] == sec_find(
                    secs.drop_first(),
                    path,
                )->Some_0;
            assert(secs[i + 1] == sec_find(secs, path)->Some_0);
        }
    }
}

/// What a successful entry search yields carries the searched node and sits
/// in the run.
proof fn lemma_entry_find_mem(es: Seq<HistEntryV>, node: Seq<u8>)
    requires
        entry_find(es, node) is Some,
    ensures
        entry_find(es, node)->Some_0.node == node,
        exists|j: int| 0 <= j < es.len() && es[j] == entry_find(es, node)->Some_0,
    decreases es.len(),
{
    if es.len() > 0 {
        if es[0].node == node {
        } else {
            lemma_entry_find_mem(es.drop_first(), node);
            let j = choose|j: int|
                0 <= j < es.drop_first().len() && es.drop_first()[j] == entry_find(
                    es.drop_first(),
                    node,
                )->Some_0;
            assert(es[j + 1] == entry_find(es, node)->Some_0);
        }
    }
}

/// The node at one slot of one section is among the pack's nodes.
proof fn lemma_all_nodes_at(secs: Seq<SectionV>, i: int, j: int)
    requires
        0 <= i < secs.len(),
        0 <= j < secs[i].entries.len(),
    ensures
        all_nodes(secs).contains(secs[i].entries[j].node),
    decreases secs.len(),
{
    if i == secs.len() - 1 {
        assert(all_nodes(secs)[all_nodes(secs.drop_last()).len() + j] == secs[i].entries[j].node);
    } else {
        assert(secs.drop_last()[i] == secs[i]);
        lemma_all_nodes_at(secs.drop_last(), i, j);
        let k = choose|k: int|
            0 <= k < all_nodes(secs.drop_last()).len() && all_nodes(secs.drop_last())[k]
                == secs[i].entries[j].node;
        assert(all_nodes(secs)[k] == secs[i].entries[j].node);
    }
}

/// A node the pack answers for is among the pack's nodes.
pub proof fn lemma_lookup_in_nodes(secs: Seq<SectionV>, path: Seq<u8>, node: Seq<u8>)
    requires
        hist_lookup(secs, path, node) is Some,
    ensures
        all_nodes(secs).contains(node),
{
    lemma_sec_find_mem(secs, path);
    let i = choose|i: int| 0 <= i < secs.len() && secs[i] == sec_find(secs, path)->Some_0;
    lemma_entry_find_mem(secs[i].entries, node);
    let j = choose|j: int|
        0 <= j < secs[i].entries.len() && secs[i].entries[j] == entry_find(
            secs[i].entries,
            node,
        )->Some_0;
    assert(secs[i].entries[j].node == node);
    lemma_all_nodes_at(secs, i, j);
}

/// Pairwise-distinct nodes that all sit in the pack are no more numerous
/// than the pack's slots.
pub proof fn lemma_distinct_nodes_bound(secs: Seq<SectionV>, xs: Seq<Seq<u8>>)
    requires
        xs.no_duplicates(),
        forall|k: int| 0 <= k < xs.len() ==> all_nodes(secs).contains(#[trigger] xs[k]),
    ensures
        xs.len() <= all_nodes(secs).len(),
{
    broadcast use vstd::seq_lib::seq_to_set_is_finite;

    xs.unique_seq_to_set();
    all_nodes(secs).lemma_cardinality_of_set();
    assert(xs.to_set().subset_of(all_nodes(secs).to_set())) by {
        assert forall|x: Seq<u8>| xs.to_set().contains(x) implies all_nodes(
            secs,
        ).to_set().contains(x) by {
            assert(xs.contains(x));
            assert(all_nodes(secs).contains(x));
        }
    }
    vstd::set_lib::lemma_len_subset(xs.to_set(), all_nodes(secs).to_set());
}

/// The byte length of a run of serialized sections.
pub open spec fn sections_len(secs: Seq<SectionV>) -> int
    decreases secs.len(),
{
    if secs.len() == 0 {
        0
    } else {
        sections_len(secs.drop_last()) + section_ser(secs.last()).len()
    }
}

/// The file is the version byte and the sections.
pub proof fn lemma_hist_ser_len(secs: Seq<SectionV>)
    ensures
        hist_ser(secs).len() == 1 + sections_len(secs),
    decreases secs.len(),
{
    if secs.len() > 0 {
        lemma_hist_ser_len(secs.drop_last());
    }
}

/// sections_len grouped from the front.
pub proof fn lemma_sections_len_front(secs: Seq<SectionV>)
    requires
        secs.len() > 0,
    ensures
        sections_len(secs) == section_ser(secs[0]).len() + sections_len(secs.drop_first()),
    decreases secs.len(),
{
    if secs.len() == 1 {
        assert(secs.drop_last() =~= Seq::<SectionV>::empty());
        assert(secs.drop_first() =~= Seq::<SectionV>::empty());
    } else {
        lemma_sections_len_front(secs.drop_last());
        assert(secs.drop_last()[0] == secs[0]);
        assert(secs.drop_last().drop_first() =~= secs.drop_first().drop_last());
        assert(secs.drop_first().last() == secs.last());
    }
}

/// The index entries a history pack carries: every entry's node at its
/// section's byte offset, sections laid out from `pos`.
pub open spec fn hist_index_pairs(secs: Seq<SectionV>, pos: int) -> Seq<
    (int, crate::packformat::DataRecordV),
>
    decreases secs.len(),
{
    if secs.len() == 0 {
        Seq::empty()
    } else {
        Seq::new(
            secs[0].entries.len(),
            |i: int| (pos, crate::packindex::node_rec(secs[0].entries[i].node)),
        ) + hist_index_pairs(secs.drop_first(), pos + section_ser(secs[0]).len())
    }
}

/// hist_index_pairs grouped from the back: the last section's entries sit at
/// the offset every earlier section leaves behind.
pub proof fn lemma_hist_pairs_snoc(secs: Seq<SectionV>, pos: int)
    requires
        secs.len() > 0,
    ensures
        hist_index_pairs(secs, pos) == hist_index_pairs(secs.drop_last(), pos) + Seq::new(
            secs.last().entries.len(),
            |i: int|
                (
                    pos + sections_len(secs.drop_last()),
                    crate::packindex::node_rec(secs.last().entries[i].node),
                ),
        ),
    decreases secs.len(),
{
    let tail = Seq::new(
        secs.last().entries.len(),
        |i: int|
            (
                pos + sections_len(secs.drop_last()),
                crate::packindex::node_rec(secs.last().entries[i].node),
            ),
    );
    if secs.len() == 1 {
        assert(secs.drop_last() =~= Seq::<SectionV>::empty());
        assert(secs.drop_first() =~= Seq::<SectionV>::empty());
        assert(secs[0] == secs.last());
        assert(sections_len(secs.drop_last()) == 0);
        let head = Seq::new(
            secs[0].entries.len(),
            |i: int| (pos, crate::packindex::node_rec(secs[0].entries[i].node)),
        );
        assert(hist_index_pairs(secs, pos) == head + hist_index_pairs(
            secs.drop_first(),
            pos + section_ser(secs[0]).len(),
        ));
        assert(hist_index_pairs(secs.drop_first(), pos + section_ser(secs[0]).len())
            =~= Seq::<(int, crate::packformat::DataRecordV)>::empty());
        assert(hist_index_pairs(secs.drop_last(), pos) =~= Seq::<
            (int, crate::packformat::DataRecordV),
        >::empty());
        assert(head =~= tail) by {
            assert forall|i: int| 0 <= i < head.len() implies #[trigger] head[i] == tail[i] by {
                assert(head[i] == (pos, crate::packindex::node_rec(secs[0].entries[i].node)));
                assert(tail[i] == (
                    pos + sections_len(secs.drop_last()),
                    crate::packindex::node_rec(secs.last().entries[i].node),
                ));
            }
        }
        assert(hist_index_pairs(secs, pos) =~= hist_index_pairs(secs.drop_last(), pos) + tail);
    } else {
        let s0 = section_ser(secs[0]).len() as int;
        let head = Seq::new(
            secs[0].entries.len(),
            |i: int| (pos, crate::packindex::node_rec(secs[0].entries[i].node)),
        );
        lemma_hist_pairs_snoc(secs.drop_first(), pos + s0);
        assert(secs.drop_first().drop_last() =~= secs.drop_last().drop_first());
        assert(secs.drop_first().last() == secs.last());
        assert(secs.drop_last()[0] == secs[0]);
        lemma_sections_len_front(secs.drop_last());
        let mid = hist_index_pairs(secs.drop_last().drop_first(), pos + s0);
        let tail2 = Seq::new(
            secs.drop_first().last().entries.len(),
            |i: int|
                (
                    pos + s0 + sections_len(secs.drop_first().drop_last()),
                    crate::packindex::node_rec(secs.drop_first().last().entries[i].node),
                ),
        );
        assert(tail2 =~= tail);
        assert(hist_index_pairs(secs, pos) == head + (mid + tail2));
        assert(hist_index_pairs(secs.drop_last(), pos) == head + mid);
        assert(head + (mid + tail2) =~= (head + mid) + tail2);
        assert(hist_index_pairs(secs, pos) =~= hist_index_pairs(secs.drop_last(), pos) + tail);
    }
}

/// The keys of `ks` that the pack holds no ancestry record for, in input
/// order.
pub open spec fn hist_missing(secs: Seq<SectionV>, ks: Seq<KeyV>) -> Seq<KeyV>
    decreases ks.len(),
{
    if ks.len() == 0 {
        Seq::empty()
    } else {
        hist_missing(secs, ks.drop_last()) + if hist_lookup(
            secs,
            ks.last().path,
            ks.last().node,
        ) is None {
            seq![ks.last()]
        } else {
            Seq::empty()
        }
    }
}

} // verus!
