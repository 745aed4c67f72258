use vstd::prelude::*;

use crate::codec::{be16, be16_val, clone_bytes, lemma_be16_roundtrip, push_be16, push_bytes,
    read_be16, read_bytes};
use crate::types::StoreError;

verus! {

// Metadata: an ordered list of (tag, value) attributes. On disk: one version
// byte (zero), then for each attribute its tag, a 16-bit big-endian value
// length and the value bytes, and finally a zero tag closing the list.

/// End-of-metadata marker.
pub const META_TAG_END: u8 = 0;

/// Reserved tag: content size, a 64-bit big-endian value.
pub const META_TAG_SIZE: u8 = 1;

/// Reserved tag: flags, a 64-bit big-endian value.
pub const META_TAG_FLAGS: u8 = 2;

/// An ordered set of tagged attributes. Unknown tags ride along unchanged.
pub struct Metadata {
    pub entries: Vec<(u8, Vec<u8>)>,
}

impl View for Metadata {
    type V = Seq<(u8, Seq<u8>)>;

    open spec fn view(&self) -> Seq<(u8, Seq<u8>)> {
        Seq::new(self.entries@.len(), |i: int| (self.entries@[i].0, self.entries@[i].1@))
    }
}

pub open spec fn meta_entries_wf(es: Seq<(u8, Seq<u8>)>) -> bool {
    forall|i: int| 0 <= i < es.len() ==> (#[trigger] es[i]).0 != 0 && es[i].1.len() <= 0xFFFF
}

impl Metadata {
    pub open spec fn wf(&self) -> bool {
        meta_entries_wf(self@)
    }

    pub fn empty() -> (r: Metadata)
        ensures
            r@ == Seq::<(u8, Seq<u8>)>::empty(),
            r.wf(),
    {
        let r = Metadata { entries: Vec::new() };
        proof {
            assert(r@ =~= Seq::<(u8, Seq<u8>)>::empty());
        }
        r
    }

    /// Whether every attribute fits the on-disk fields.
    pub fn check(&self) -> (r: bool)
        ensures
            r == self.wf(),
    {
        let mut i: usize = 0;
        while i < self.entries.len()
            invariant
                i <= self.entries@.len(),
                forall|j: int|
                    0 <= j < i ==> (#[trigger] self@[j]).0 != 0 && self@[j].1.len() <= 0xFFFF,
            decreases self.entries@.len() - i,
        {
            let (tag, ref v) = self.entries[i];
            if tag == 0 || v.len() > 0xFFFF {
                proof {
                    assert(self@[i as int].0 == tag && self@[i as int].1 == v@);
                }
                return false;
            }
            i = i + 1;
            proof {
                assert(self@[i - 1].0 == tag && self@[i - 1].1 == v@);
            }
        }
        true
    }

    pub fn clone_meta(&self) -> (r: Metadata)
        ensures
            r@ == self@,
    {
        let mut entries: Vec<(u8, Vec<u8>)> = Vec::new();
        let mut i: usize = 0;
        while i < self.entries.len()
            invariant
                i <= self.entries@.len(),
                entries@.len() == i,
                forall|j: int|
                    0 <= j < i ==> #[trigger] entries@[j].0 == self.entries@[j].0
                        && entries@[j].1@ == self.entries@[j].1@,
            decreases self.entries@.len() - i,
        {
            let (tag, ref v) = self.entries[i];
            entries.push((tag, clone_bytes(v)));
            i = i + 1;
        }
        let r = Metadata { entries };
        proof {
            assert(r@ =~= self@);
        }
        r
    }
}

impl Default for Metadata {
    fn default() -> (r: Metadata)
        ensures
            r@ == Seq::<(u8, Seq<u8>)>::empty(),
            r.wf(),
    {
        Metadata::empty()
    }
}

pub open spec fn meta_entry_ser(e: (u8, Seq<u8>)) -> Seq<u8> {
    seq![e.0] + be16(e.1.len() as u16) + e.1
}

pub open spec fn meta_entries_ser(es: Seq<(u8, Seq<u8>)>) -> Seq<u8>
    decreases es.len(),
{
    if es.len() == 0 {
        Seq::empty()
    } else {
        meta_entry_ser(es[0]) + meta_entries_ser(es.drop_first())
    }
}

/// The full serialized form: version byte, attributes, terminator.
pub open spec fn meta_ser(es: Seq<(u8, Seq<u8>)>) -> Seq<u8> {
    seq![0u8] + meta_entries_ser(es) + seq![META_TAG_END]
}

/// Parse attributes from `pos` up to and including the terminator tag.
/// Yields the attributes and the position just past the terminator.
pub open spec fn meta_entries_parse(s: Seq<u8>, pos: int) -> Option<(Seq<(u8, Seq<u8>)>, int)>
    decreases s.len() - pos
        when 0 <= pos <= s.len()
{
    if pos >= s.len() {
        None
    } else if s[pos] == 0 {
        Some((Seq::empty(), pos + 1))
    } else if pos + 3 > s.len() {
        None
    } else {
        let tag = s[pos];
        let vlen = be16_val(s.subrange(pos + 1, pos + 3)) as int;
        if pos + 3 + vlen > s.len() {
            None
        } else {
            let v = s.subrange(pos + 3, pos + 3 + vlen);
            match meta_entries_parse(s, pos + 3 + vlen) {
                None => None,
                Some((rest, end)) => Some((seq![(tag, v)] + rest, end)),
            }
        }
    }
}

/// Parse a serialized metadata blob at `pos`: version byte, attributes,
/// terminator. Yields the attributes and the position just past it.
pub open spec fn meta_parse(s: Seq<u8>, pos: int) -> Option<(Seq<(u8, Seq<u8>)>, int)> {
    if 0 <= pos < s.len() && s[pos] == 0 {
        meta_entries_parse(s, pos + 1)
    } else {
        None
    }
}

/// Parsing reads back exactly what serialization wrote, wherever the
/// serialized attributes stand inside a larger byte sequence.
pub proof fn lemma_meta_entries_roundtrip(s: Seq<u8>, pos: int, es: Seq<(u8, Seq<u8>)>)
    requires
        meta_entries_wf(es),
        0 <= pos,
        pos + meta_entries_ser(es).len() + 1 <= s.len(),
        s.subrange(pos, pos + meta_entries_ser(es).len() + 1) == meta_entries_ser(es) + seq![
            META_TAG_END,
        ],
    ensures
        meta_entries_parse(s, pos) == Some((es, pos + meta_entries_ser(es).len() + 1)),
    decreases es.len(),
{
    let ser = meta_entries_ser(es);
    let window = s.subrange(pos, pos + ser.len() + 1);
    if es.len() == 0 {
        assert(ser.len() == 0);
        assert(s[pos] == window[0]);
        assert(window[0] == 0);
    } else {
        let e = es[0];
        let head = meta_entry_ser(e);
        let tail = meta_entries_ser(es.drop_first());
        assert(ser == head + tail);
        let vlen = e.1.len() as int;
        assert(head.len() == 3 + vlen);
        // The bytes at pos spell the first attribute.
        assert(s[pos] == window[0]);
        assert(window[0] == (head + tail + seq![META_TAG_END])[0]);
        assert(s[pos] == e.0);
        assert(e.0 != 0);
        lemma_be16_roundtrip(e.1.len() as u16);
        let lenbytes = be16(e.1.len() as u16);
        assert(s.subrange(pos + 1, pos + 3) =~= lenbytes) by {
            assert(s.subrange(pos + 1, pos + 3)[0] == s[pos + 1]);
            assert(s.subrange(pos + 1, pos + 3)[1] == s[pos + 2]);
            assert(s[pos + 1] == window[1]);
            assert(s[pos + 2] == window[2]);
            assert(window[1] == head[1]);
            assert(window[2] == head[2]);
            assert(head[1] == lenbytes[0]);
            assert(head[2] == lenbytes[1]);
        }
        assert(be16_val(s.subrange(pos + 1, pos + 3)) as int == vlen);
        assert(pos + 3 + vlen <= s.len());
        assert(s.subrange(pos + 3, pos + 3 + vlen) =~= e.1) by {
            assert forall|j: int| 0 <= j < vlen implies #[trigger] s.subrange(
                pos + 3,
                pos + 3 + vlen,
            )[j] == e.1[j] by {
                assert(s.subrange(pos + 3, pos + 3 + vlen)[j] == s[pos + 3 + j]);
                assert(s[pos + 3 + j] == window[3 + j]);
                assert(window[3 + j] == head[3 + j]);
                assert(head[3 + j] == e.1[j]);
            }
        }
        // The rest of the window is the remaining attributes plus terminator.
        let pos2 = pos + head.len();
        assert(s.subrange(pos2, pos2 + tail.len() + 1) =~= tail + seq![META_TAG_END]) by {
            assert forall|j: int| 0 <= j < tail.len() + 1 implies #[trigger] s.subrange(
                pos2,
                pos2 + tail.len() + 1,
            )[j] == (tail + seq![META_TAG_END])[j] by {
                assert(s.subrange(pos2, pos2 + tail.len() + 1)[j] == s[pos2 + j]);
                assert(s[pos2 + j] == window[head.len() + j]);
                assert(window[head.len() + j] == (ser + seq![META_TAG_END])[head.len() + j]);
            }
        }
        assert(meta_entries_wf(es.drop_first())) by {
            assert(forall|i: int|
                0 <= i < es.drop_first().len() ==> #[trigger] es.drop_first()[i] == es[i + 1]);
        }
        lemma_meta_entries_roundtrip(s, pos2, es.drop_first());
        assert(seq![(e.0, e.1)] + es.drop_first() =~= es);
        assert((e.0, e.1) == e);
    }
}

/// Full round trip at the blob level.
pub proof fn lemma_meta_roundtrip(s: Seq<u8>, pos: int, es: Seq<(u8, Seq<u8>)>)
    requires
        meta_entries_wf(es),
        0 <= pos,
        pos + meta_ser(es).len() <= s.len(),
        s.subrange(pos, pos + meta_ser(es).len()) == meta_ser(es),
    ensures
        meta_parse(s, pos) == Some((es, pos + meta_ser(es).len())),
{
    let ser = meta_ser(es);
    let body = meta_entries_ser(es);
    assert(ser == seq![0u8] + body + seq![META_TAG_END]);
    assert(s[pos] == s.subrange(pos, pos + ser.len())[0]);
    assert(s.subrange(pos + 1, pos + 1 + body.len() + 1) =~= body + seq![META_TAG_END]) by {
        assert forall|j: int| 0 <= j < body.len() + 1 implies #[trigger] s.subrange(
            pos + 1,
            pos + 1 + body.len() + 1,
        )[j] == (body + seq![META_TAG_END])[j] by {
            assert(s.subrange(pos + 1, pos + 1 + body.len() + 1)[j] == s[pos + 1 + j]);
            assert(s[pos + 1 + j] == s.subrange(pos, pos + ser.len())[1 + j]);
        }
    }
    lemma_meta_entries_roundtrip(s, pos + 1, es);
}

/// What a successful parse yields serializes back to exactly the bytes it
/// consumed, and is well formed.
pub proof fn lemma_meta_entries_parse_window(s: Seq<u8>, pos: int, es: Seq<(u8, Seq<u8>)>, end: int)
    requires
        0 <= pos <= s.len(),
        meta_entries_parse(s, pos) == Some((es, end)),
    ensures
        meta_entries_wf(es),
        pos < end <= s.len(),
        meta_entries_ser(es) + seq![META_TAG_END] == s.subrange(pos, end),
    decreases s.len() - pos,
{
    if s[pos] == 0 {
        assert(es =~= Seq::<(u8, Seq<u8>)>::empty());
        assert(end == pos + 1);
        assert(meta_entries_ser(es) + seq![META_TAG_END] =~= s.subrange(pos, pos + 1));
    } else {
        let tag = s[pos];
        let vlen = be16_val(s.subrange(pos + 1, pos + 3)) as int;
        let v = s.subrange(pos + 3, pos + 3 + vlen);
        let rest_pair = meta_entries_parse(s, pos + 3 + vlen)->Some_0;
        let rest = rest_pair.0;
        assert(es == seq![(tag, v)] + rest);
        assert(end == rest_pair.1);
        lemma_meta_entries_parse_window(s, pos + 3 + vlen, rest, end);
        crate::codec::lemma_be16_inverse(s.subrange(pos + 1, pos + 3));
        assert(es[0] == (tag, v));
        assert(es.drop_first() =~= rest);
        assert(meta_entries_ser(es) == meta_entry_ser((tag, v)) + meta_entries_ser(rest));
        assert(v.len() == vlen);
        assert(be16(v.len() as u16) == s.subrange(pos + 1, pos + 3)) by {
            assert(be16_val(s.subrange(pos + 1, pos + 3)) as int == vlen);
        }
        assert(seq![tag] =~= s.subrange(pos, pos + 1));
        crate::codec::lemma_subrange_concat(s, pos, pos + 1, pos + 3);
        crate::codec::lemma_subrange_concat(s, pos, pos + 3, pos + 3 + vlen);
        crate::codec::lemma_subrange_concat(s, pos, pos + 3 + vlen, end);
        assert(meta_entry_ser((tag, v)) =~= s.subrange(pos, pos + 3 + vlen));
        assert(meta_entries_ser(es) + seq![META_TAG_END] =~= s.subrange(pos, end));
        assert(meta_entries_wf(es)) by {
            assert(forall|i: int| 1 <= i < es.len() ==> es[i] == #[trigger] rest[i - 1]);
            assert(es[0].0 != 0 && es[0].1.len() <= 0xFFFF);
        }
    }
}

/// The blob-level form of the window fact.
pub proof fn lemma_meta_parse_window(s: Seq<u8>, pos: int, es: Seq<(u8, Seq<u8>)>, end: int)
    requires
        meta_parse(s, pos) == Some((es, end)),
    ensures
        meta_entries_wf(es),
        0 <= pos < end <= s.len(),
        meta_ser(es) == s.subrange(pos, end),
{
    lemma_meta_entries_parse_window(s, pos + 1, es, end);
    assert(seq![0u8] =~= s.subrange(pos, pos + 1));
    crate::codec::lemma_subrange_concat(s, pos, pos + 1, end);
    assert(meta_ser(es) =~= s.subrange(pos, end));
}

/// Serialize metadata.
pub fn serialize_meta(m: &Metadata) -> (r: Vec<u8>)
    requires
        m.wf(),
    ensures
        r@ == meta_ser(m@),
{
    let mut buf: Vec<u8> = Vec::new();
    buf.push(0u8);
    let mut i: usize = 0;
    while i < m.entries.len()
        invariant
            i <= m.entries@.len(),
            m.wf(),
            buf@ == seq![0u8] + meta_entries_ser(m@.subrange(0, i as int)),
        decreases m.entries@.len() - i,
    {
        let (tag, ref v) = m.entries[i];
        buf.push(tag);
        push_be16(&mut buf, v.len() as u16);
        push_bytes(&mut buf, v);
        i = i + 1;
        proof {
            lemma_meta_entries_ser_snoc(m@.subrange(0, i as int));
            assert(m@.subrange(0, i as int).drop_last() =~= m@.subrange(0, i - 1));
            assert(m@.subrange(0, i as int).last() == m@[i - 1]);
            assert(buf@ =~= seq![0u8] + meta_entries_ser(m@.subrange(0, i as int)));
        }
    }
    buf.push(META_TAG_END);
    proof {
        assert(m@.subrange(0, m@.len() as int) =~= m@);
        assert(buf@ =~= meta_ser(m@));
    }
    buf
}

/// Serialization of a list of attributes, taken from the back.
pub proof fn lemma_meta_entries_ser_snoc(es: Seq<(u8, Seq<u8>)>)
    requires
        es.len() > 0,
    ensures
        meta_entries_ser(es) == meta_entries_ser(es.drop_last()) + meta_entry_ser(es.last()),
    decreases es.len(),
{
    if es.len() == 1 {
        assert(es.drop_first() =~= Seq::<(u8, Seq<u8>)>::empty());
        assert(es.drop_last() =~= Seq::<(u8, Seq<u8>)>::empty());
        assert(meta_entries_ser(es) =~= meta_entry_ser(es[0]) + meta_entries_ser(es.drop_first()));
        assert(meta_entries_ser(es) =~= meta_entries_ser(es.drop_last()) + meta_entry_ser(
            es.last(),
        ));
    } else {
        lemma_meta_entries_ser_snoc(es.drop_first());
        assert(es.drop_first().drop_last() =~= es.drop_last().drop_first());
        assert(es.drop_first().last() == es.last());
        assert(es.drop_last()[0] == es[0]);
        assert(meta_entries_ser(es) =~= meta_entries_ser(es.drop_last()) + meta_entry_ser(
            es.last(),
        ));
    }
}

/// Parse a metadata blob at `pos`. Succeeds exactly when the spec-level
/// parse does, and returns what it yields.
pub fn parse_meta(buf: &Vec<u8>, pos: usize) -> (r: Result<(Metadata, usize), StoreError>)
    ensures
        match r {
            Ok((m, end)) => meta_parse(buf@, pos as int) == Some((m@, end as int)) && m.wf() && pos
                < end <= buf@.len(),
            Err(_) => meta_parse(buf@, pos as int) is None,
        },
{
    let n = buf.len();
    if pos >= n || buf[pos] != 0 {
        return Err(StoreError::Corrupt);
    }
    let mut cur: usize = pos + 1;
    let mut entries: Vec<(u8, Vec<u8>)> = Vec::new();
    loop
        invariant
            pos < cur <= n,
            n == buf@.len(),
            meta_entries_wf(
                Seq::new(entries@.len(), |i: int| (entries@[i].0, entries@[i].1@)),
            ),
            meta_parse(buf@, pos as int) == (match meta_entries_parse(buf@, cur as int) {
                Some((rest, end)) => Some(
                    (Seq::new(entries@.len(), |i: int| (entries@[i].0, entries@[i].1@)) + rest,
                    end),
                ),
                None => None,
            }),
        decreases n - cur,
    {
        if cur >= n {
            return Err(StoreError::Corrupt);
        }
        let tag = buf[cur];
        if tag == 0 {
            let end = cur + 1;
            let m = Metadata { entries };
            proof {
                assert(meta_entries_parse(buf@, cur as int) == Some(
                    (Seq::<(u8, Seq<u8>)>::empty(), cur + 1),
                ));
                assert(m@ + Seq::<(u8, Seq<u8>)>::empty() =~= m@);
            }
            return Ok((m, end));
        }
        if n - cur < 3 {
            return Err(StoreError::Corrupt);
        }
        let vlen = read_be16(buf, cur + 1) as usize;
        if vlen > n - (cur + 3) {
            proof {
                assert(meta_entries_parse(buf@, cur as int) is None);
            }
            return Err(StoreError::Corrupt);
        }
        let v = read_bytes(buf, cur + 3, vlen);
        let ghost old_entries = entries@;
        let ghost old_cur = cur as int;
        entries.push((tag, v));
        cur = cur + 3 + vlen;
        proof {
            let evs = Seq::new(old_entries.len(), |i: int| (old_entries[i].0, old_entries[i].1@));
            let evs2 = Seq::new(entries@.len(), |i: int| (entries@[i].0, entries@[i].1@));
            assert(evs2 =~= evs + seq![(tag, v@)]);
            assert(meta_entries_parse(buf@, old_cur) == (
            match meta_entries_parse(buf@, cur as int) {
                Some((rest, end)) => Some((seq![(tag, v@)] + rest, end)),
                None => None,
            }));
            assert forall|k: int| 0 <= k < evs2.len() implies (#[trigger] evs2[k]).0 != 0
                && evs2[k].1.len() <= 0xFFFF by {
                if k < evs.len() {
                    assert(evs2[k] == evs[k]);
                } else {
                    assert(evs2[k] == (tag, v@));
                }
            }
            assert(meta_entries_wf(evs2));
            match meta_entries_parse(buf@, cur as int) {
                Some((rest, end)) => {
                    assert(evs + (seq![(tag, v@)] + rest) =~= evs2 + rest);
                },
                None => {},
            }
        }
    }
}

} // verus!
