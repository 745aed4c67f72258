use vstd::prelude::*;

use crate::codec::{be32_val, read_be32, read_bytes, push_bytes, clone_bytes};
use crate::types::StoreError;

verus! {

// Binary diffs: a run of fragments, each replacing the base bytes from
// `start` to `end` with fresh bytes. A fragment is its two 32-bit big-endian
// bounds, a 32-bit big-endian byte count, and the bytes. Fragments come in
// non-overlapping ascending order of their bounds.

/// Apply the fragments of `patch` from `pos` on, with base bytes before
/// `cursor` already emitted.
pub open spec fn apply_patch_from(base: Seq<u8>, patch: Seq<u8>, pos: int, cursor: int) -> Option<
    Seq<u8>,
>
    decreases patch.len() - pos
        when 0 <= pos <= patch.len()
{
    if pos == patch.len() {
        if 0 <= cursor <= base.len() {
            Some(base.subrange(cursor, base.len() as int))
        } else {
            None
        }
    } else if pos + 12 > patch.len() {
        None
    } else {
        let start = be32_val(patch.subrange(pos, pos + 4)) as int;
        let end = be32_val(patch.subrange(pos + 4, pos + 8)) as int;
        let dlen = be32_val(patch.subrange(pos + 8, pos + 12)) as int;
        if !(cursor <= start && start <= end && end <= base.len()) {
            None
        } else if pos + 12 + dlen > patch.len() {
            None
        } else {
            match apply_patch_from(base, patch, pos + 12 + dlen, end) {
                None => None,
                Some(rest) => Some(
                    base.subrange(cursor, start) + patch.subrange(pos + 12, pos + 12 + dlen)
                        + rest,
                ),
            }
        }
    }
}

/// Apply a whole binary diff to `base`.
pub open spec fn apply_patch(base: Seq<u8>, patch: Seq<u8>) -> Option<Seq<u8>> {
    apply_patch_from(base, patch, 0, 0)
}

/// Apply a binary diff. Succeeds exactly when the spec-level application
/// does, and returns what it yields.
pub fn apply_patch_exec(base: &Vec<u8>, patch: &Vec<u8>) -> (r: Result<Vec<u8>, StoreError>)
    ensures
        match r {
            Ok(v) => apply_patch(base@, patch@) == Some(v@),
            Err(_) => apply_patch(base@, patch@) is None,
        },
{
    let n = patch.len();
    let blen = base.len();
    let mut out: Vec<u8> = Vec::new();
    let mut pos: usize = 0;
    let mut cursor: usize = 0;
    proof {
        assert(out@ =~= Seq::<u8>::empty());
    }
    while pos < n
        invariant
            pos <= n,
            n == patch@.len(),
            blen == base@.len(),
            cursor <= blen,
            apply_patch(base@, patch@) == (match apply_patch_from(
                base@,
                patch@,
                pos as int,
                cursor as int,
            ) {
                Some(rest) => Some(out@ + rest),
                None => None,
            }),
        decreases n - pos,
    {
        if n - pos < 12 {
            return Err(StoreError::Corrupt);
        }
        let start = read_be32(patch, pos) as usize;
        let end = read_be32(patch, pos + 4) as usize;
        let dlen = read_be32(patch, pos + 8) as usize;
        if !(cursor <= start && start <= end && end <= blen) {
            return Err(StoreError::Corrupt);
        }
        if dlen > n - (pos + 12) {
            return Err(StoreError::Corrupt);
        }
        let ghost old_out = out@;
        let ghost old_pos = pos as int;
        let ghost old_cursor = cursor as int;
        let keep = read_bytes(base, cursor, start - cursor);
        push_bytes(&mut out, &keep);
        let fresh = read_bytes(patch, pos + 12, dlen);
        push_bytes(&mut out, &fresh);
        pos = pos + 12 + dlen;
        cursor = end;
        proof {
            match apply_patch_from(base@, patch@, pos as int, cursor as int) {
                Some(rest) => {
                    assert(old_out + (base@.subrange(old_cursor, start as int) + patch@.subrange(
                        old_pos + 12,
                        old_pos + 12 + dlen,
                    ) + rest) =~= out@ + rest);
                },
                None => {},
            }
        }
    }
    let tail = read_bytes(base, cursor, blen - cursor);
    push_bytes(&mut out, &tail);
    proof {
        assert(apply_patch_from(base@, patch@, pos as int, cursor as int) == Some(
            base@.subrange(cursor as int, blen as int),
        ));
    }
    Ok(out)
}

} // verus!
