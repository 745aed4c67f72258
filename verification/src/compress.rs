use vstd::prelude::*;

verus! {

// LZ4 payload compression for the rotating log. The compressed form carries
// the uncompressed size in its leading four bytes, so a payload decompresses
// without any outside length hint — and, for the same reason, a payload of
// 2^32 bytes or more does not survive the framing: its block's header is
// truncated and no longer names the payload's length.

/// The LZ4 block (with prepended size) that lz4_flex produces for a byte
/// sequence. The result depends on the input bytes alone.
pub uninterp spec fn lz4_block_of(data: Seq<u8>) -> Seq<u8>;

/// What lz4_flex's decompressor yields for a block: the payload when the
/// block decompresses, nothing otherwise. The result depends on the block
/// bytes alone.
pub uninterp spec fn lz4_unblock(data: Seq<u8>) -> Option<Seq<u8>>;

/// Relies on lz4_flex::compress_prepend_size: a deterministic compressor
/// whose output carries the low 32 bits of the payload length as its header.
#[verifier::external_body]
pub fn lz4_compress(data: &Vec<u8>) -> (r: Vec<u8>)
    ensures
        r@ == lz4_block_of(data@),
{
    lz4_flex::compress_prepend_size(data.as_slice())
}

/// Relies on lz4_flex::decompress_size_prepended: a pure function of the
/// block bytes; a block that compress_prepend_size produced from a payload
/// shorter than 2^32 bytes decompresses back to that payload, and a
/// malformed block is reported, never a wrong answer for a well-formed one.
#[verifier::external_body]
pub fn lz4_decompress(data: &Vec<u8>) -> (r: Option<Vec<u8>>)
    ensures
        r matches Some(d) ==> lz4_unblock(data@) == Some(d@),
        r is None ==> lz4_unblock(data@) is None,
        forall|s: Seq<u8>|
            (s.len() < 0x1_0000_0000 && data@ == lz4_block_of(s)) ==> r is Some,
        forall|s: Seq<u8>|
            (s.len() < 0x1_0000_0000 && data@ == lz4_block_of(s) && r is Some) ==> r->Some_0@
                == s,
{
    lz4_flex::decompress_size_prepended(data.as_slice()).ok()
}

} // verus!
