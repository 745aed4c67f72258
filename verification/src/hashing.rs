use vstd::prelude::*;

use sha1::{Digest, Sha1};

verus! {

// Content digests for pack naming and index checksums, and the hexadecimal
// spelling of a digest.

/// The 20-byte SHA-1 digest of a byte sequence. The digest depends on the
/// bytes alone; its value is not stated here.
pub uninterp spec fn sha1_of(data: Seq<u8>) -> Seq<u8>;

/// Relies on sha1::Sha1 (through the digest traits): the digest is a function
/// of the input bytes alone and is always 20 bytes long.
#[verifier::external_body]
pub fn sha1_digest(data: &Vec<u8>) -> (r: Vec<u8>)
    ensures
        r@ == sha1_of(data@),
        r@.len() == 20,
{
    Sha1::digest(data.as_slice()).to_vec()
}

/// The ASCII byte of one hexadecimal digit.
pub open spec fn spec_hex_digit(n: u8) -> u8
    recommends
        n < 16,
{
    if n < 10 {
        (48 + n) as u8
    } else {
        (87 + n) as u8
    }
}

/// Two lowercase hexadecimal digits for each byte.
pub open spec fn hex_of(s: Seq<u8>) -> Seq<u8> {
    Seq::new(
        s.len() * 2,
        |i: int|
            if i % 2 == 0 {
                spec_hex_digit(s[i / 2] / 16)
            } else {
                spec_hex_digit(s[i / 2] % 16)
            },
    )
}

fn hex_digit(n: u8) -> (r: u8)
    requires
        n < 16,
    ensures
        r == spec_hex_digit(n),
{
    if n < 10 {
        48 + n
    } else {
        87 + n
    }
}

/// Spell a byte sequence as lowercase hexadecimal.
pub fn to_hex(s: &Vec<u8>) -> (r: Vec<u8>)
    ensures
        r@ == hex_of(s@),
{
    let mut out: Vec<u8> = Vec::new();
    let mut i: usize = 0;
    while i < s.len()
        invariant
            i <= s@.len(),
            out@ == hex_of(s@).subrange(0, 2 * i as int),
        decreases s@.len() - i,
    {
        let b = s[i];
        out.push(hex_digit(b / 16));
        out.push(hex_digit(b % 16));
        i = i + 1;
        proof {
            assert(out@ =~= hex_of(s@).subrange(0, 2 * i as int));
        }
    }
    proof {
        assert(hex_of(s@).subrange(0, 2 * s@.len() as int) =~= hex_of(s@));
    }
    out
}

} // verus!
