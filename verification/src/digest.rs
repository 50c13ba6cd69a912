//! Content digests: the trusted SHA-256 wrapper and the packing of a
//! 32-byte digest into a [`Link`].

use vstd::prelude::*;
use vstd::bytes::*;
use sha2::Digest;
use crate::types::Link;

verus! {

/// The SHA-256 digest of a byte string; 32 bytes, a function of the bytes
/// alone.
pub uninterp spec fn sha256_of(b: Seq<u8>) -> Seq<u8>;

/// Relies on sha2::Sha256: the digest depends on the input bytes alone and
/// is exactly 32 bytes long.
#[verifier::external_body]
fn sha256_digest(b: &Vec<u8>) -> (r: Vec<u8>)
    ensures
        r@ == sha256_of(b@),
        r@.len() == 32,
{
    sha2::Sha256::digest(b.as_slice()).to_vec()
}

/// The link denoted by a 32-byte digest: its four little-endian words.
pub open spec fn link_of_digest(d: Seq<u8>) -> Link
    recommends
        d.len() == 32,
{
    Link {
        w0: spec_u64_from_le_bytes(d.subrange(0, 8)),
        w1: spec_u64_from_le_bytes(d.subrange(8, 16)),
        w2: spec_u64_from_le_bytes(d.subrange(16, 24)),
        w3: spec_u64_from_le_bytes(d.subrange(24, 32)),
    }
}

/// The link of a block: the packed SHA-256 digest of its bytes.
pub open spec fn link_of(b: Seq<u8>) -> Link {
    link_of_digest(sha256_of(b))
}

/// Copy eight digest bytes starting at `off`.
fn take_word(d: &Vec<u8>, off: usize) -> (r: Vec<u8>)
    requires
        off <= 24,
        d@.len() == 32,
    ensures
        r@ == d@.subrange(off as int, off as int + 8),
{
    let mut out: Vec<u8> = Vec::new();
    let mut i: usize = 0;
    while i < 8
        invariant
            i <= 8,
            off <= 24,
            d@.len() == 32,
            out@ == d@.subrange(off as int, off as int + i),
        decreases 8 - i,
    {
        out.push(d[off + i]);
        proof {
            assert(out@ =~= d@.subrange(off as int, off as int + i + 1));
        }
        i = i + 1;
    }
    out
}

/// Compute the content link of a block of bytes.
pub fn digest_link(b: &Vec<u8>) -> (r: Link)
    ensures
        r == link_of(b@),
{
    let d = sha256_digest(b);
    let p0 = take_word(&d, 0);
    let p1 = take_word(&d, 8);
    let p2 = take_word(&d, 16);
    let p3 = take_word(&d, 24);
    Link {
        w0: u64_from_le_bytes(p0.as_slice()),
        w1: u64_from_le_bytes(p1.as_slice()),
        w2: u64_from_le_bytes(p2.as_slice()),
        w3: u64_from_le_bytes(p3.as_slice()),
    }
}

} // verus!
