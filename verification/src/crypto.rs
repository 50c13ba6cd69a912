//! The encryption layer: node payloads are XORed with an XChaCha20
//! keystream derived from the secrets and the tree's nonce. Sealing is an
//! involution, which is what decryption relies on.

use vstd::prelude::*;
use chacha20::cipher::{KeyIvInit, StreamCipher};
use crate::types::Secrets;

verus! {

/// Longest payload the sealing layer accepts (well below the XChaCha20
/// keystream limit).
pub const SEAL_MAX: usize = 0x4000_0000;

/// The XChaCha20 keystream for a 32-byte key and a 24-byte nonce, as a
/// function of key, nonce and length alone.
pub uninterp spec fn keystream_of(key: Seq<u8>, nonce: Seq<u8>, len: nat) -> Seq<u8>;

/// Relies on chacha20::XChaCha20: applying the cipher to zeros yields the
/// keystream, which depends on key and nonce alone and is as long as
/// requested.
#[verifier::external_body]
fn keystream(key: &Vec<u8>, nonce: &Vec<u8>, len: usize) -> (r: Vec<u8>)
    requires
        key@.len() == 32,
        nonce@.len() == 24,
        len <= SEAL_MAX,
    ensures
        r@ == keystream_of(key@, nonce@, len as nat),
        r@.len() == len,
{
    let mut buf = vec![0u8; len];
    let mut cipher = chacha20::XChaCha20::new(
        chacha20::Key::from_slice(key.as_slice()),
        chacha20::XNonce::from_slice(nonce.as_slice()),
    );
    cipher.apply_keystream(&mut buf);
    buf
}

/// Bytewise XOR of `a` against a pad, padded with zeros past the pad's end.
pub open spec fn xor_seq(a: Seq<u8>, k: Seq<u8>) -> Seq<u8> {
    Seq::new(a.len(), |i: int| a[i] ^ (if i < k.len() { k[i] } else { 0u8 }))
}

/// The sealed (or unsealed: the operation is its own inverse) form of a
/// payload under a key and nonce.
pub open spec fn spec_seal(key: Seq<u8>, nonce: Seq<u8>, data: Seq<u8>) -> Seq<u8> {
    xor_seq(data, keystream_of(key, nonce, data.len()))
}

proof fn lemma_xor_cancel(a: u8, b: u8)
    ensures
        (a ^ b) ^ b == a,
{
    assert((a ^ b) ^ b == a) by (bit_vector);
}

/// Sealing twice with the same key and nonce gives the payload back.
pub proof fn lemma_seal_involution(key: Seq<u8>, nonce: Seq<u8>, data: Seq<u8>)
    ensures
        spec_seal(key, nonce, spec_seal(key, nonce, data)) == data,
{
    let once = spec_seal(key, nonce, data);
    let twice = spec_seal(key, nonce, once);
    assert forall|i: int| 0 <= i < data.len() implies twice[i] == data[i] by {
        let k = keystream_of(key, nonce, data.len());
        let pad = if i < k.len() {
            k[i]
        } else {
            0u8
        };
        lemma_xor_cancel(data[i], pad);
    }
    assert(twice =~= data);
}

/// Sealing is injective for a fixed key and nonce.
pub proof fn lemma_seal_injective(key: Seq<u8>, nonce: Seq<u8>, a: Seq<u8>, b: Seq<u8>)
    requires
        spec_seal(key, nonce, a) == spec_seal(key, nonce, b),
    ensures
        a == b,
{
    lemma_seal_involution(key, nonce, a);
    lemma_seal_involution(key, nonce, b);
}

/// Seal (or unseal) a payload with the given secrets and nonce.
pub fn seal_bytes(secrets: &Secrets, nonce: &Vec<u8>, data: &Vec<u8>) -> (r: Vec<u8>)
    requires
        secrets.wf(),
        nonce@.len() == 24,
        data@.len() <= SEAL_MAX,
    ensures
        r@ == spec_seal(secrets.key@, nonce@, data@),
{
    let ks = keystream(&secrets.key, nonce, data.len());
    let mut out: Vec<u8> = Vec::new();
    let mut i: usize = 0;
    while i < data.len()
        invariant
            i <= data@.len(),
            ks@ == keystream_of(secrets.key@, nonce@, data@.len()),
            ks@.len() == data@.len(),
            out@.len() == i,
            forall|j: int|
                0 <= j < i ==> out@[j] == spec_seal(secrets.key@, nonce@, data@)[j],
        decreases data@.len() - i,
    {
        out.push(data[i] ^ ks[i]);
        i = i + 1;
    }
    proof {
        assert(out@ =~= spec_seal(secrets.key@, nonce@, data@));
    }
    out
}

} // verus!
