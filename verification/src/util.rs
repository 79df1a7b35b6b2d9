//! Keyed hashing: HMAC (RFC 2104) with SHA-1.

use vstd::prelude::*;

use crate::octets;
use crate::sha1;

verus! {

/// The key as one block: hashed first where it is longer than that, and filled up with zeros.
pub open spec fn key_block(key: Seq<u8>) -> Seq<u8> {
    let k = if key.len() > 64 {
        sha1::digest(key)
    } else {
        key
    };
    k + octets::zeros((64 - k.len()) as nat)
}

/// Each byte of `block` combined with `mask` by exclusive or.
pub open spec fn masked(block: Seq<u8>, mask: u8) -> Seq<u8> {
    Seq::new(block.len(), |i: int| block[i] ^ mask)
}

/// The HMAC-SHA1 of `data` under `key`.
#[verifier::opaque]
pub open spec fn hmac_sha1_of(key: Seq<u8>, data: Seq<u8>) -> Seq<u8> {
    let k = key_block(key);
    sha1::digest(masked(k, 0x5c) + sha1::digest(masked(k, 0x36) + data))
}

/// An HMAC-SHA1 has twenty bytes.
pub proof fn lemma_hmac_sha1_len(key: Seq<u8>, data: Seq<u8>)
    ensures
        hmac_sha1_of(key, data).len() == 20,
{
    reveal(hmac_sha1_of);
    sha1::lemma_digest_len(
        sha1::initial(),
        0,
        masked(key_block(key), 0x5c) + sha1::digest(masked(key_block(key), 0x36) + data),
    );
}

/// Computes [`key_block`].
fn expand_key(key: &[u8]) -> (r: Vec<u8>)
    ensures
        r@ == key_block(key@),
        r@.len() == 64,
{
    let mut r: Vec<u8> = Vec::new();
    if key.len() > 64 {
        octets::append(&mut r, &sha1::sha1(key));
        proof {
            sha1::lemma_digest_len(sha1::initial(), 0, key@);
        }
    } else {
        octets::append(&mut r, key);
    }
    let gap: usize = 64 - r.len();
    octets::append_zeros(&mut r, gap);
    assert(r@ =~= key_block(key@));
    r
}

/// Computes [`masked`].
fn mask_block(block: &[u8], mask: u8) -> (r: Vec<u8>)
    ensures
        r@ == masked(block@, mask),
{
    let mut r: Vec<u8> = Vec::new();
    let mut i: usize = 0;
    while i < block.len()
        invariant
            i <= block@.len(),
            r@.len() == i,
            forall|j: int| 0 <= j < i ==> r@[j] == block@[j] ^ mask,
        decreases block@.len() - i,
    {
        r.push(block[i] ^ mask);
        i = i + 1;
    }
    assert(r@ =~= masked(block@, mask));
    r
}

/// Computes the HMAC-SHA1 of `data` under `key`.
pub fn hmac_sha1(key: &[u8], data: &[u8]) -> (r: [u8; 20])
    ensures
        r@ == hmac_sha1_of(key@, data@),
{
    let k: Vec<u8> = expand_key(key);
    let inner_key: Vec<u8> = mask_block(&k, 0x36);
    let outer_key: Vec<u8> = mask_block(&k, 0x5c);
    let inner: [u8; 20] = sha1::finish(sha1::compress(sha1::start(), &inner_key), 64, data);
    let r: [u8; 20] = sha1::finish(sha1::compress(sha1::start(), &outer_key), 64, &inner);
    proof {
        reveal(hmac_sha1_of);
        sha1::lemma_digest_after_block(inner_key@, data@);
        sha1::lemma_digest_after_block(outer_key@, inner@);
    }
    r
}

} // verus!
