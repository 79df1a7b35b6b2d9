//! The SHA-1 hash function (FIPS 180-4).

use vstd::arithmetic::div_mod::lemma_mod_multiples_vanish;
use vstd::prelude::*;

use crate::octets;

verus! {

/// The five words that SHA-1 carries from block to block.
#[derive(Clone, Copy, Debug, PartialEq, Eq)]
pub struct Chain {
    pub a: u32,
    pub b: u32,
    pub c: u32,
    pub d: u32,
    pub e: u32,
}

/// The words before the first block.
pub open spec fn initial() -> Chain {
    Chain { a: 0x67452301, b: 0xEFCDAB89, c: 0x98BADCFE, d: 0x10325476, e: 0xC3D2E1F0 }
}

/// `x` rotated to the left by `n` bits.
pub open spec fn rotated(x: u32, n: u32) -> u32 {
    (x << n) | (x >> ((32 - n) as u32))
}

/// The sum of two words modulo 2^32.
pub open spec fn sum(x: u32, y: u32) -> u32 {
    ((x + y) % 0x1_0000_0000) as u32
}

/// Word `t` of the message schedule of a block.
pub open spec fn schedule(block: Seq<u8>, t: int) -> u32
    decreases t,
{
    if t < 16 {
        octets::u32_at(block, 4 * t) as u32
    } else {
        rotated(
            schedule(block, t - 3) ^ schedule(block, t - 8) ^ schedule(block, t - 14) ^ schedule(
                block,
                t - 16,
            ),
            1,
        )
    }
}

/// The logical function of round `t`.
pub open spec fn mixed(t: int, b: u32, c: u32, d: u32) -> u32 {
    if t < 20 {
        (b & c) | (!b & d)
    } else if t < 40 {
        b ^ c ^ d
    } else if t < 60 {
        (b & c) | (b & d) | (c & d)
    } else {
        b ^ c ^ d
    }
}

/// The constant of round `t`.
pub open spec fn round_constant(t: int) -> u32 {
    if t < 20 {
        0x5A827999
    } else if t < 40 {
        0x6ED9EBA1
    } else if t < 60 {
        0x8F1BBCDC
    } else {
        0xCA62C1D6
    }
}

/// Round `t` with the schedule's word `w`.
pub open spec fn stepped(h: Chain, t: int, w: u32) -> Chain {
    Chain {
        a: sum(
            sum(sum(sum(rotated(h.a, 5), mixed(t, h.b, h.c, h.d)), h.e), round_constant(t)),
            w,
        ),
        b: h.a,
        c: rotated(h.b, 30),
        d: h.c,
        e: h.d,
    }
}

/// The first `t` rounds of a block.
pub open spec fn rounds(h: Chain, block: Seq<u8>, t: int) -> Chain
    decreases t,
{
    if t <= 0 {
        h
    } else {
        stepped(rounds(h, block, t - 1), t - 1, schedule(block, t - 1))
    }
}

/// The chain after one more block of 64 bytes.
#[verifier::opaque]
pub open spec fn compressed(h: Chain, block: Seq<u8>) -> Chain {
    let r = rounds(h, block, 80);
    Chain {
        a: sum(h.a, r.a),
        b: sum(h.b, r.b),
        c: sum(h.c, r.c),
        d: sum(h.d, r.d),
        e: sum(h.e, r.e),
    }
}

/// The chain after the first `n` blocks of `data`.
pub open spec fn absorbed(h: Chain, data: Seq<u8>, n: int) -> Chain
    decreases n,
{
    if n <= 0 {
        h
    } else {
        compressed(absorbed(h, data, n - 1), data.subrange(64 * (n - 1), 64 * n))
    }
}

/// What follows a message of `len` bytes: a one bit, zeros up to eight bytes before the end of a
/// block, and the length in bits, modulo 2^64.
#[verifier::opaque]
pub open spec fn padding(len: int) -> Seq<u8> {
    seq![0x80u8] + octets::zeros(((55 - len) % 64) as nat) + octets::u64_bytes(
        (8 * len) % 0x1_0000_0000_0000_0000,
    )
}

/// The bytes of the five words.
pub open spec fn chain_bytes(h: Chain) -> Seq<u8> {
    octets::u32_bytes(h.a as int) + octets::u32_bytes(h.b as int) + octets::u32_bytes(h.c as int)
        + octets::u32_bytes(h.d as int) + octets::u32_bytes(h.e as int)
}

/// The digest of a message whose last bytes are `data`, where `h` is the chain after the `before`
/// bytes that precede them.
pub open spec fn digest_from(h: Chain, before: int, data: Seq<u8>) -> Seq<u8> {
    let padded = data + padding(before + data.len());
    chain_bytes(absorbed(h, padded, padded.len() as int / 64))
}

/// The SHA-1 digest of `data`.
pub open spec fn digest(data: Seq<u8>) -> Seq<u8> {
    digest_from(initial(), 0, data)
}

/// How many zeros fill the last block.
proof fn lemma_gap(before: int, len: int)
    requires
        before % 64 == 0,
    ensures
        (55 - (before + len)) % 64 == (55 - len) % 64,
        (len + 9 + (55 - len) % 64) % 64 == 0,
{
    let x = 55 - len;
    let q = before / 64;
    assert(before == 64 * q);
    lemma_mod_multiples_vanish(-q, x, 64);
    assert(55 - (before + len) == 64 * (-q) + x);
    let k = x / 64;
    assert(x == 64 * k + x % 64);
    lemma_mod_multiples_vanish(1 - k, 0, 64);
    assert(len + 9 + x % 64 == 64 * (1 - k) + 0);
}

/// The blocks of a message are its first blocks and those that follow.
proof fn lemma_blocks(total: int, first: int)
    requires
        total % 64 == 0,
        0 <= 64 * first <= total,
    ensures
        (total - 64 * first) % 64 == 0,
        total / 64 == first + (total - 64 * first) / 64,
{
    let n = total / 64;
    assert(total == 64 * n);
    assert(total - 64 * first == 64 * (n - first));
}

/// The padding fills the last block.
pub proof fn lemma_padding_len(before: int, len: int)
    requires
        before % 64 == 0,
        0 <= len,
        0 <= before,
    ensures
        (len + padding(before + len).len()) % 64 == 0,
        padding(before + len).len() == 9 + (55 - len) % 64,
{
    broadcast use octets::lemma_u64_bytes_len;

    reveal(padding);
    lemma_gap(before, len);
}

/// The chain after `n` blocks depends on those blocks alone.
pub proof fn lemma_absorbed_prefix(h: Chain, x: Seq<u8>, y: Seq<u8>, n: int)
    requires
        0 <= n,
        64 * n <= x.len(),
        64 * n <= y.len(),
        x.subrange(0, 64 * n) == y.subrange(0, 64 * n),
    ensures
        absorbed(h, x, n) == absorbed(h, y, n),
    decreases n,
{
    if n > 0 {
        assert forall|i: int| 0 <= i < 64 * n implies x[i] == y[i] by {
            assert(x.subrange(0, 64 * n)[i] == x[i]);
            assert(y.subrange(0, 64 * n)[i] == y[i]);
        }
        assert(x.subrange(0, 64 * (n - 1)) =~= y.subrange(0, 64 * (n - 1)));
        assert(x.subrange(64 * (n - 1), 64 * n) =~= y.subrange(64 * (n - 1), 64 * n));
        lemma_absorbed_prefix(h, x, y, n - 1);
    }
}

/// Absorbing a block and then the rest is absorbing both in one go.
pub proof fn lemma_absorbed_split(h: Chain, x: Seq<u8>, y: Seq<u8>, k: int, n: int)
    requires
        0 <= k,
        0 <= n,
        x.len() == 64 * k,
        64 * n <= y.len(),
    ensures
        absorbed(h, x + y, k + n) == absorbed(absorbed(h, x, k), y, n),
    decreases n,
{
    if n == 0 {
        assert((x + y).subrange(0, 64 * k) =~= x.subrange(0, 64 * k));
        lemma_absorbed_prefix(h, x + y, x, k);
    } else {
        lemma_absorbed_split(h, x, y, k, n - 1);
        assert((x + y).subrange(64 * (k + n - 1), 64 * (k + n)) =~= y.subrange(
            64 * (n - 1),
            64 * n,
        ));
    }
}

/// Hashing may start with the chain that a first block leaves.
pub proof fn lemma_digest_after_block(block: Seq<u8>, data: Seq<u8>)
    requires
        block.len() == 64,
    ensures
        digest(block + data) == digest_from(compressed(initial(), block), 64, data),
{
    let pad = padding(64 + data.len() as int);
    let n = (data + pad).len() / 64;
    assert((block + data) + padding((block + data).len() as int) =~= block + (data + pad));
    lemma_padding_len(64, data.len() as int);
    lemma_absorbed_split(initial(), block, data + pad, 1, n as int);
    assert(block.subrange(0, 64) =~= block);
    reveal_with_fuel(absorbed, 2);
}

/// Hashing may take in the first blocks before the padding is known.
proof fn lemma_digest_in_two(h: Chain, before: int, data: Seq<u8>, blocks: int)
    requires
        before % 64 == 0,
        0 <= before,
        0 <= 64 * blocks <= data.len(),
        0 <= blocks,
    ensures
        ({
            let tail = data.subrange(64 * blocks, data.len() as int) + padding(
                before + data.len() as int,
            );
            digest_from(h, before, data) == chain_bytes(
                absorbed(absorbed(h, data, blocks), tail, tail.len() as int / 64),
            )
        }),
{
    let pad = padding(before + data.len() as int);
    let head = data.subrange(0, 64 * blocks);
    let tail = data.subrange(64 * blocks, data.len() as int) + pad;
    lemma_padding_len(before, data.len() as int);
    lemma_blocks((data + pad).len() as int, blocks);
    assert(head.subrange(0, 64 * blocks) =~= head);
    lemma_absorbed_prefix(h, data, head, blocks);
    lemma_absorbed_split(h, head, tail, blocks, tail.len() as int / 64);
    assert(data + pad =~= head + tail);
}

/// A digest has twenty bytes.
pub proof fn lemma_digest_len(h: Chain, before: int, data: Seq<u8>)
    ensures
        digest_from(h, before, data).len() == 20,
{
    broadcast use octets::lemma_u32_bytes_len;

}

/// Computes [`rotated`].
fn rotate(x: u32, n: u32) -> (r: u32)
    requires
        0 < n < 32,
    ensures
        r == rotated(x, n),
{
    (x << n) | (x >> (32 - n))
}

/// Computes [`sum`].
fn wrapping_sum(x: u32, y: u32) -> (r: u32)
    ensures
        r == sum(x, y),
{
    ((x as u64 + y as u64) % 0x1_0000_0000) as u32
}

/// Computes the eighty words of [`schedule`].
fn expand(block: &[u8]) -> (w: Vec<u32>)
    requires
        block@.len() == 64,
    ensures
        w@.len() == 80,
        forall|t: int| 0 <= t < 80 ==> #[trigger] w@[t] == schedule(block@, t),
{
    let mut w: Vec<u32> = Vec::new();
    let mut t: usize = 0;
    while t < 16
        invariant
            t <= 16,
            block@.len() == 64,
            w@.len() == t,
            forall|u: int| 0 <= u < t ==> #[trigger] w@[u] == schedule(block@, u),
        decreases 16 - t,
    {
        w.push(octets::read_u32(block, 4 * t));
        t = t + 1;
    }
    while t < 80
        invariant
            16 <= t <= 80,
            w@.len() == t,
            forall|u: int| 0 <= u < t ==> #[trigger] w@[u] == schedule(block@, u),
        decreases 80 - t,
    {
        let x: u32 = w[t - 3] ^ w[t - 8] ^ w[t - 14] ^ w[t - 16];
        w.push(rotate(x, 1));
        t = t + 1;
    }
    w
}

/// Computes [`mixed`].
fn mix(t: usize, b: u32, c: u32, d: u32) -> (r: u32)
    ensures
        r == mixed(t as int, b, c, d),
{
    if t < 20 {
        (b & c) | (!b & d)
    } else if t < 40 {
        b ^ c ^ d
    } else if t < 60 {
        (b & c) | (b & d) | (c & d)
    } else {
        b ^ c ^ d
    }
}

/// Computes [`round_constant`].
fn constant_of_round(t: usize) -> (r: u32)
    ensures
        r == round_constant(t as int),
{
    if t < 20 {
        0x5A827999
    } else if t < 40 {
        0x6ED9EBA1
    } else if t < 60 {
        0x8F1BBCDC
    } else {
        0xCA62C1D6
    }
}

/// The chain before the first block.
pub fn start() -> (h: Chain)
    ensures
        h == initial(),
{
    Chain { a: 0x67452301, b: 0xEFCDAB89, c: 0x98BADCFE, d: 0x10325476, e: 0xC3D2E1F0 }
}

/// Takes in one block.
pub fn compress(h: Chain, block: &[u8]) -> (r: Chain)
    requires
        block@.len() == 64,
    ensures
        r == compressed(h, block@),
{
    proof {
        reveal(compressed);
    }
    let w: Vec<u32> = expand(block);
    let mut s: Chain = h;
    let mut t: usize = 0;
    while t < 80
        invariant
            t <= 80,
            w@.len() == 80,
            forall|u: int| 0 <= u < 80 ==> #[trigger] w@[u] == schedule(block@, u),
            s == rounds(h, block@, t as int),
        decreases 80 - t,
    {
        let f: u32 = wrapping_sum(rotate(s.a, 5), mix(t, s.b, s.c, s.d));
        let a: u32 = wrapping_sum(
            wrapping_sum(wrapping_sum(f, s.e), constant_of_round(t)),
            w[t],
        );
        s = Chain { a, b: s.a, c: rotate(s.b, 30), d: s.c, e: s.d };
        t = t + 1;
    }
    Chain {
        a: wrapping_sum(h.a, s.a),
        b: wrapping_sum(h.b, s.b),
        c: wrapping_sum(h.c, s.c),
        d: wrapping_sum(h.d, s.d),
        e: wrapping_sum(h.e, s.e),
    }
}

/// Computes [`chain_bytes`].
fn chain_to_bytes(h: Chain) -> (r: [u8; 20])
    ensures
        r@ == chain_bytes(h),
{
    let a: [u8; 4] = octets::u32_to_bytes(h.a);
    let b: [u8; 4] = octets::u32_to_bytes(h.b);
    let c: [u8; 4] = octets::u32_to_bytes(h.c);
    let d: [u8; 4] = octets::u32_to_bytes(h.d);
    let e: [u8; 4] = octets::u32_to_bytes(h.e);
    let r: [u8; 20] = [
        a[0], a[1], a[2], a[3], b[0], b[1], b[2], b[3], c[0], c[1], c[2], c[3], d[0], d[1], d[2],
        d[3], e[0], e[1], e[2], e[3],
    ];
    assert(r@ =~= a@ + b@ + c@ + d@ + e@);
    r
}

/// Takes in the first `n` blocks of `data`.
fn absorb(h: Chain, data: &[u8], n: usize) -> (r: Chain)
    requires
        64 * n <= data.len(),
    ensures
        r == absorbed(h, data@, n as int),
{
    let mut s: Chain = h;
    let mut i: usize = 0;
    while i < n
        invariant
            i <= n,
            64 * n <= data.len(),
            s == absorbed(h, data@, i as int),
        decreases n - i,
    {
        s = compress(s, &data[64 * i..64 * i + 64]);
        i = i + 1;
    }
    s
}

/// The number of zeros behind a last block of `rest` bytes and a one bit.
fn gap_after(rest: usize) -> (r: usize)
    requires
        rest < 64,
    ensures
        r == (55 - rest) % 64,
{
    if rest < 56 {
        55 - rest
    } else {
        119 - rest
    }
}

/// The bytes of `data` from `used` on, followed by the padding of a message of
/// `before + data.len()` bytes.
fn pad_tail(before: usize, data: &[u8], used: usize) -> (tail: Vec<u8>)
    requires
        before == 0 || before == 64,
        used % 64 == 0,
        used <= data@.len() < used + 64,
    ensures
        tail@ == data@.subrange(used as int, data@.len() as int) + padding(before + data@.len()),
{
    let mut tail: Vec<u8> = Vec::new();
    octets::append(&mut tail, &data[used..data.len()]);
    tail.push(0x80);
    octets::append_zeros(&mut tail, gap_after(data.len() - used));
    let bits: u128 = (before as u128 + data.len() as u128) * 8;
    octets::append(&mut tail, &octets::u64_to_bytes((bits % 0x1_0000_0000_0000_0000) as u64));
    proof {
        reveal(padding);
        lemma_gap(before + used, data@.len() - used);
    }
    assert(tail@ =~= data@.subrange(used as int, data@.len() as int) + padding(
        before + data@.len(),
    ));
    tail
}

/// Hashes the last bytes of a message: `h` is the chain after the `before` bytes that precede
/// them.
pub fn finish(h: Chain, before: usize, data: &[u8]) -> (r: [u8; 20])
    requires
        before == 0 || before == 64,
    ensures
        r@ == digest_from(h, before as int, data@),
{
    let blocks: usize = data.len() / 64;
    let used: usize = 64 * blocks;
    let s: Chain = absorb(h, data, blocks);
    let tail: Vec<u8> = pad_tail(before, data, used);
    let n: usize = tail.len() / 64;
    let r: Chain = absorb(s, &tail, n);
    proof {
        lemma_digest_in_two(h, before as int, data@, blocks as int);
    }
    chain_to_bytes(r)
}

/// Computes the SHA-1 digest of `data`.
pub fn sha1(data: &[u8]) -> (r: [u8; 20])
    ensures
        r@ == digest(data@),
{
    finish(start(), 0, data)
}

} // verus!
