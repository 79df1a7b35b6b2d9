//! What bytes, digests and keyed digests are.

use vstd::arithmetic::div_mod::lemma_mod_multiples_vanish;
use vstd::prelude::*;

use crate::octets;
use crate::outside;
use crate::sha1;
use crate::sha1::Chain;
use crate::util;

verus! {

/// The bytes of an integer are its digits to the base 256, most significant first.
pub proof fn law_u16_bytes(n: int)
    ensures
        octets::u16_bytes(n).len() == 2,
        octets::u16_bytes(n)[0] * 0x100 + octets::u16_bytes(n)[1] == n % 0x1_0000,
{
    octets::lemma_u16_bytes_low(n);
    octets::lemma_u16_round_trip(n % 0x1_0000);
}

/// The bytes of an integer of 32 bits are its digits to the base 256, most significant first.
pub proof fn law_u32_bytes(n: int)
    requires
        0 <= n < 0x1_0000_0000,
    ensures
        octets::u32_bytes(n).len() == 4,
        octets::u32_bytes(n)[0] * 0x100_0000 + octets::u32_bytes(n)[1] * 0x1_0000
            + octets::u32_bytes(n)[2] * 0x100 + octets::u32_bytes(n)[3] == n,
{
    octets::lemma_u32_bytes_len(n);
    octets::lemma_u32_round_trip(n);
}

/// The bytes of an integer of 64 bits are those of its upper and of its lower half.
pub proof fn law_u64_bytes(n: int)
    requires
        0 <= n < 0x1_0000_0000_0000_0000,
    ensures
        octets::u64_bytes(n).len() == 8,
        octets::u64_bytes(n).take(4) == octets::u32_bytes(n / 0x1_0000_0000),
        octets::u64_bytes(n).skip(4) == octets::u32_bytes(n % 0x1_0000_0000),
{
    octets::lemma_u64_bytes_len(n);
    octets::lemma_u32_bytes_len(n / 0x1_0000_0000);
    octets::lemma_u32_bytes_len(n);
    octets::lemma_u32_bytes_low(n);
    reveal(octets::u64_bytes);
    assert(octets::u64_bytes(n).take(4) =~= octets::u32_bytes(n / 0x1_0000_0000));
    assert(octets::u64_bytes(n).skip(4) =~= octets::u32_bytes(n));
}

/// An integer is read from its digits to the base 256, most significant first.
pub proof fn law_integers_read(s: Seq<u8>, i: int)
    ensures
        octets::u16_at(s, i) == s[i] * 0x100 + s[i + 1],
        octets::u32_at(s, i) == s[i] * 0x100_0000 + s[i + 1] * 0x1_0000 + s[i + 2] * 0x100 + s[i
            + 3],
        octets::u64_at(s, i) == octets::u32_at(s, i) * 0x1_0000_0000 + octets::u32_at(s, i + 4),
{
}

/// Zero bytes are zero.
pub proof fn law_zeros(n: nat)
    ensures
        octets::zeros(n).len() == n,
        forall|i: int| 0 <= i < n ==> octets::zeros(n)[i] == 0,
{
}

/// Overwriting keeps the length and every byte outside of what is overwritten.
pub proof fn law_splice(s: Seq<u8>, at: int, new: Seq<u8>)
    requires
        0 <= at,
        at + new.len() <= s.len(),
    ensures
        octets::splice(s, at, new).len() == s.len(),
        octets::splice(s, at, new).subrange(at, at + new.len() as int) == new,
        forall|i: int|
            0 <= i < s.len() && !(at <= i < at + new.len()) ==> octets::splice(s, at, new)[i]
                == s[i],
{
    assert(octets::splice(s, at, new).subrange(at, at + new.len() as int) =~= new);
}

/// The message schedule of SHA-1: the sixteen words of the block, and then words that come of four
/// earlier ones.
pub proof fn law_schedule(block: Seq<u8>, t: int)
    requires
        block.len() == 64,
        0 <= t < 80,
    ensures
        t < 16 ==> sha1::schedule(block, t) == block[4 * t] * 0x100_0000 + block[4 * t + 1]
            * 0x1_0000 + block[4 * t + 2] * 0x100 + block[4 * t + 3],
        t >= 16 ==> ({
            let x = sha1::schedule(block, t - 3) ^ sha1::schedule(block, t - 8) ^ sha1::schedule(
                block,
                t - 14,
            ) ^ sha1::schedule(block, t - 16);
            sha1::schedule(block, t) == (x << 1) | (x >> 31)
        }),
{
}

/// The function and the constant of a round of SHA-1.
pub proof fn law_round_function(t: int, b: u32, c: u32, d: u32)
    requires
        0 <= t < 80,
    ensures
        t < 20 ==> sha1::mixed(t, b, c, d) == d ^ (b & (c ^ d)),
        20 <= t < 40 || 60 <= t ==> sha1::mixed(t, b, c, d) == b ^ c ^ d,
        40 <= t < 60 ==> sha1::mixed(t, b, c, d) == (b & c) ^ (b & d) ^ (c & d),
        t < 20 ==> sha1::round_constant(t) == 0x5A827999,
        20 <= t < 40 ==> sha1::round_constant(t) == 0x6ED9EBA1,
        40 <= t < 60 ==> sha1::round_constant(t) == 0x8F1BBCDC,
        60 <= t ==> sha1::round_constant(t) == 0xCA62C1D6,
{
    assert((b & c) | (!b & d) == d ^ (b & (c ^ d))) by (bit_vector);
    assert((b & c) | (b & d) | (c & d) == (b & c) ^ (b & d) ^ (c & d)) by (bit_vector);
}

/// A word is added to a sum modulo 2^32.
proof fn lemma_sum(n: int, x: u32, y: u32)
    requires
        x == n % 0x1_0000_0000,
    ensures
        sha1::sum(x, y) == (n + y) % 0x1_0000_0000,
{
    let q = n / 0x1_0000_0000;
    assert(n == 0x1_0000_0000 * q + x);
    lemma_mod_multiples_vanish(q, x + y, 0x1_0000_0000);
}

/// A sum of five words, taken step by step.
proof fn lemma_sums(a: u32, b: u32, c: u32, d: u32, e: u32)
    ensures
        sha1::sum(sha1::sum(sha1::sum(sha1::sum(a, b), c), d), e) == (a + b + c + d + e)
            % 0x1_0000_0000,
{
    let x = sha1::sum(a, b);
    let y = sha1::sum(x, c);
    let z = sha1::sum(y, d);
    lemma_sum(a as int, a, b);
    lemma_sum(a + b, x, c);
    lemma_sum(a + b + c, y, d);
    lemma_sum(a + b + c + d, z, e);
}

/// A round of SHA-1: one new word, a sum modulo 2^32, and four that move on.
pub proof fn law_round(h: Chain, block: Seq<u8>, t: int)
    requires
        0 <= t < 80,
    ensures
        sha1::rounds(h, block, 0) == h,
        ({
            let s = sha1::rounds(h, block, t);
            let r = sha1::rounds(h, block, t + 1);
            &&& r.a == (((s.a << 5) | (s.a >> 27)) + sha1::mixed(t, s.b, s.c, s.d) + s.e
                + sha1::round_constant(t) + sha1::schedule(block, t)) % 0x1_0000_0000
            &&& r.b == s.a
            &&& r.c == (s.b << 30) | (s.b >> 2)
            &&& r.d == s.c
            &&& r.e == s.d
        }),
{
    let s = sha1::rounds(h, block, t);
    lemma_sums(
        sha1::rotated(s.a, 5),
        sha1::mixed(t, s.b, s.c, s.d),
        s.e,
        sha1::round_constant(t),
        sha1::schedule(block, t),
    );
    assert(sha1::rounds(h, block, t + 1) == sha1::stepped(s, t, sha1::schedule(block, t)));
}

/// A block is taken in by eighty rounds, whose outcome is added modulo 2^32.
pub proof fn law_block(h: Chain, block: Seq<u8>)
    ensures
        ({
            let r = sha1::rounds(h, block, 80);
            let c = sha1::compressed(h, block);
            &&& c.a == (h.a + r.a) % 0x1_0000_0000
            &&& c.b == (h.b + r.b) % 0x1_0000_0000
            &&& c.c == (h.c + r.c) % 0x1_0000_0000
            &&& c.d == (h.d + r.d) % 0x1_0000_0000
            &&& c.e == (h.e + r.e) % 0x1_0000_0000
        }),
{
    reveal(sha1::compressed);
}

/// Blocks are taken in one after the other.
pub proof fn law_blocks(h: Chain, data: Seq<u8>, n: int)
    requires
        0 <= n,
    ensures
        sha1::absorbed(h, data, 0) == h,
        sha1::absorbed(h, data, n + 1) == sha1::compressed(
            sha1::absorbed(h, data, n),
            data.subrange(64 * n, 64 * n + 64),
        ),
{
}

/// A message is hashed by taking in all of its bytes, a one bit, the zeros that fill up the last
/// block, and its length in bits. The first `before` bytes may have been taken in before.
pub proof fn law_digest_from(h: Chain, before: int, data: Seq<u8>, gap: int)
    requires
        0 <= before,
        before % 64 == 0,
        0 <= gap < 64,
        (data.len() + gap + 9) % 64 == 0,
    ensures
        ({
            let bits = (8 * (before + data.len())) % 0x1_0000_0000_0000_0000;
            let all = data + seq![0x80u8] + octets::zeros(gap as nat) + octets::u64_bytes(bits);
            let c = sha1::absorbed(h, all, all.len() as int / 64);
            &&& all.len() % 64 == 0
            &&& sha1::digest_from(h, before, data) == octets::u32_bytes(c.a as int)
                + octets::u32_bytes(c.b as int) + octets::u32_bytes(c.c as int) + octets::u32_bytes(
                c.d as int,
            ) + octets::u32_bytes(c.e as int)
        }),
{
    let bits = (8 * (before + data.len())) % 0x1_0000_0000_0000_0000;
    octets::lemma_u64_bytes_len(bits);
    sha1::lemma_padding_len(before, data.len() as int);
    reveal(sha1::padding);
    let all = data + seq![0x80u8] + octets::zeros(gap as nat) + octets::u64_bytes(bits);
    assert(sha1::padding(before + data.len() as int).len() == 9 + gap);
    assert(data + sha1::padding(before + data.len()) =~= all);
}

/// A digest starts from five given words.
pub proof fn law_digest(data: Seq<u8>)
    ensures
        sha1::digest(data) == sha1::digest_from(
            (Chain { a: 0x67452301, b: 0xEFCDAB89, c: 0x98BADCFE, d: 0x10325476, e: 0xC3D2E1F0 }),
            0,
            data,
        ),
        sha1::digest(data).len() == 20,
{
    sha1::lemma_digest_len(sha1::initial(), 0, data);
}

/// The block of a key of at most 64 bytes is the whole key and zeros.
pub proof fn law_key_block(key: Seq<u8>)
    requires
        key.len() <= 64,
    ensures
        util::key_block(key).len() == 64,
        util::key_block(key).take(key.len() as int) == key,
        forall|i: int| key.len() <= i < 64 ==> util::key_block(key)[i] == 0,
{
    assert(util::key_block(key).take(key.len() as int) =~= key);
}

/// Two keys of the same length of at most 64 bytes have the same block only if they are equal.
pub proof fn law_key_blocks_differ(key: Seq<u8>, other: Seq<u8>)
    requires
        key.len() <= 64,
        other.len() == key.len(),
        util::key_block(key) == util::key_block(other),
    ensures
        key == other,
{
    law_key_block(key);
    law_key_block(other);
}

/// A key of more than 64 bytes has the block of its digest.
pub proof fn law_long_key_block(key: Seq<u8>)
    requires
        key.len() > 64,
    ensures
        util::key_block(key) == util::key_block(sha1::digest(key)),
{
    sha1::lemma_digest_len(sha1::initial(), 0, key);
}

/// The keyed digest (RFC 2104) of all of `data` under all of `key`: each byte of the key, and each
/// zero that fills it up to 64 bytes, is combined with 0x36 for the inner digest and with 0x5c for
/// the outer one.
pub proof fn law_hmac(key: Seq<u8>, data: Seq<u8>)
    requires
        key.len() <= 64,
    ensures
        ({
            let inner = Seq::new(
                64,
                |i: int|
                    if i < key.len() {
                        key[i] ^ 0x36
                    } else {
                        0x36u8
                    },
            );
            let outer = Seq::new(
                64,
                |i: int|
                    if i < key.len() {
                        key[i] ^ 0x5c
                    } else {
                        0x5cu8
                    },
            );
            util::hmac_sha1_of(key, data) == sha1::digest(outer + sha1::digest(inner + data))
        }),
{
    let inner = Seq::new(
        64,
        |i: int|
            if i < key.len() {
                key[i] ^ 0x36
            } else {
                0x36u8
            },
    );
    let outer = Seq::new(
        64,
        |i: int|
            if i < key.len() {
                key[i] ^ 0x5c
            } else {
                0x5cu8
            },
    );
    reveal(util::hmac_sha1_of);
    law_key_block(key);
    let k = util::key_block(key);
    assert(0u8 ^ 0x36 == 0x36u8 && 0u8 ^ 0x5c == 0x5cu8) by (bit_vector);
    assert forall|i: int| 0 <= i < 64 implies util::masked(k, 0x36)[i] == inner[i] && util::masked(
        k,
        0x5c,
    )[i] == outer[i] by {
        if i < key.len() {
            assert(k.take(key.len() as int)[i] == k[i]);
        }
    }
    assert(util::masked(k, 0x36) =~= inner);
    assert(util::masked(k, 0x5c) =~= outer);
}

/// A key of more than 64 bytes stands for its digest.
pub proof fn law_hmac_long_key(key: Seq<u8>, data: Seq<u8>)
    requires
        key.len() > 64,
    ensures
        util::hmac_sha1_of(key, data) == util::hmac_sha1_of(sha1::digest(key), data),
{
    reveal(util::hmac_sha1_of);
    law_long_key_block(key);
}

/// A checksum is taken byte by byte: each is combined with the inverted checksum of those before
/// it, and eight bits are shifted out. Where a bit that is set is shifted out, the polynomial is
/// combined with what remains.
pub proof fn law_checksum(bytes: Seq<u8>, byte: u8, register: u32, n: nat)
    ensures
        outside::crc32_iso_hdlc(Seq::empty()) == 0,
        outside::crc32_iso_hdlc(bytes.push(byte)) == outside::crc32_shifted(
            outside::crc32_iso_hdlc(bytes) ^ 0xFFFF_FFFF ^ (byte as u32),
            8,
        ) ^ 0xFFFF_FFFF,
        outside::crc32_shifted(register, 0) == register,
        ({
            let r = outside::crc32_shifted(register, n);
            outside::crc32_shifted(register, n + 1) == if r % 2 == 1 {
                (r / 2) ^ 0xEDB8_8320
            } else {
                r / 2
            }
        }),
{
    assert(0xFFFF_FFFFu32 ^ 0xFFFF_FFFFu32 == 0u32) by (bit_vector);
    let x = outside::crc32_register(bytes);
    assert(x ^ 0xFFFF_FFFFu32 ^ 0xFFFF_FFFFu32 == x) by (bit_vector);
    assert(bytes.push(byte).drop_last() =~= bytes);
    let r = outside::crc32_shifted(register, n);
    assert(r & 1 == r % 2 && r >> 1 == r / 2) by (bit_vector);
}

} // verus!
