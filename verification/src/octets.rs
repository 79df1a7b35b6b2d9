//! Byte strings: big-endian integers and splicing.

use vstd::prelude::*;

verus! {

/// The 16-bit big-endian integer at position `i`.
pub open spec fn u16_at(s: Seq<u8>, i: int) -> int {
    s[i] * 0x100 + s[i + 1]
}

/// The 32-bit big-endian integer at position `i`.
pub open spec fn u32_at(s: Seq<u8>, i: int) -> int {
    u16_at(s, i) * 0x1_0000 + u16_at(s, i + 2)
}

/// The 64-bit big-endian integer at position `i`.
pub open spec fn u64_at(s: Seq<u8>, i: int) -> int {
    u32_at(s, i) * 0x1_0000_0000 + u32_at(s, i + 4)
}

/// The low 16 bits of `n`, most significant byte first.
pub open spec fn u16_bytes(n: int) -> Seq<u8> {
    seq![((n / 0x100) % 0x100) as u8, (n % 0x100) as u8]
}

/// The low 32 bits of `n`, most significant byte first.
#[verifier::opaque]
pub open spec fn u32_bytes(n: int) -> Seq<u8> {
    u16_bytes(n / 0x1_0000) + u16_bytes(n)
}

/// The low 64 bits of `n`, most significant byte first.
#[verifier::opaque]
pub open spec fn u64_bytes(n: int) -> Seq<u8> {
    u32_bytes(n / 0x1_0000_0000) + u32_bytes(n)
}

/// `n` zero bytes.
pub open spec fn zeros(n: nat) -> Seq<u8> {
    Seq::new(n, |i: int| 0u8)
}

/// `s` with the bytes from `at` on overwritten by `new`.
pub open spec fn splice(s: Seq<u8>, at: int, new: Seq<u8>) -> Seq<u8>
    recommends
        0 <= at <= at + new.len() <= s.len(),
{
    s.subrange(0, at) + new + s.subrange(at + new.len(), s.len() as int)
}

/// Four bytes.
pub broadcast proof fn lemma_u32_bytes_len(n: int)
    ensures
        #[trigger] u32_bytes(n).len() == 4,
{
    reveal(u32_bytes);
}

/// Eight bytes.
pub broadcast proof fn lemma_u64_bytes_len(n: int)
    ensures
        #[trigger] u64_bytes(n).len() == 8,
{
    reveal(u64_bytes);
    lemma_u32_bytes_len(n / 0x1_0000_0000);
    lemma_u32_bytes_len(n);
}

/// An integer of 16 bits is read back from its bytes.
pub proof fn lemma_u16_round_trip(n: int)
    requires
        0 <= n < 0x1_0000,
    ensures
        u16_at(u16_bytes(n), 0) == n,
{
}

/// An integer of 32 bits is read back from its bytes.
pub proof fn lemma_u32_round_trip(n: int)
    requires
        0 <= n < 0x1_0000_0000,
    ensures
        u32_at(u32_bytes(n), 0) == n,
{
    reveal(u32_bytes);
}

/// The bytes of an integer of 16 bits depend on its low 16 bits alone.
pub proof fn lemma_u16_bytes_low(n: int)
    ensures
        u16_bytes(n) == u16_bytes(n % 0x1_0000),
{
    let q = n / 0x1_0000;
    let r = n % 0x1_0000;
    assert(n == q * 0x1_0000 + r);
    assert(n / 0x100 == q * 0x100 + r / 0x100);
    assert(u16_bytes(n) =~= u16_bytes(r));
}

/// The bytes of an integer of 32 bits depend on its low 32 bits alone.
pub proof fn lemma_u32_bytes_low(n: int)
    ensures
        u32_bytes(n) == u32_bytes(n % 0x1_0000_0000),
{
    reveal(u32_bytes);
    let q = n / 0x1_0000_0000;
    let r = n % 0x1_0000_0000;
    assert(n == q * 0x1_0000_0000 + r);
    assert(n / 0x1_0000 == q * 0x1_0000 + r / 0x1_0000);
    assert(n / 0x1_0000 / 0x100 == q * 0x100 + r / 0x1_0000 / 0x100);
    assert(n / 0x100 == q * 0x100_0000 + r / 0x100);
    assert(u32_bytes(n) =~= u32_bytes(r));
}

/// An integer of 64 bits is read back from its bytes.
pub proof fn lemma_u64_round_trip(n: int)
    requires
        0 <= n < 0x1_0000_0000_0000_0000,
    ensures
        u64_at(u64_bytes(n), 0) == n,
{
    broadcast use lemma_u32_bytes_len;

    reveal(u64_bytes);
    let hi = u32_bytes(n / 0x1_0000_0000);
    let lo = u32_bytes(n % 0x1_0000_0000);
    lemma_u32_bytes_low(n);
    lemma_u32_round_trip(n / 0x1_0000_0000);
    lemma_u32_round_trip(n % 0x1_0000_0000);
    assert(hi =~= (hi + lo).subrange(0, 4));
    assert(lo =~= (hi + lo).subrange(4, 8));
    lemma_u32_at_shift(hi + lo, 0, hi);
    lemma_u32_at_shift(hi + lo, 4, lo);
}

/// An integer is read alike from a byte string and from the longer one that holds it.
pub proof fn lemma_u32_at_shift(s: Seq<u8>, i: int, part: Seq<u8>)
    requires
        0 <= i,
        i + 4 <= s.len(),
        part == s.subrange(i, i + 4),
    ensures
        u32_at(s, i) == u32_at(part, 0),
{
    assert(part[0] == s[i] && part[1] == s[i + 1] && part[2] == s[i + 2] && part[3] == s[i + 3]);
}

/// Reads the 16-bit integer at `i`.
pub fn read_u16(buf: &[u8], i: usize) -> (r: u16)
    requires
        i + 1 < buf.len(),
    ensures
        r == u16_at(buf@, i as int),
{
    buf[i] as u16 * 0x100 + buf[i + 1] as u16
}

/// Reads the 32-bit integer at `i`.
pub fn read_u32(buf: &[u8], i: usize) -> (r: u32)
    requires
        i + 3 < buf.len(),
    ensures
        r == u32_at(buf@, i as int),
{
    read_u16(buf, i) as u32 * 0x1_0000 + read_u16(buf, i + 2) as u32
}

/// Reads the 64-bit integer at `i`.
pub fn read_u64(buf: &[u8], i: usize) -> (r: u64)
    requires
        i + 7 < buf.len(),
    ensures
        r == u64_at(buf@, i as int),
{
    read_u32(buf, i) as u64 * 0x1_0000_0000 + read_u32(buf, i + 4) as u64
}

/// The two bytes of `n`.
pub fn u16_to_bytes(n: u16) -> (r: [u8; 2])
    ensures
        r@ == u16_bytes(n as int),
{
    let r: [u8; 2] = [(n / 0x100) as u8, (n % 0x100) as u8];
    assert(r@ =~= u16_bytes(n as int));
    r
}

/// The four bytes of `n`.
pub fn u32_to_bytes(n: u32) -> (r: [u8; 4])
    ensures
        r@ == u32_bytes(n as int),
{
    let hi: [u8; 2] = u16_to_bytes((n / 0x1_0000) as u16);
    let lo: [u8; 2] = u16_to_bytes((n % 0x1_0000) as u16);
    proof {
        reveal(u32_bytes);
        lemma_u16_bytes_low(n as int);
    }
    let r: [u8; 4] = [hi[0], hi[1], lo[0], lo[1]];
    assert(r@ =~= hi@ + lo@);
    r
}

/// The eight bytes of `n`.
pub fn u64_to_bytes(n: u64) -> (r: [u8; 8])
    ensures
        r@ == u64_bytes(n as int),
{
    let hi: [u8; 4] = u32_to_bytes((n / 0x1_0000_0000) as u32);
    let lo: [u8; 4] = u32_to_bytes((n % 0x1_0000_0000) as u32);
    proof {
        reveal(u64_bytes);
        lemma_u32_bytes_low(n as int);
    }
    let r: [u8; 8] = [hi[0], hi[1], hi[2], hi[3], lo[0], lo[1], lo[2], lo[3]];
    assert(r@ =~= hi@ + lo@);
    r
}

/// Appends `new` to `vec`.
pub fn append(vec: &mut Vec<u8>, new: &[u8])
    ensures
        final(vec)@ == old(vec)@ + new@,
{
    vec.extend_from_slice(new);
    assert(vec@ =~= old(vec)@ + new@);
}

/// Appends `n` zero bytes to `vec`.
pub fn append_zeros(vec: &mut Vec<u8>, n: usize)
    ensures
        final(vec)@ == old(vec)@ + zeros(n as nat),
{
    let mut i: usize = 0;
    assert(vec@ =~= old(vec)@ + zeros(0));
    while i < n
        invariant
            i <= n,
            vec@ == old(vec)@ + zeros(i as nat),
        decreases n - i,
    {
        vec.push(0);
        i = i + 1;
        assert(vec@ =~= old(vec)@ + zeros(i as nat));
    }
}

/// Overwrites the bytes of `vec` from `at` on by `new`.
pub fn overwrite(vec: &mut Vec<u8>, at: usize, new: &[u8])
    requires
        at + new@.len() <= old(vec).len(),
    ensures
        final(vec)@ == splice(old(vec)@, at as int, new@),
{
    let mut i: usize = 0;
    let n: usize = new.len();
    while i < n
        invariant
            i <= n,
            n == new@.len(),
            at + n <= old(vec).len(),
            vec@.len() == old(vec)@.len(),
            forall|j: int|
                0 <= j < vec@.len() ==> #[trigger] vec@[j] == if at <= j < at + i {
                    new@[j - at]
                } else {
                    old(vec)@[j]
                },
        decreases n - i,
    {
        vec[at + i] = new[i];
        i = i + 1;
    }
    assert(vec@ =~= splice(old(vec)@, at as int, new@));
}

/// Whether two byte strings are equal.
pub fn equal(a: &[u8], b: &[u8]) -> (r: bool)
    ensures
        r == (a@ == b@),
{
    if a.len() != b.len() {
        return false;
    }
    let mut i: usize = 0;
    while i < a.len()
        invariant
            i <= a@.len(),
            a@.len() == b@.len(),
            forall|j: int| 0 <= j < i ==> a@[j] == b@[j],
        decreases a@.len() - i,
    {
        if a[i] != b[i] {
            return false;
        }
        i = i + 1;
    }
    assert(a@ =~= b@);
    true
}

} // verus!
