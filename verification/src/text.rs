//! Strings inside attributes.

use vstd::prelude::*;
use vstd::utf8;

verus! {

/// The string that `bytes` encode: none where they are more than 128, or no valid UTF-8.
pub open spec fn decoded_str(bytes: Seq<u8>) -> Option<Seq<char>> {
    if bytes.len() <= 128 && utf8::valid_utf8(bytes) {
        Some(utf8::decode_utf8(bytes))
    } else {
        None
    }
}

/// The parts of `s` before and after its first colon: none where there is no colon, or nothing
/// after the first one.
pub open spec fn split_at_colon(s: Seq<char>) -> Option<(Seq<char>, Seq<char>)> {
    match s.index_of_first(':') {
        Some(i) => if i + 1 < s.len() {
            Some((s.take(i), s.skip(i + 1)))
        } else {
            None
        },
        None => None,
    }
}

/// A string's characters are those that its encoding decodes to.
pub proof fn lemma_str_decodes(s: &str)
    ensures
        utf8::valid_utf8(utf8::encode_utf8(s@)),
        s@ == utf8::decode_utf8(utf8::encode_utf8(s@)),
{
    utf8::encode_utf8_valid_utf8(s@);
    utf8::encode_utf8_decode_utf8(s@);
}

/// A string with a colon among its characters has one among its bytes.
proof fn lemma_colon_has_byte(s: Seq<char>, i: int)
    requires
        0 <= i < s.len(),
        s[i] == ':',
    ensures
        utf8::encode_utf8(s).contains(0x3a),
    decreases s.len(),
{
    let head = utf8::encode_scalar(s[0] as u32);
    let tail = utf8::encode_utf8(s.drop_first());
    assert(utf8::encode_utf8(s) == head + tail);
    if i == 0 {
        assert((0x3au32 & 0x7F) as u8 == 0x3au8) by (bit_vector);
        assert((head + tail)[0] == 0x3a);
    } else {
        assert(s.drop_first()[i - 1] == ':');
        lemma_colon_has_byte(s.drop_first(), i - 1);
        let j = choose|j: int| 0 <= j < tail.len() && tail[j] == 0x3a;
        assert((head + tail)[head.len() + j] == 0x3a);
    }
}

/// Where the first colon byte is, the first colon character is, too.
proof fn lemma_split_at_colon(bytes: Seq<u8>, i: int)
    requires
        utf8::valid_utf8(bytes),
        0 <= i < bytes.len(),
        bytes[i] == 0x3a,
        forall|j: int| 0 <= j < i ==> bytes[j] != 0x3a,
    ensures
        utf8::is_char_boundary(bytes, i),
        utf8::is_char_boundary(bytes.subrange(i, bytes.len() as int), 1),
        split_at_colon(utf8::decode_utf8(bytes)) == if i + 1 < bytes.len() {
            Some(
                (
                    utf8::decode_utf8(bytes.subrange(0, i)),
                    utf8::decode_utf8(bytes.subrange(i + 1, bytes.len() as int)),
                ),
            )
        } else {
            None
        },
{
    let all = utf8::decode_utf8(bytes);
    let before = bytes.subrange(0, i);
    let rest = bytes.subrange(i, bytes.len() as int);
    let after = bytes.subrange(i + 1, bytes.len() as int);
    assert(!utf8::is_continuation_byte(bytes[i]));
    utf8::is_char_boundary_iff_not_is_continuation_byte(bytes, i);
    utf8::valid_utf8_split(bytes, i);
    utf8::decode_utf8_split(bytes, i);
    reveal_with_fuel(utf8::is_char_boundary, 2);
    assert(utf8::is_char_boundary(rest, 1));
    assert(utf8::pop_first_scalar(rest) =~= after);
    assert((0x3au8 & 0x7F) as u32 == 0x3au32) by (bit_vector);
    assert(utf8::decode_first_scalar(rest) as char == ':');
    assert(utf8::decode_utf8(rest) == seq![':'] + utf8::decode_utf8(after));

    let l = utf8::decode_utf8(before);
    let r = utf8::decode_utf8(after);
    assert(all == l + (seq![':'] + r));
    if l.contains(':') {
        let k = choose|k: int| 0 <= k < l.len() && l[k] == ':';
        lemma_colon_has_byte(l, k);
        utf8::decode_utf8_encode_utf8(before);
        let j = choose|j: int| 0 <= j < before.len() && before[j] == 0x3a;
        assert(bytes[j] == 0x3a);
        assert(false);
    }
    assert(all[l.len() as int] == ':');
    all.index_of_first_ensures(':');
    let at = all.index_of_first(':')->0;
    if at < l.len() {
        assert(l[at] == ':');
    }
    assert(at == l.len());
    assert(all.take(at) =~= l);
    assert(all.skip(at + 1) =~= r);
    utf8::decode_utf8_encode_utf8(after);
    if r.len() == 0 {
        assert(after.len() == 0);
    }
}

/// A string without a colon byte is not split.
proof fn lemma_no_colon(bytes: Seq<u8>)
    requires
        utf8::valid_utf8(bytes),
        forall|j: int| 0 <= j < bytes.len() ==> bytes[j] != 0x3a,
    ensures
        split_at_colon(utf8::decode_utf8(bytes)) is None,
{
    let all = utf8::decode_utf8(bytes);
    all.index_of_first_ensures(':');
    if all.contains(':') {
        let k = choose|k: int| 0 <= k < all.len() && all[k] == ':';
        lemma_colon_has_byte(all, k);
        utf8::decode_utf8_encode_utf8(bytes);
        assert(false);
    }
}

/// Reads the string that the first `len` bytes of `buf` encode.
pub fn decode_str<'a>(buf: &'a [u8], len: usize) -> (r: Option<&'a str>)
    requires
        len <= 128 ==> len <= buf@.len(),
    ensures
        len > 128 ==> r is None,
        len <= 128 ==> (match (r, decoded_str(buf@.subrange(0, len as int))) {
            (Some(s), Some(t)) => s@ == t,
            (None, None) => true,
            _ => false,
        }),
{
    if len > 128 {
        return None;
    }
    match std::str::from_utf8(&buf[0..len]) {
        Ok(s) => {
            proof {
                lemma_str_decodes(s);
            }
            Some(s)
        },
        Err(_) => None,
    }
}

/// Splits `v` at its first colon.
pub fn split_str<'a>(v: &'a str) -> (r: Option<(&'a str, &'a str)>)
    ensures
        match (r, split_at_colon(v@)) {
            (Some(p), Some(q)) => p.0@ == q.0 && p.1@ == q.1,
            (None, None) => true,
            _ => false,
        },
{
    let bytes: &[u8] = v.as_bytes();
    let n: usize = bytes.len();
    let mut i: usize = 0;
    proof {
        lemma_str_decodes(v);
    }
    while i < n
        invariant
            i <= n,
            n == bytes@.len(),
            bytes@ == utf8::encode_utf8(v@),
            utf8::valid_utf8(bytes@),
            v@ == utf8::decode_utf8(bytes@),
            forall|j: int| 0 <= j < i ==> bytes@[j] != 0x3a,
        decreases n - i,
    {
        if bytes[i] == 0x3a {
            proof {
                lemma_split_at_colon(bytes@, i as int);
            }
            if i + 1 < n {
                let (local, rest): (&'a str, &'a str) = v.split_at(i);
                let (_, remote): (&'a str, &'a str) = rest.split_at(1);
                proof {
                    lemma_str_decodes(local);
                    lemma_str_decodes(remote);
                    assert(utf8::encode_utf8(remote@) =~= bytes@.subrange(i + 1, n as int));
                }
                return Some((local, remote));
            }
            return None;
        }
        i = i + 1;
    }
    proof {
        lemma_no_colon(bytes@);
    }
    None
}

} // verus!
