//! Attributes: what they are, how they are read and how they are written.

use vstd::prelude::*;
use vstd::utf8;

use crate::address;
use crate::address::{SocketAddr, SocketAddrView};
use crate::octets;
use crate::outcome::Outcome;
use crate::text;

verus! {

/// An attribute of a message.
#[derive(Clone, Debug, PartialEq)]
pub enum Attribute<'a> {
    MappedAddress,
    /// Fewer than 128 characters, in at most 128 bytes of UTF-8.
    Username(&'a str),
    /// The 20 bytes of an HMAC-SHA1.
    MessageIntegrity(&'a [u8]),
    /// Stands for the message integrity that is filled in when a message is written.
    MessageIntegrityMark,
    /// A code from 300 to 699, and a reason of fewer than 128 characters in at most 128 bytes of
    /// UTF-8.
    ErrorCode(u16, &'a str),
    UnknownAttributes,
    /// Fewer than 128 characters, in at most 128 bytes of UTF-8.
    Realm(&'a str),
    /// Fewer than 128 characters, in at most 128 bytes of UTF-8.
    Nonce(&'a str),
    XorMappedAddress(SocketAddr),
    /// At most 128 bytes of UTF-8.
    Software(&'a str),
    AlternateServer,
    /// A CRC-32.
    Fingerprint(u32),
    /// Stands for the fingerprint that is filled in when a message is written.
    FingerprintMark,
    Priority(u32),
    UseCandidate,
    IceControlled(u64),
    IceControlling(u64),
    /// A network id and a cost.
    NetworkCost(u16, u16),
    /// The type of an attribute that is none of the others.
    Unknown(u16),
}

/// What an [`Attribute`] stands for.
pub enum AttributeView {
    MappedAddress,
    Username(Seq<char>),
    MessageIntegrity(Seq<u8>),
    MessageIntegrityMark,
    ErrorCode(u16, Seq<char>),
    UnknownAttributes,
    Realm(Seq<char>),
    Nonce(Seq<char>),
    XorMappedAddress(SocketAddrView),
    Software(Seq<char>),
    AlternateServer,
    Fingerprint(u32),
    FingerprintMark,
    Priority(u32),
    UseCandidate,
    IceControlled(u64),
    IceControlling(u64),
    NetworkCost(u16, u16),
    Unknown(u16),
}

impl<'a> View for Attribute<'a> {
    type V = AttributeView;

    open spec fn view(&self) -> AttributeView {
        match self {
            Attribute::MappedAddress => AttributeView::MappedAddress,
            Attribute::Username(v) => AttributeView::Username(v@),
            Attribute::MessageIntegrity(v) => AttributeView::MessageIntegrity(v@),
            Attribute::MessageIntegrityMark => AttributeView::MessageIntegrityMark,
            Attribute::ErrorCode(c, v) => AttributeView::ErrorCode(*c, v@),
            Attribute::UnknownAttributes => AttributeView::UnknownAttributes,
            Attribute::Realm(v) => AttributeView::Realm(v@),
            Attribute::Nonce(v) => AttributeView::Nonce(v@),
            Attribute::XorMappedAddress(v) => AttributeView::XorMappedAddress(v@),
            Attribute::Software(v) => AttributeView::Software(v@),
            Attribute::AlternateServer => AttributeView::AlternateServer,
            Attribute::Fingerprint(v) => AttributeView::Fingerprint(*v),
            Attribute::FingerprintMark => AttributeView::FingerprintMark,
            Attribute::Priority(v) => AttributeView::Priority(*v),
            Attribute::UseCandidate => AttributeView::UseCandidate,
            Attribute::IceControlled(v) => AttributeView::IceControlled(*v),
            Attribute::IceControlling(v) => AttributeView::IceControlling(*v),
            Attribute::NetworkCost(i, c) => AttributeView::NetworkCost(*i, *c),
            Attribute::Unknown(t) => AttributeView::Unknown(*t),
        }
    }
}

/// What each attribute of a list stands for.
pub open spec fn views(attrs: Seq<Attribute<'_>>) -> Seq<AttributeView> {
    Seq::new(attrs.len(), |i: int| attrs[i]@)
}

// Reading.

/// The number of bytes that a value of `len` bytes takes up: values end on 32-bit boundaries.
pub open spec fn padded(len: int) -> int {
    len + (4 - len % 4) % 4
}

/// Computes [`padded`].
fn pad(len: usize) -> (r: usize)
    requires
        len < 0x1_0000,
    ensures
        r == padded(len as int),
        len <= r,
{
    len + (4 - (len % 4)) % 4
}

/// An attribute whose value is the string `value`, made by `make`.
pub open spec fn text_attribute(
    value: Seq<u8>,
    make: spec_fn(Seq<char>) -> AttributeView,
) -> Outcome<Option<AttributeView>> {
    match text::decoded_str(value) {
        Some(s) => Outcome::Decoded(Some(make(s))),
        None => Outcome::Malformed,
    }
}

/// An attribute whose value is a string of fewer than 128 characters, made by `make`.
pub open spec fn short_text_attribute(
    value: Seq<u8>,
    make: spec_fn(Seq<char>) -> AttributeView,
) -> Outcome<Option<AttributeView>> {
    match text::decoded_str(value) {
        Some(s) => if s.len() < 128 {
            Outcome::Decoded(Some(make(s)))
        } else {
            Outcome::Malformed
        },
        None => Outcome::Malformed,
    }
}

/// The ERROR-CODE attribute at the start of `rest`, with a value of `len` bytes: 21 bits that are
/// zero, the hundreds of the code, the rest of the code, and the reason. They are read in this
/// order, so that a value that is cut off may be rejected by what is there.
pub open spec fn error_code_at(rest: Seq<u8>, len: int) -> Outcome<Option<AttributeView>> {
    if rest.len() > 4 && rest[4] != 0 {
        Outcome::Malformed
    } else if rest.len() > 5 && rest[5] != 0 {
        Outcome::Malformed
    } else if rest.len() > 6 && (rest[6] & 0b1111_1000 != 0 || !(3 <= rest[6] <= 6)) {
        Outcome::Malformed
    } else if rest.len() < 8 || len < 4 {
        Outcome::OutOfBounds
    } else {
        let code = (rest[6] * 100 + rest[7] % 100) as u16;
        short_text_attribute(
            rest.subrange(8, 4 + len),
            |s: Seq<char>| AttributeView::ErrorCode(code, s),
        )
    }
}

/// The attribute at the start of `rest`, which holds the whole value; none where the attribute is
/// passed over.
#[verifier::opaque]
pub open spec fn attribute_at(rest: Seq<u8>, trans_id: Seq<u8>) -> Outcome<Option<AttributeView>> {
    let typ = octets::u16_at(rest, 0);
    let len = octets::u16_at(rest, 2);
    let value = rest.subrange(4, 4 + len);
    if typ == 0x0001 {
        Outcome::Decoded(Some(AttributeView::MappedAddress))
    } else if typ == 0x0006 {
        short_text_attribute(value, |s: Seq<char>| AttributeView::Username(s))
    } else if typ == 0x0008 {
        if len == 20 {
            Outcome::Decoded(Some(AttributeView::MessageIntegrity(value)))
        } else {
            Outcome::Malformed
        }
    } else if typ == 0x0009 {
        error_code_at(rest, len)
    } else if typ == 0x000a {
        Outcome::Decoded(Some(AttributeView::UnknownAttributes))
    } else if typ == 0x0014 {
        short_text_attribute(value, |s: Seq<char>| AttributeView::Realm(s))
    } else if typ == 0x0015 {
        short_text_attribute(value, |s: Seq<char>| AttributeView::Nonce(s))
    } else if typ == 0x0020 {
        match address::xor_address(rest.skip(4), trans_id) {
            Outcome::Decoded(a) => Outcome::Decoded(Some(AttributeView::XorMappedAddress(a))),
            Outcome::Malformed => Outcome::Malformed,
            Outcome::OutOfBounds => Outcome::OutOfBounds,
        }
    } else if typ == 0x0022 {
        text_attribute(value, |s: Seq<char>| AttributeView::Software(s))
    } else if typ == 0x0024 {
        if len == 4 {
            Outcome::Decoded(Some(AttributeView::Priority(octets::u32_at(value, 0) as u32)))
        } else {
            Outcome::Malformed
        }
    } else if typ == 0x0025 {
        if len == 0 {
            Outcome::Decoded(Some(AttributeView::UseCandidate))
        } else {
            Outcome::Malformed
        }
    } else if typ == 0x8023 {
        Outcome::Decoded(Some(AttributeView::AlternateServer))
    } else if typ == 0x8028 {
        if rest.len() < 8 {
            Outcome::OutOfBounds
        } else {
            Outcome::Decoded(Some(AttributeView::Fingerprint(octets::u32_at(rest, 4) as u32)))
        }
    } else if typ == 0x8029 {
        if len == 8 {
            Outcome::Decoded(Some(AttributeView::IceControlled(octets::u64_at(value, 0) as u64)))
        } else {
            Outcome::Malformed
        }
    } else if typ == 0x802a {
        if len == 8 {
            Outcome::Decoded(Some(AttributeView::IceControlling(octets::u64_at(value, 0) as u64)))
        } else {
            Outcome::Malformed
        }
    } else if typ == 0xc057 {
        if len == 4 {
            Outcome::Decoded(
                Some(
                    AttributeView::NetworkCost(
                        octets::u16_at(value, 0) as u16,
                        octets::u16_at(value, 2) as u16,
                    ),
                ),
            )
        } else {
            Outcome::Decoded(None)
        }
    } else {
        Outcome::Decoded(Some(AttributeView::Unknown(typ as u16)))
    }
}

/// What comes of decoding `first`, if it is an attribute, and then the `others`.
pub open spec fn with_first(
    first: Option<AttributeView>,
    others: (Outcome<Seq<AttributeView>>, Option<int>),
) -> (Outcome<Seq<AttributeView>>, Option<int>) {
    match (first, others.0) {
        (Some(a), Outcome::Decoded(attrs)) => (Outcome::Decoded(seq![a] + attrs), others.1),
        _ => others,
    }
}

/// The attributes of `body` from `off` on, and where in `body` the message integrity is.
///
/// `integrity` is where it is if that was before `off`. Behind it every attribute but a
/// FINGERPRINT is ignored.
pub open spec fn attributes_from(
    body: Seq<u8>,
    trans_id: Seq<u8>,
    off: int,
    integrity: Option<int>,
) -> (Outcome<Seq<AttributeView>>, Option<int>)
    decreases body.len() - off,
{
    let rest = body.skip(off);
    let typ = octets::u16_at(rest, 0);
    let len = octets::u16_at(rest, 2);
    let next = off + 4 + padded(len);
    if off >= body.len() {
        (Outcome::Decoded(Seq::empty()), integrity)
    } else if rest.len() < 4 {
        (Outcome::OutOfBounds, integrity)
    } else if len > rest.len() - 4 {
        (Outcome::Malformed, integrity)
    } else if integrity is Some && typ != 0x8028 {
        if next > body.len() {
            (Outcome::OutOfBounds, integrity)
        } else {
            attributes_from(body, trans_id, next, integrity)
        }
    } else {
        match attribute_at(rest, trans_id) {
            Outcome::Malformed => (Outcome::Malformed, integrity),
            Outcome::OutOfBounds => (Outcome::OutOfBounds, integrity),
            Outcome::Decoded(first) => {
                let seen = if typ == 0x0008 {
                    Some(off)
                } else {
                    integrity
                };
                if next > body.len() {
                    (Outcome::OutOfBounds, seen)
                } else {
                    with_first(first, attributes_from(body, trans_id, next, seen))
                }
            },
        }
    }
}

/// The attributes of `body`, and where in it the message integrity is.
pub open spec fn attributes_of(body: Seq<u8>, trans_id: Seq<u8>) -> (
    Outcome<Seq<AttributeView>>,
    Option<int>,
) {
    attributes_from(body, trans_id, 0, None)
}

/// Whether a string is one of fewer than 128 characters in at most 128 bytes.
pub open spec fn short(s: Seq<char>) -> bool {
    s.len() < 128 && utf8::encode_utf8(s).len() <= 128
}

/// What holds of every attribute that is read: strings are short, error codes are from 300 to 699,
/// and a message integrity has 20 bytes.
pub open spec fn within_limits(a: AttributeView) -> bool {
    match a {
        AttributeView::Username(s) => short(s),
        AttributeView::MessageIntegrity(v) => v.len() == 20,
        AttributeView::ErrorCode(code, s) => 300 <= code <= 699 && short(s),
        AttributeView::Realm(s) => short(s),
        AttributeView::Nonce(s) => short(s),
        AttributeView::Software(s) => utf8::encode_utf8(s).len() <= 128,
        _ => true,
    }
}

/// A string that was read has no more bytes than it was read from.
proof fn lemma_decoded_len(value: Seq<u8>)
    ensures
        text::decoded_str(value) matches Some(s) ==> utf8::encode_utf8(s).len() <= 128,
{
    if text::decoded_str(value) is Some {
        utf8::decode_utf8_encode_utf8(value);
    }
}

/// The shape of what is read from `off` on: attributes are within their limits, the message
/// integrity is the 20 bytes of a value inside `body`, and behind it there are fingerprints only.
pub proof fn lemma_attributes_shape(
    body: Seq<u8>,
    trans_id: Seq<u8>,
    off: int,
    integrity: Option<int>,
)
    requires
        0 <= off,
    ensures
        ({
            let r = attributes_from(body, trans_id, off, integrity);
            r.0 matches Outcome::Decoded(attrs) ==> {
                &&& forall|i: int| 0 <= i < attrs.len() ==> within_limits(#[trigger] attrs[i])
                &&& forall|i: int, j: int|
                    0 <= i < j < attrs.len() && #[trigger] attrs[i] is MessageIntegrity
                        ==> #[trigger] attrs[j] is Fingerprint
                &&& match integrity {
                    Some(_) => {
                        &&& r.1 == integrity
                        &&& first_integrity(attrs) is None
                        &&& forall|i: int|
                            0 <= i < attrs.len() ==> #[trigger] attrs[i] is Fingerprint
                    },
                    None => match r.1 {
                        Some(o) => {
                            &&& off <= o
                            &&& o + 24 <= body.len()
                            &&& first_integrity(attrs) == Some(body.subrange(o + 4, o + 24))
                        },
                        None => first_integrity(attrs) is None,
                    },
                }
            }
        }),
    decreases body.len() - off,
{
    let r = attributes_from(body, trans_id, off, integrity);
    let rest = body.skip(off);
    let typ = octets::u16_at(rest, 0);
    let len = octets::u16_at(rest, 2);
    let next = off + 4 + padded(len);
    if off < body.len() && rest.len() >= 4 && len <= rest.len() - 4 && next <= body.len() {
        if integrity is Some && typ != 0x8028 {
            lemma_attributes_shape(body, trans_id, next, integrity);
        } else if let Outcome::Decoded(first) = attribute_at(rest, trans_id) {
            let seen = if typ == 0x0008 {
                Some(off)
            } else {
                integrity
            };
            lemma_attributes_shape(body, trans_id, next, seen);
            lemma_first_shape(rest, trans_id);
            let others = attributes_from(body, trans_id, next, seen);
            if let Outcome::Decoded(attrs) = others.0 {
                if let Some(a) = first {
                    let all = seq![a] + attrs;
                    assert(all.drop_first() =~= attrs);
                    assert forall|i: int| 0 <= i < all.len() implies within_limits(
                        #[trigger] all[i],
                    ) by {
                        if i > 0 {
                            assert(within_limits(attrs[i - 1]));
                        }
                    }
                    assert forall|i: int, j: int|
                        0 <= i < j < all.len() && #[trigger] all[i] is MessageIntegrity implies (
                    #[trigger] all[j]) is Fingerprint by {
                        assert(all[j] == attrs[j - 1]);
                        if i > 0 {
                            assert(all[i] == attrs[i - 1]);
                        }
                    }
                    if typ == 0x0008 {
                        assert(rest.subrange(4, 24) =~= body.subrange(off + 4, off + 24));
                    }
                    if integrity is Some {
                        assert forall|i: int| 0 <= i < all.len() implies (
                        #[trigger] all[i]) is Fingerprint by {
                            if i > 0 {
                                assert(attrs[i - 1] is Fingerprint);
                            }
                        }
                    }
                }
            }
        }
    }
}

/// The shape of one attribute.
proof fn lemma_first_shape(rest: Seq<u8>, trans_id: Seq<u8>)
    requires
        4 <= rest.len(),
        octets::u16_at(rest, 2) <= rest.len() - 4,
    ensures
        attribute_at(rest, trans_id) matches Outcome::Decoded(first) ==> {
            let typ = octets::u16_at(rest, 0);
            &&& first matches Some(a) ==> within_limits(a)
            &&& first matches Some(a) ==> (a is MessageIntegrity <==> typ == 0x0008)
            &&& first matches Some(a) ==> (a is Fingerprint <==> typ == 0x8028)
            &&& typ == 0x0008 ==> 24 <= rest.len() && first == Some(
                AttributeView::MessageIntegrity(rest.subrange(4, 24)),
            )
        },
{
    reveal(attribute_at);
    lemma_decoded_len(rest.subrange(4, 4 + octets::u16_at(rest, 2)));
    lemma_decoded_len(rest.subrange(8, 4 + octets::u16_at(rest, 2)));
}

/// What comes of decoding when the attributes `done` have been decoded before.
pub open spec fn after(
    done: Seq<AttributeView>,
    others: (Outcome<Seq<AttributeView>>, Option<int>),
) -> (Outcome<Seq<AttributeView>>, Option<int>) {
    match others.0 {
        Outcome::Decoded(attrs) => (Outcome::Decoded(done + attrs), others.1),
        _ => others,
    }
}

/// An attribute decoded next is one of those decoded before what follows it.
proof fn lemma_after(
    done: Seq<AttributeView>,
    first: AttributeView,
    others: (Outcome<Seq<AttributeView>>, Option<int>),
)
    ensures
        after(done, with_first(Some(first), others)) == after(done.push(first), others),
{
    if let Outcome::Decoded(attrs) = others.0 {
        assert(done + (seq![first] + attrs) =~= done.push(first) + attrs);
    }
}

/// What a result says of the decoding of one attribute.
spec fn tells(r: Option<Option<Attribute<'_>>>, outcome: Outcome<Option<AttributeView>>) -> bool {
    match r {
        Some(Some(a)) => outcome == Outcome::Decoded(Some(a@)),
        Some(None) => outcome == Outcome::Decoded(None::<AttributeView>),
        None => outcome is Malformed,
    }
}

impl<'a> Attribute<'a> {
    /// Decodes an ERROR-CODE attribute.
    fn decode_error_code(rest: &'a [u8], len: usize) -> (r: Option<Option<Attribute<'a>>>)
        requires
            4 + len <= rest.len(),
            !(error_code_at(rest@, len as int) is OutOfBounds),
        ensures
            tells(r, error_code_at(rest@, len as int)),
    {
        if rest[4] != 0 || rest[5] != 0 || rest[6] & 0b1111_1000 != 0 {
            return None;
        }
        let class: u16 = rest[6] as u16 * 100;
        if class < 300 || class > 699 {
            return None;
        }
        let code: u16 = class + (rest[7] % 100) as u16;
        let reason: &'a [u8] = &rest[8..rest.len()];
        assert(reason@.subrange(0, len - 4) =~= rest@.subrange(8, 4 + len));
        match text::decode_str(reason, len - 4) {
            Some(s) => {
                if s.unicode_len() >= 128 {
                    return None;
                }
                Some(Some(Attribute::ErrorCode(code, s)))
            },
            None => None,
        }
    }

    /// Decodes an attribute whose value is a string.
    fn decode_text(rest: &'a [u8], len: usize) -> (r: Option<&'a str>)
        requires
            4 + len <= rest.len(),
        ensures
            match (r, text::decoded_str(rest@.subrange(4, 4 + len))) {
                (Some(s), Some(t)) => s@ == t,
                (None, None) => true,
                _ => false,
            },
    {
        let value: &'a [u8] = &rest[4..rest.len()];
        assert(value@.subrange(0, len as int) =~= rest@.subrange(4, 4 + len));
        text::decode_str(value, len)
    }

    /// Decodes an attribute whose value is a string of fewer than 128 characters.
    fn decode_short_text(rest: &'a [u8], len: usize) -> (r: Option<&'a str>)
        requires
            4 + len <= rest.len(),
        ensures
            match (r, text::decoded_str(rest@.subrange(4, 4 + len))) {
                (Some(s), Some(t)) => s@ == t && t.len() < 128,
                (None, Some(t)) => t.len() >= 128,
                (None, None) => true,
                _ => false,
            },
    {
        match Self::decode_text(rest, len) {
            Some(s) => if s.unicode_len() < 128 {
                Some(s)
            } else {
                None
            },
            None => None,
        }
    }

    /// Decodes the attribute at the start of `rest`: none where it is malformed, and an attribute
    /// unless it is passed over.
    fn decode(rest: &'a [u8], typ: u16, len: usize, trans_id: &[u8]) -> (r: Option<
        Option<Attribute<'a>>,
    >)
        requires
            4 + len <= rest.len(),
            typ == octets::u16_at(rest@, 0),
            len == octets::u16_at(rest@, 2),
            !(attribute_at(rest@, trans_id@) is OutOfBounds),
        ensures
            tells(r, attribute_at(rest@, trans_id@)),
            typ == 0x0008 && r is Some ==> r->0 is Some,
    {
        proof {
            reveal(attribute_at);
        }
        match typ {
            0x0001 => Some(Some(Attribute::MappedAddress)),
            0x0006 => match Self::decode_short_text(rest, len) {
                Some(s) => Some(Some(Attribute::Username(s))),
                None => None,
            },
            0x0008 => {
                if len != 20 {
                    return None;
                }
                Some(Some(Attribute::MessageIntegrity(&rest[4..24])))
            },
            0x0009 => Self::decode_error_code(rest, len),
            0x000a => Some(Some(Attribute::UnknownAttributes)),
            0x0014 => match Self::decode_short_text(rest, len) {
                Some(s) => Some(Some(Attribute::Realm(s))),
                None => None,
            },
            0x0015 => match Self::decode_short_text(rest, len) {
                Some(s) => Some(Some(Attribute::Nonce(s))),
                None => None,
            },
            0x0020 => {
                let value: &[u8] = &rest[4..rest.len()];
                assert(value@ =~= rest@.skip(4));
                match address::decode_xor(value, trans_id) {
                    Some(addr) => Some(Some(Attribute::XorMappedAddress(addr))),
                    None => None,
                }
            },
            0x0022 => match Self::decode_text(rest, len) {
                Some(s) => Some(Some(Attribute::Software(s))),
                None => None,
            },
            0x0024 => {
                if len != 4 {
                    return None;
                }
                Some(Some(Attribute::Priority(octets::read_u32(rest, 4))))
            },
            0x0025 => {
                if len != 0 {
                    return None;
                }
                Some(Some(Attribute::UseCandidate))
            },
            0x8023 => Some(Some(Attribute::AlternateServer)),
            0x8028 => Some(Some(Attribute::Fingerprint(octets::read_u32(rest, 4)))),
            0x8029 => {
                if len != 8 {
                    return None;
                }
                Some(Some(Attribute::IceControlled(octets::read_u64(rest, 4))))
            },
            0x802a => {
                if len != 8 {
                    return None;
                }
                Some(Some(Attribute::IceControlling(octets::read_u64(rest, 4))))
            },
            0xc057 => {
                if len != 4 {
                    Some(None)
                } else {
                    Some(
                        Some(
                            Attribute::NetworkCost(
                                octets::read_u16(rest, 4),
                                octets::read_u16(rest, 6),
                            ),
                        ),
                    )
                }
            },
            _ => Some(Some(Attribute::Unknown(typ))),
        }
    }

    /// Reads the attributes of a message whose transaction id is `trans_id`. Where there is a
    /// message integrity, `msg_integrity_off` is set to its place in `buf`.
    pub(crate) fn parse(buf: &'a [u8], trans_id: &[u8], msg_integrity_off: &mut usize) -> (r:
        Option<Vec<Attribute<'a>>>)
        requires
            !(attributes_of(buf@, trans_id@).0 is OutOfBounds),
        ensures
            match r {
                Some(attrs) => {
                    &&& attributes_of(buf@, trans_id@).0 == Outcome::Decoded(views(attrs@))
                    &&& forall|i: int|
                        0 <= i < attrs@.len() ==> within_limits(#[trigger] attrs@[i]@)
                },
                None => attributes_of(buf@, trans_id@).0 is Malformed,
            },
            *final(msg_integrity_off) == match attributes_of(buf@, trans_id@).1 {
                Some(off) => off,
                None => *old(msg_integrity_off) as int,
            },
    {
        let ghost all = attributes_of(buf@, trans_id@);
        let mut ret: Vec<Attribute<'a>> = Vec::new();
        let mut rest: &'a [u8] = buf;
        let mut off: usize = 0;
        let mut ignore_rest: bool = false;
        let ghost mut seen: Option<int> = None;
        assert(buf@.skip(0) =~= buf@);
        assert(views(ret@) =~= Seq::empty());
        while !rest.is_empty()
            invariant
                off <= buf.len(),
                rest@ == buf@.skip(off as int),
                ignore_rest == (seen is Some),
                *msg_integrity_off == match seen {
                    Some(o) => o,
                    None => *old(msg_integrity_off) as int,
                },
                all == attributes_of(buf@, trans_id@),
                !(all.0 is OutOfBounds),
                all == after(
                    views(ret@),
                    attributes_from(buf@, trans_id@, off as int, seen),
                ),
            decreases buf.len() - off,
        {
            let ghost from = attributes_from(buf@, trans_id@, off as int, seen);
            let ghost done = views(ret@);
            let ghost mut first: Option<AttributeView> = None;
            let typ: u16 = octets::read_u16(rest, 0);
            let len: usize = octets::read_u16(rest, 2) as usize;
            if len > rest.len() - 4 {
                return None;
            }
            if !ignore_rest || typ == 0x8028 {
                match Self::decode(rest, typ, len, trans_id) {
                    None => {
                        return None;
                    },
                    Some(None) => {},
                    Some(Some(attr)) => {
                        ret.push(attr);
                        assert(views(ret@) =~= done.push(attr@));
                        proof {
                            first = Some(attr@);
                        }
                        if typ == 0x0008 {
                            *msg_integrity_off = off;
                            ignore_rest = true;
                            proof {
                                seen = Some(off as int);
                            }
                        }
                    },
                }
            }
            // attributes are on 32-bit boundaries
            let pad_len: usize = pad(len);
            rest = &rest[4 + pad_len..rest.len()];
            off = off + 4 + pad_len;
            assert(rest@ =~= buf@.skip(off as int));
            proof {
                let others = attributes_from(buf@, trans_id@, off as int, seen);
                assert(from == with_first(first, others));
                if let Some(a) = first {
                    lemma_after(done, a, others);
                }
            }
        }
        proof {
            lemma_attributes_shape(buf@, trans_id@, 0, None);
            assert forall|i: int| 0 <= i < ret@.len() implies within_limits(
                #[trigger] ret@[i]@,
            ) by {
                assert(views(ret@)[i] == ret@[i]@);
            }
        }
        Some(ret)
    }

    /// Whether decoding the attribute at the start of `rest` calls for bytes behind its end.
    fn overruns(rest: &[u8], typ: u16, len: usize, trans_id: &[u8]) -> (r: bool)
        requires
            4 + len <= rest.len(),
            typ == octets::u16_at(rest@, 0),
            len == octets::u16_at(rest@, 2),
        ensures
            r == (attribute_at(rest@, trans_id@) is OutOfBounds),
    {
        proof {
            reveal(attribute_at);
        }
        match typ {
            0x0009 => {
                if rest.len() > 4 && rest[4] != 0 {
                    return false;
                }
                if rest.len() > 5 && rest[5] != 0 {
                    return false;
                }
                if rest.len() > 6 && (rest[6] & 0b1111_1000 != 0 || rest[6] < 3 || rest[6] > 6) {
                    return false;
                }
                rest.len() < 8 || len < 4
            },
            0x0020 => rest.len() < 8 || (rest[5] == 1 && rest.len() < 12) || (rest[5] == 2 && (
            rest.len() < 24 || trans_id.len() < 12)),
            0x8028 => rest.len() < 8,
            _ => false,
        }
    }

    /// Whether [`Attribute::parse`] stays within `buf`.
    pub(crate) fn stays_within(buf: &[u8], trans_id: &[u8]) -> (r: bool)
        ensures
            r == !(attributes_of(buf@, trans_id@).0 is OutOfBounds),
    {
        let ghost all = attributes_of(buf@, trans_id@);
        let mut rest: &[u8] = buf;
        let mut ignore_rest: bool = false;
        let ghost mut off: int = 0;
        let ghost mut seen: Option<int> = None;
        assert(buf@.skip(0) =~= buf@);
        while !rest.is_empty()
            invariant
                0 <= off <= buf@.len(),
                rest@ == buf@.skip(off),
                ignore_rest == (seen is Some),
                all == attributes_of(buf@, trans_id@),
                (all.0 is OutOfBounds) == (attributes_from(
                    buf@,
                    trans_id@,
                    off,
                    seen,
                ).0 is OutOfBounds),
            decreases rest@.len(),
        {
            let ghost from = attributes_from(buf@, trans_id@, off, seen);
            if rest.len() < 4 {
                return false;
            }
            let typ: u16 = octets::read_u16(rest, 0);
            let len: usize = octets::read_u16(rest, 2) as usize;
            if len > rest.len() - 4 {
                return true;
            }
            if !ignore_rest || typ == 0x8028 {
                if Self::overruns(rest, typ, len, trans_id) {
                    return false;
                }
                match Attribute::decode(rest, typ, len, trans_id) {
                    None => {
                        return true;
                    },
                    Some(_) => {
                        if typ == 0x0008 {
                            ignore_rest = true;
                            proof {
                                seen = Some(off);
                            }
                        }
                    },
                }
            }
            let pad_len: usize = pad(len);
            if rest.len() - 4 < pad_len {
                return false;
            }
            rest = &rest[4 + pad_len..rest.len()];
            proof {
                off = off + 4 + pad_len;
            }
            assert(rest@ =~= buf@.skip(off));
            proof {
                let others = attributes_from(buf@, trans_id@, off, seen);
                assert(from.0 is OutOfBounds == others.0 is OutOfBounds);
            }
        }
        true
    }
}

// Writing.

/// Whether an attribute is one of those that can be written.
pub open spec fn writable(a: AttributeView) -> bool {
    a is Username || a is IceControlled || a is MessageIntegrityMark || a is FingerprintMark
}

/// The bytes of an attribute. The value of a mark is zero: it is filled in later. A string is
/// followed by one to four zeros, up to a 32-bit boundary.
pub open spec fn encoded(a: AttributeView) -> Seq<u8> {
    match a {
        AttributeView::Username(s) => {
            let value = utf8::encode_utf8(s);
            octets::u16_bytes(0x0006) + octets::u16_bytes(value.len() as int) + value
                + octets::zeros((4 - value.len() % 4) as nat)
        },
        AttributeView::IceControlled(v) => octets::u16_bytes(0x8029) + octets::u16_bytes(8)
            + octets::u64_bytes(v as int),
        AttributeView::MessageIntegrityMark => octets::u16_bytes(0x0008) + octets::u16_bytes(20)
            + octets::zeros(20),
        AttributeView::FingerprintMark => octets::u16_bytes(0x8028) + octets::u16_bytes(4)
            + octets::zeros(4),
        _ => Seq::empty(),
    }
}

/// The bytes of a list of attributes.
pub open spec fn encoded_all(attrs: Seq<AttributeView>) -> Seq<u8>
    decreases attrs.len(),
{
    if attrs.len() == 0 {
        Seq::empty()
    } else {
        encoded_all(attrs.drop_last()) + encoded(attrs.last())
    }
}

/// The place of the last attribute that is `mark`, counted from `start`, where the first attribute
/// is; zero where there is none.
pub open spec fn mark_offset(attrs: Seq<AttributeView>, mark: AttributeView, start: int) -> int
    decreases attrs.len(),
{
    if attrs.len() == 0 {
        0
    } else if attrs.last() == mark {
        start + encoded_all(attrs.drop_last()).len()
    } else {
        mark_offset(attrs.drop_last(), mark, start)
    }
}

/// One attribute more adds its bytes.
pub proof fn lemma_encoded_all_push(attrs: Seq<AttributeView>, i: int)
    requires
        0 <= i < attrs.len(),
    ensures
        encoded_all(attrs.take(i + 1)) == encoded_all(attrs.take(i)) + encoded(attrs[i]),
{
    assert(attrs.take(i + 1).drop_last() =~= attrs.take(i));
}

/// The bytes of the first attributes are no more than those of all.
pub proof fn lemma_encoded_all_prefix(attrs: Seq<AttributeView>, i: int)
    requires
        0 <= i <= attrs.len(),
    ensures
        encoded_all(attrs.take(i)).len() <= encoded_all(attrs).len(),
    decreases attrs.len() - i,
{
    if i == attrs.len() {
        assert(attrs.take(i) =~= attrs);
    } else {
        lemma_encoded_all_push(attrs, i);
        lemma_encoded_all_prefix(attrs, i + 1);
    }
}

/// A mark lies within the bytes, where there is one.
pub proof fn lemma_mark_offset(attrs: Seq<AttributeView>, mark: AttributeView, start: int)
    requires
        0 <= start,
    ensures
        mark_offset(attrs, mark, start) == 0 || start <= mark_offset(attrs, mark, start) <= start
            + encoded_all(attrs).len() - encoded(mark).len(),
    decreases attrs.len(),
{
    if attrs.len() > 0 && attrs.last() != mark {
        lemma_mark_offset(attrs.drop_last(), mark, start);
    }
}

/// The bytes of an attribute that can be written are eight at least.
pub proof fn lemma_encoded_len(a: AttributeView)
    requires
        writable(a),
    ensures
        8 <= encoded(a).len(),
        encoded(a).len() % 4 == 0,
{
    broadcast use octets::lemma_u64_bytes_len;

}

impl<'a> Attribute<'a> {
    /// The number of bytes that [`Attribute::to_bytes`] writes.
    pub(crate) fn padded_len(&self) -> (r: usize)
        requires
            writable(self@),
            encoded(self@).len() <= usize::MAX,
        ensures
            r == encoded(self@).len(),
    {
        broadcast use octets::lemma_u64_bytes_len;

        match self {
            Attribute::Username(v) => {
                let n: usize = v.as_bytes().len();
                let pad: usize = 4 - (n % 4);
                4 + (n + pad)
            },
            Attribute::IceControlled(_) => 4 + 8,
            Attribute::MessageIntegrityMark => 4 + 20,
            _ => 4 + 4,
        }
    }

    /// Appends the bytes of this attribute.
    pub(crate) fn to_bytes(&self, vec: &mut Vec<u8>)
        requires
            writable(self@),
        ensures
            final(vec)@ == old(vec)@ + encoded(self@),
    {
        match self {
            Attribute::Username(v) => {
                let value: &[u8] = v.as_bytes();
                let n: usize = value.len();
                octets::append(vec, &octets::u16_to_bytes(0x0006));
                octets::append(vec, &octets::u16_to_bytes((n % 0x1_0000) as u16));
                octets::append(vec, value);
                octets::append_zeros(vec, 4 - (n % 4));
                proof {
                    octets::lemma_u16_bytes_low(n as int);
                }
            },
            Attribute::IceControlled(v) => {
                octets::append(vec, &octets::u16_to_bytes(0x8029));
                octets::append(vec, &octets::u16_to_bytes(8));
                octets::append(vec, &octets::u64_to_bytes(*v));
            },
            Attribute::MessageIntegrityMark => {
                octets::append(vec, &octets::u16_to_bytes(0x0008));
                octets::append(vec, &octets::u16_to_bytes(20));
                octets::append_zeros(vec, 20);
            },
            _ => {
                octets::append(vec, &octets::u16_to_bytes(0x8028));
                octets::append(vec, &octets::u16_to_bytes(4));
                octets::append_zeros(vec, 4);
            },
        }
        assert(vec@ =~= old(vec)@ + encoded(self@));
    }
}

// Finding.

/// The first username among `attrs`.
pub open spec fn first_username(attrs: Seq<AttributeView>) -> Option<Seq<char>>
    decreases attrs.len(),
{
    if attrs.len() == 0 {
        None
    } else {
        match attrs[0] {
            AttributeView::Username(s) => Some(s),
            _ => first_username(attrs.drop_first()),
        }
    }
}

/// A first username is one of the attributes.
pub proof fn lemma_first_username_short(attrs: Seq<AttributeView>)
    requires
        forall|i: int| 0 <= i < attrs.len() ==> within_limits(#[trigger] attrs[i]),
    ensures
        first_username(attrs) matches Some(s) ==> short(s),
    decreases attrs.len(),
{
    if attrs.len() > 0 {
        assert(within_limits(attrs[0]));
        if !(attrs[0] is Username) {
            assert forall|i: int| 0 <= i < attrs.drop_first().len() implies within_limits(
                #[trigger] attrs.drop_first()[i],
            ) by {
                assert(within_limits(attrs[i + 1]));
            }
            lemma_first_username_short(attrs.drop_first());
        }
    }
}

/// The first message integrity among `attrs`.
pub open spec fn first_integrity(attrs: Seq<AttributeView>) -> Option<Seq<u8>>
    decreases attrs.len(),
{
    if attrs.len() == 0 {
        None
    } else {
        match attrs[0] {
            AttributeView::MessageIntegrity(v) => Some(v),
            _ => first_integrity(attrs.drop_first()),
        }
    }
}

/// The two parts of the first username among `attrs`, which is of the form `local:remote`.
pub open spec fn first_local_remote(attrs: Seq<AttributeView>) -> Option<(Seq<char>, Seq<char>)> {
    match first_username(attrs) {
        Some(s) => text::split_at_colon(s),
        None => None,
    }
}

/// Lists of attributes.
pub(crate) trait Attributes<'a> {
    /// What the attributes stand for.
    spec fn attributes(&self) -> Seq<AttributeView>;

    /// The first username.
    fn username(&self) -> (r: Option<&'a str>)
        ensures
            match (r, first_username(self.attributes())) {
                (Some(s), Some(t)) => s@ == t,
                (None, None) => true,
                _ => false,
            },
    ;

    /// The parts of the first username before and after its first colon.
    fn local_remote(&self) -> (r: Option<(&'a str, &'a str)>)
        ensures
            match (r, first_local_remote(self.attributes())) {
                (Some(p), Some(q)) => p.0@ == q.0 && p.1@ == q.1,
                (None, None) => true,
                _ => false,
            },
    ;

    /// The first message integrity.
    fn message_integrity(&self) -> (r: Option<&'a [u8]>)
        ensures
            match (r, first_integrity(self.attributes())) {
                (Some(s), Some(t)) => s@ == t,
                (None, None) => true,
                _ => false,
            },
    ;
}

impl<'a> Attributes<'a> for Vec<Attribute<'a>> {
    open spec fn attributes(&self) -> Seq<AttributeView> {
        views(self@)
    }

    fn username(&self) -> (r: Option<&'a str>) {
        let ghost all = views(self@);
        let mut i: usize = 0;
        assert(all.skip(0) =~= all);
        while i < self.len()
            invariant
                i <= self@.len(),
                all == views(self@),
                first_username(all) == first_username(all.skip(i as int)),
            decreases self@.len() - i,
        {
            assert(all.skip(i as int).drop_first() =~= all.skip(i + 1));
            if let Attribute::Username(v) = &self[i] {
                return Some(*v);
            }
            i = i + 1;
        }
        None
    }

    fn local_remote(&self) -> (r: Option<(&'a str, &'a str)>) {
        match self.username() {
            Some(v) => text::split_str(v),
            None => None,
        }
    }

    fn message_integrity(&self) -> (r: Option<&'a [u8]>) {
        let ghost all = views(self@);
        let mut i: usize = 0;
        assert(all.skip(0) =~= all);
        while i < self.len()
            invariant
                i <= self@.len(),
                all == views(self@),
                first_integrity(all) == first_integrity(all.skip(i as int)),
            decreases self@.len() - i,
        {
            assert(all.skip(i as int).drop_first() =~= all.skip(i + 1));
            if let Attribute::MessageIntegrity(v) = &self[i] {
                return Some(*v);
            }
            i = i + 1;
        }
        None
    }
}

} // verus!
