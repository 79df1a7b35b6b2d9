//! Writing and reading back.

use vstd::prelude::*;
use vstd::utf8;

use crate::attribute;
use crate::attribute::AttributeView;
use crate::header;
use crate::header::{Class, Method, MAGIC};
use crate::laws;
use crate::message;
use crate::message::MessageView;
use crate::octets;
use crate::outcome::Outcome;
use crate::outside;
use crate::util;

verus! {

/// The attributes of an answer as they are read. Where the username's bytes end on a 32-bit
/// boundary, the four zeros written behind them are read as an attribute of type zero.
pub open spec fn attributes_read(
    name: Seq<char>,
    tie_breaker: u64,
    hmac: Seq<u8>,
    crc: u32,
) -> Seq<AttributeView> {
    let filler = if utf8::encode_utf8(name).len() % 4 == 0 {
        seq![AttributeView::Unknown(0)]
    } else {
        Seq::empty()
    };
    seq![AttributeView::Username(name)] + filler + seq![
        AttributeView::IceControlled(tie_breaker),
        AttributeView::MessageIntegrity(hmac),
        AttributeView::Fingerprint(crc),
    ]
}

/// The bytes of a message.
#[verifier::opaque]
spec fn written(m: MessageView, key: Seq<u8>) -> Seq<u8> {
    message::message_bytes(m, key)
}

/// The message in a buffer.
#[verifier::opaque]
spec fn read(buf: Seq<u8>) -> Outcome<MessageView> {
    message::message_of(buf)
}

/// The attributes of a message's body.
#[verifier::opaque]
spec fn body_read(body: Seq<u8>, trans_id: Seq<u8>) -> (Outcome<Seq<AttributeView>>, Option<int>) {
    attribute::attributes_of(body, trans_id)
}

/// Filling in the three gaps of a message that ends with the two marks.
proof fn lemma_fill_gaps(
    typ: Seq<u8>,
    len0: Seq<u8>,
    len1: Seq<u8>,
    magic: Seq<u8>,
    trans_id: Seq<u8>,
    u: Seq<u8>,
    i: Seq<u8>,
    m0: Seq<u8>,
    gap20: Seq<u8>,
    hmac: Seq<u8>,
    f0: Seq<u8>,
    gap4: Seq<u8>,
    crc: Seq<u8>,
)
    requires
        typ.len() == 2,
        len0.len() == 2,
        len1.len() == 2,
        magic.len() == 4,
        trans_id.len() == 12,
        m0.len() == 4,
        gap20.len() == 20,
        hmac.len() == 20,
        f0.len() == 4,
        gap4.len() == 4,
        crc.len() == 4,
    ensures
        ({
            let at = (20 + u.len() + i.len()) as int;
            let front = typ + len0 + magic + trans_id + u + i;
            let plain = (typ + len0 + magic + trans_id) + (u + i + (m0 + gap20) + (f0 + gap4));
            let covered = typ + len1 + magic + trans_id + u + i + (m0 + hmac);
            let sealed = octets::splice(octets::splice(plain, at + 4, hmac), 2, len1);
            &&& plain.take(at) == front
            &&& sealed == covered + (f0 + gap4)
            &&& sealed.take(at + 24) == covered
            &&& octets::splice(sealed, at + 28, crc) == covered + (f0 + crc)
        }),
{
    let at = (20 + u.len() + i.len()) as int;
    let front = typ + len0 + magic + trans_id + u + i;
    let plain = (typ + len0 + magic + trans_id) + (u + i + (m0 + gap20) + (f0 + gap4));
    let covered = typ + len1 + magic + trans_id + u + i + (m0 + hmac);
    assert(plain.take(at) =~= front);
    let one = octets::splice(plain, at + 4, hmac);
    assert(one =~= front + (m0 + hmac) + (f0 + gap4));
    let sealed = octets::splice(one, 2, len1);
    assert(sealed =~= covered + (f0 + gap4));
    assert(sealed.take(at + 24) =~= covered);
    assert(octets::splice(sealed, at + 28, crc) =~= covered + (f0 + crc));
}

/// The four attributes of an answer, as bytes.
proof fn lemma_reply_layout(r: MessageView, name: Seq<char>, tie_breaker: u64)
    requires
        r.attrs == seq![
            AttributeView::Username(name),
            AttributeView::IceControlled(tie_breaker),
            AttributeView::MessageIntegrityMark,
            AttributeView::FingerprintMark,
        ],
    ensures
        ({
            let u = attribute::encoded(r.attrs[0]);
            let i = attribute::encoded(r.attrs[1]);
            let m = attribute::encoded(r.attrs[2]);
            let f = attribute::encoded(r.attrs[3]);
            &&& attribute::encoded_all(r.attrs) == u + i + m + f
            &&& attribute::mark_offset(r.attrs, AttributeView::MessageIntegrityMark, 20) == 20
                + u.len() + i.len()
            &&& attribute::mark_offset(r.attrs, AttributeView::FingerprintMark, 20) == 20 + u.len()
                + i.len() + m.len()
        }),
{
    let a3 = r.attrs.drop_last();
    let a2 = a3.drop_last();
    let a1 = a2.drop_last();
    reveal_with_fuel(attribute::encoded_all, 5);
    reveal_with_fuel(attribute::mark_offset, 5);
    assert(a1.drop_last() =~= Seq::empty());
    assert(attribute::encoded_all(a1) =~= attribute::encoded(r.attrs[0]));
}

/// The bytes of an answer, part by part.
proof fn lemma_reply_bytes(r: MessageView, name: Seq<char>, tie_breaker: u64, key: Seq<u8>)
    requires
        r.trans_id.len() == 12,
        r.attrs == seq![
            AttributeView::Username(name),
            AttributeView::IceControlled(tie_breaker),
            AttributeView::MessageIntegrityMark,
            AttributeView::FingerprintMark,
        ],
    ensures
        ({
            let u = attribute::encoded(r.attrs[0]);
            let i = attribute::encoded(r.attrs[1]);
            let len = (u + i).len() + 32;
            let front = message::header_bytes(r, len - 8) + u + i;
            let hmac = util::hmac_sha1_of(key, front);
            let m = octets::u16_bytes(0x0008) + octets::u16_bytes(20) + hmac;
            let covered = message::header_bytes(r, len as int) + u + i + m;
            let crc = outside::crc32_iso_hdlc(covered) ^ 0x5354_554e;
            let f = octets::u16_bytes(0x8028) + octets::u16_bytes(4) + octets::u32_bytes(
                crc as int,
            );
            written(r, key) == covered + f
        }),
{
    broadcast use octets::lemma_u32_bytes_len;

    reveal(written);
    lemma_reply_layout(r, name, tie_breaker);
    let u = attribute::encoded(r.attrs[0]);
    let i = attribute::encoded(r.attrs[1]);
    let m0 = octets::u16_bytes(0x0008) + octets::u16_bytes(20);
    let f0 = octets::u16_bytes(0x8028) + octets::u16_bytes(4);
    let body = attribute::encoded_all(r.attrs);
    let len = body.len() as int;
    let head = message::header_bytes(r, len - 8);
    let new_head = message::header_bytes(r, len);
    let front = head + u + i;
    let hmac = util::hmac_sha1_of(key, front);
    util::lemma_hmac_sha1_len(key, front);
    let typ = octets::u16_bytes((r.class.bits() | r.method.bits()) as int);
    let covered = new_head + u + i + (m0 + hmac);
    let crc = octets::u32_bytes((outside::crc32_iso_hdlc(covered) ^ 0x5354_554e) as int);
    lemma_fill_gaps(
        typ,
        octets::u16_bytes(len - 8),
        octets::u16_bytes(len),
        MAGIC@,
        r.trans_id,
        u,
        i,
        m0,
        octets::zeros(20),
        hmac,
        f0,
        octets::zeros(4),
        crc,
    );
}

/// The attribute of type `typ` with the value `value`, as it is read at `off`.
proof fn lemma_read_one(
    body: Seq<u8>,
    off: int,
    typ: int,
    value: Seq<u8>,
    pad: Seq<u8>,
    tail: Seq<u8>,
)
    requires
        0 <= off <= body.len(),
        0 <= typ < 0x1_0000,
        value.len() < 0x1_0000,
        pad.len() == attribute::padded(value.len() as int) - value.len(),
        body.skip(off) == octets::u16_bytes(typ) + octets::u16_bytes(value.len() as int) + value
            + pad + tail,
    ensures
        ({
            let rest = body.skip(off);
            let next = off + 4 + attribute::padded(value.len() as int);
            &&& off < body.len()
            &&& 4 + value.len() <= rest.len()
            &&& octets::u16_at(rest, 0) == typ
            &&& octets::u16_at(rest, 2) == value.len()
            &&& rest.subrange(4, 4 + value.len() as int) == value
            &&& next <= body.len()
            &&& body.skip(next) == tail
        }),
{
    let rest = body.skip(off);
    let t = octets::u16_bytes(typ);
    let l = octets::u16_bytes(value.len() as int);
    octets::lemma_u16_round_trip(typ);
    octets::lemma_u16_round_trip(value.len() as int);
    assert(rest[0] == t[0] && rest[1] == t[1] && rest[2] == l[0] && rest[3] == l[1]);
    assert(rest.subrange(4, 4 + value.len() as int) =~= value);
    let k = 4 + value.len() + pad.len();
    assert(rest.len() == k + tail.len());
    assert(rest.skip(k as int) =~= tail);
    assert(body.skip(off + k) =~= rest.skip(k as int));
}

/// One attribute in front of others.
spec fn in_front(typ: int, value: Seq<u8>, pad: Seq<u8>, tail: Seq<u8>) -> Seq<u8> {
    octets::u16_bytes(typ) + octets::u16_bytes(value.len() as int) + value + pad + tail
}

/// An attribute and then the others are read.
proof fn lemma_read_step(
    body: Seq<u8>,
    trans_id: Seq<u8>,
    off: int,
    integrity: Option<int>,
    typ: int,
    value: Seq<u8>,
    pad: Seq<u8>,
    tail: Seq<u8>,
    first: AttributeView,
    attrs: Seq<AttributeView>,
    at: Option<int>,
)
    requires
        0 <= off <= body.len(),
        0 <= typ < 0x1_0000,
        value.len() < 0x1_0000,
        pad.len() == attribute::padded(value.len() as int) - value.len(),
        body.skip(off) == in_front(typ, value, pad, tail),
        integrity is None || typ == 0x8028,
        attribute::attribute_at(body.skip(off), trans_id) == Outcome::Decoded(Some(first)),
        attribute::attributes_from(
            body,
            trans_id,
            off + 4 + value.len() + pad.len(),
            if typ == 0x0008 {
                Some(off)
            } else {
                integrity
            },
        ) == (Outcome::Decoded(attrs), at),
    ensures
        attribute::attributes_from(body, trans_id, off, integrity) == (
            Outcome::Decoded(seq![first] + attrs),
            at,
        ),
{
    lemma_read_one(body, off, typ, value, pad, tail);
}

/// What is read from the fingerprint on.
proof fn lemma_read_fingerprint(
    body: Seq<u8>,
    trans_id: Seq<u8>,
    off: int,
    integrity: Option<int>,
    crc: u32,
)
    requires
        0 <= off <= body.len(),
        body.skip(off) == in_front(
            0x8028,
            octets::u32_bytes(crc as int),
            Seq::empty(),
            Seq::empty(),
        ),
    ensures
        attribute::attributes_from(body, trans_id, off, integrity) == (
            Outcome::Decoded(seq![AttributeView::Fingerprint(crc)]),
            integrity,
        ),
{
    broadcast use octets::lemma_u32_bytes_len;

    let sum = octets::u32_bytes(crc as int);
    let none = Seq::<u8>::empty();
    let first = AttributeView::Fingerprint(crc);
    let attrs = Seq::<AttributeView>::empty();
    assert(body.len() == off + body.skip(off).len());
    assert(body.len() == off + 8);
    assert(attribute::attributes_from(body, trans_id, off + 8, integrity) == (
        Outcome::Decoded(attrs),
        integrity,
    ));
    assert(attribute::attribute_at(body.skip(off), trans_id) == Outcome::Decoded(Some(first))) by {
        lemma_read_one(body, off, 0x8028, sum, none, none);
        reveal(attribute::attribute_at);
        octets::lemma_u32_round_trip(crc as int);
        octets::lemma_u32_at_shift(body.skip(off), 4, sum);
    }
    lemma_read_step(
        body,
        trans_id,
        off,
        integrity,
        0x8028,
        sum,
        none,
        none,
        first,
        attrs,
        integrity,
    );
    assert(seq![first] + attrs =~= seq![first]);
}

/// What is read from the message integrity on.
proof fn lemma_read_integrity(
    body: Seq<u8>,
    trans_id: Seq<u8>,
    off: int,
    hmac: Seq<u8>,
    crc: u32,
    tail: Seq<u8>,
)
    requires
        0 <= off <= body.len(),
        hmac.len() == 20,
        body.skip(off) == in_front(0x0008, hmac, Seq::empty(), tail),
        tail == in_front(0x8028, octets::u32_bytes(crc as int), Seq::empty(), Seq::empty()),
    ensures
        attribute::attributes_from(body, trans_id, off, None) == (
            Outcome::Decoded(
                seq![AttributeView::MessageIntegrity(hmac), AttributeView::Fingerprint(crc)],
            ),
            Some(off),
        ),
{
    let none = Seq::<u8>::empty();
    let first = AttributeView::MessageIntegrity(hmac);
    let attrs = seq![AttributeView::Fingerprint(crc)];
    lemma_read_one(body, off, 0x0008, hmac, none, tail);
    lemma_read_fingerprint(body, trans_id, off + 24, Some(off), crc);
    assert(attribute::attribute_at(body.skip(off), trans_id) == Outcome::Decoded(Some(first))) by {
        reveal(attribute::attribute_at);
    }
    lemma_read_step(
        body,
        trans_id,
        off,
        None,
        0x0008,
        hmac,
        none,
        tail,
        first,
        attrs,
        Some(off),
    );
    assert(seq![first] + attrs =~= seq![first, attrs[0]]);
}

/// The tie breaker is read back.
proof fn lemma_tie_breaker_at(rest: Seq<u8>, trans_id: Seq<u8>, tie_breaker: u64)
    requires
        octets::u16_at(rest, 0) == 0x8029,
        octets::u16_at(rest, 2) == 8,
        rest.subrange(4, 12) == octets::u64_bytes(tie_breaker as int),
    ensures
        attribute::attribute_at(rest, trans_id) == Outcome::Decoded(
            Some(AttributeView::IceControlled(tie_breaker)),
        ),
{
    octets::lemma_u64_round_trip(tie_breaker as int);
    let n = octets::u64_at(rest.subrange(4, 12), 0);
    assert(n == tie_breaker);
    reveal(attribute::attribute_at);
}

/// What is read from the tie breaker on.
proof fn lemma_read_tie_breaker(
    body: Seq<u8>,
    trans_id: Seq<u8>,
    off: int,
    tie_breaker: u64,
    hmac: Seq<u8>,
    crc: u32,
    tail: Seq<u8>,
    tail2: Seq<u8>,
)
    requires
        0 <= off <= body.len(),
        hmac.len() == 20,
        body.skip(off) == in_front(
            0x8029,
            octets::u64_bytes(tie_breaker as int),
            Seq::empty(),
            tail,
        ),
        tail == in_front(0x0008, hmac, Seq::empty(), tail2),
        tail2 == in_front(0x8028, octets::u32_bytes(crc as int), Seq::empty(), Seq::empty()),
    ensures
        attribute::attributes_from(body, trans_id, off, None) == (
            Outcome::Decoded(
                seq![
                    AttributeView::IceControlled(tie_breaker),
                    AttributeView::MessageIntegrity(hmac),
                    AttributeView::Fingerprint(crc),
                ],
            ),
            Some(off + 12),
        ),
{
    broadcast use octets::lemma_u64_bytes_len;

    let none = Seq::<u8>::empty();
    let value = octets::u64_bytes(tie_breaker as int);
    let first = AttributeView::IceControlled(tie_breaker);
    let attrs = seq![AttributeView::MessageIntegrity(hmac), AttributeView::Fingerprint(crc)];
    lemma_read_one(body, off, 0x8029, value, none, tail);
    lemma_read_integrity(body, trans_id, off + 12, hmac, crc, tail2);
    lemma_tie_breaker_at(body.skip(off), trans_id, tie_breaker);
    lemma_read_step(
        body,
        trans_id,
        off,
        None,
        0x8029,
        value,
        none,
        tail,
        first,
        attrs,
        Some(off + 12),
    );
    assert(seq![first] + attrs =~= seq![first, attrs[0], attrs[1]]);
}

/// A username in front of attributes that are read.
proof fn lemma_read_username(
    body: Seq<u8>,
    trans_id: Seq<u8>,
    name: Seq<char>,
    gap: Seq<u8>,
    tail: Seq<u8>,
    attrs: Seq<AttributeView>,
    at: Option<int>,
)
    requires
        attribute::short(name),
        gap.len() == attribute::padded(utf8::encode_utf8(name).len() as int) - utf8::encode_utf8(
            name,
        ).len(),
        body == in_front(0x0006, utf8::encode_utf8(name), gap, tail),
        attribute::attributes_from(
            body,
            trans_id,
            4 + utf8::encode_utf8(name).len() as int + gap.len(),
            None,
        ) == (Outcome::Decoded(attrs), at),
    ensures
        attribute::attributes_from(body, trans_id, 0, None) == (
            Outcome::Decoded(seq![AttributeView::Username(name)] + attrs),
            at,
        ),
{
    let value = utf8::encode_utf8(name);
    let user = AttributeView::Username(name);
    assert(body.skip(0) =~= body);
    utf8::encode_utf8_valid_utf8(name);
    utf8::encode_utf8_decode_utf8(name);
    lemma_read_one(body, 0, 0x0006, value, gap, tail);
    assert(attribute::attribute_at(body, trans_id) == Outcome::Decoded(Some(user))) by {
        reveal(attribute::attribute_at);
    }
    lemma_read_step(body, trans_id, 0, None, 0x0006, value, gap, tail, user, attrs, at);
}

/// Four zeros in front of attributes that are read.
proof fn lemma_read_filler(
    body: Seq<u8>,
    trans_id: Seq<u8>,
    off: int,
    tail: Seq<u8>,
    attrs: Seq<AttributeView>,
    at: Option<int>,
)
    requires
        0 <= off <= body.len(),
        body.skip(off) == in_front(0, Seq::empty(), Seq::empty(), tail),
        attribute::attributes_from(body, trans_id, off + 4, None) == (Outcome::Decoded(attrs), at),
    ensures
        attribute::attributes_from(body, trans_id, off, None) == (
            Outcome::Decoded(seq![AttributeView::Unknown(0)] + attrs),
            at,
        ),
{
    let none = Seq::<u8>::empty();
    let filler = AttributeView::Unknown(0);
    lemma_read_one(body, off, 0, none, none, tail);
    assert(attribute::attribute_at(body.skip(off), trans_id) == Outcome::Decoded(Some(filler))) by {
        reveal(attribute::attribute_at);
    }
    lemma_read_step(body, trans_id, off, None, 0, none, none, tail, filler, attrs, at);
}

/// The attributes that are read of an answer's body, and where its message integrity is.
proof fn lemma_read_reply(
    body: Seq<u8>,
    trans_id: Seq<u8>,
    name: Seq<char>,
    tie_breaker: u64,
    hmac: Seq<u8>,
    crc: u32,
)
    requires
        attribute::short(name),
        hmac.len() == 20,
        body == attribute::encoded(AttributeView::Username(name)) + attribute::encoded(
            AttributeView::IceControlled(tie_breaker),
        ) + (octets::u16_bytes(0x0008) + octets::u16_bytes(20) + hmac) + (octets::u16_bytes(0x8028)
            + octets::u16_bytes(4) + octets::u32_bytes(crc as int)),
    ensures
        body_read(body, trans_id) == (
            Outcome::Decoded(attributes_read(name, tie_breaker, hmac, crc)),
            Some(attribute::encoded(AttributeView::Username(name)).len() as int + 12),
        ),
{
    broadcast use {octets::lemma_u32_bytes_len, octets::lemma_u64_bytes_len};

    reveal(body_read);
    let value = utf8::encode_utf8(name);
    let n = value.len() as int;
    let a = 8 + n - n % 4;
    let none = Seq::<u8>::empty();
    let tail4 = in_front(0x8028, octets::u32_bytes(crc as int), none, none);
    let tail3 = in_front(0x0008, hmac, none, tail4);
    let tail2 = in_front(0x8029, octets::u64_bytes(tie_breaker as int), none, tail3);
    let gap = octets::zeros((4 - n % 4) as nat);
    let others = seq![
        AttributeView::IceControlled(tie_breaker),
        AttributeView::MessageIntegrity(hmac),
        AttributeView::Fingerprint(crc),
    ];
    let user = AttributeView::Username(name);
    assert(body =~= in_front(0x0006, value, gap, tail2));
    assert(body.skip(a) =~= tail2);
    lemma_read_tie_breaker(body, trans_id, a, tie_breaker, hmac, crc, tail3, tail4);
    if n % 4 == 0 {
        let tail1 = in_front(0, none, none, tail2);
        let filler = AttributeView::Unknown(0);
        assert(gap =~= octets::u16_bytes(0) + octets::u16_bytes(0));
        assert(body =~= in_front(0x0006, value, none, tail1));
        assert(body.skip(a - 4) =~= tail1);
        lemma_read_filler(body, trans_id, a - 4, tail2, others, Some(a + 12));
        lemma_read_username(
            body,
            trans_id,
            name,
            none,
            tail1,
            seq![filler] + others,
            Some(a + 12),
        );
        assert(seq![user] + (seq![filler] + others) =~= attributes_read(
            name,
            tie_breaker,
            hmac,
            crc,
        ));
    } else {
        lemma_read_username(body, trans_id, name, gap, tail2, others, Some(a + 12));
        assert(seq![user] + others =~= attributes_read(name, tie_breaker, hmac, crc));
    }
}

/// What is read of the bytes of one attribute. The value of a mark is zero. Where the bytes of a
/// username end on a 32-bit boundary, the four zeros written behind them are read as an attribute
/// of type zero.
pub open spec fn attribute_read(a: AttributeView) -> Seq<AttributeView> {
    match a {
        AttributeView::Username(s) => if utf8::encode_utf8(s).len() % 4 == 0 {
            seq![a, AttributeView::Unknown(0)]
        } else {
            seq![a]
        },
        AttributeView::MessageIntegrityMark => seq![
            AttributeView::MessageIntegrity(octets::zeros(20)),
        ],
        AttributeView::FingerprintMark => seq![AttributeView::Fingerprint(0)],
        _ => seq![a],
    }
}

/// The parts of an attribute with nothing behind it.
proof fn lemma_alone(typ: int, value: Seq<u8>)
    requires
        0 <= typ < 0x1_0000,
        value.len() < 0x1_0000,
    ensures
        ({
            let body = octets::u16_bytes(typ) + octets::u16_bytes(value.len() as int) + value;
            &&& octets::u16_at(body, 0) == typ
            &&& octets::u16_at(body, 2) == value.len()
            &&& body.subrange(4, 4 + value.len() as int) == value
        }),
{
    let t = octets::u16_bytes(typ);
    let l = octets::u16_bytes(value.len() as int);
    let body = t + l + value;
    octets::lemma_u16_round_trip(typ);
    octets::lemma_u16_round_trip(value.len() as int);
    assert(body[0] == t[0] && body[1] == t[1] && body[2] == l[0] && body[3] == l[1]);
    assert(body.subrange(4, 4 + value.len() as int) =~= value);
}

/// One attribute with nothing behind it is read.
proof fn lemma_read_alone(
    body: Seq<u8>,
    trans_id: Seq<u8>,
    typ: int,
    value: Seq<u8>,
    first: AttributeView,
)
    requires
        0 <= typ < 0x1_0000,
        value.len() < 0x1_0000,
        value.len() % 4 == 0,
        body == octets::u16_bytes(typ) + octets::u16_bytes(value.len() as int) + value,
        attribute::attribute_at(body, trans_id) == Outcome::Decoded(Some(first)),
    ensures
        attribute::attributes_of(body, trans_id) == (
            Outcome::Decoded(seq![first]),
            if typ == 0x0008 {
                Some(0int)
            } else {
                None
            },
        ),
{
    let none = Seq::<u8>::empty();
    let attrs = Seq::<AttributeView>::empty();
    let at = if typ == 0x0008 {
        Some(0int)
    } else {
        None
    };
    assert(body.skip(0) =~= body);
    assert(body =~= in_front(typ, value, none, none));
    assert(body.len() == 4 + value.len());
    assert(attribute::attributes_from(body, trans_id, 4 + value.len() as int, at) == (
        Outcome::Decoded(attrs),
        at,
    ));
    lemma_read_step(body, trans_id, 0, None, typ, value, none, none, first, attrs, at);
    assert(seq![first] + attrs =~= seq![first]);
}

/// A written username is read back.
proof fn lemma_username_reads_back(name: Seq<char>, trans_id: Seq<u8>)
    requires
        attribute::short(name),
    ensures
        attribute::attributes_of(attribute::encoded(AttributeView::Username(name)), trans_id) == (
            Outcome::Decoded(attribute_read(AttributeView::Username(name))),
            None::<int>,
        ),
{
    let user = AttributeView::Username(name);
    let body = attribute::encoded(user);
    let value = utf8::encode_utf8(name);
    let n = value.len() as int;
    let none = Seq::<u8>::empty();
    let gap = octets::zeros((4 - n % 4) as nat);
    let nothing = Seq::<AttributeView>::empty();
    let end = body.len() as int;
    assert(end == 8 + n - n % 4);
    assert(attribute::attributes_from(body, trans_id, end, None) == (
        Outcome::Decoded(nothing),
        None::<int>,
    ));
    if n % 4 == 0 {
        let filler = AttributeView::Unknown(0);
        let tail = in_front(0, none, none, none);
        assert(gap =~= octets::u16_bytes(0) + octets::u16_bytes(0));
        assert(body =~= in_front(0x0006, value, none, tail));
        assert(body.skip(end - 4) =~= tail);
        lemma_read_filler(body, trans_id, end - 4, none, nothing, None);
        lemma_read_username(body, trans_id, name, none, tail, seq![filler] + nothing, None);
        assert(seq![user] + (seq![filler] + nothing) =~= attribute_read(user));
    } else {
        assert(body =~= in_front(0x0006, value, gap, none));
        lemma_read_username(body, trans_id, name, gap, none, nothing, None);
        assert(seq![user] + nothing =~= attribute_read(user));
    }
}

/// A written tie breaker is read back.
proof fn lemma_tie_breaker_reads_back(tie_breaker: u64, trans_id: Seq<u8>)
    ensures
        attribute::attributes_of(
            attribute::encoded(AttributeView::IceControlled(tie_breaker)),
            trans_id,
        ) == (Outcome::Decoded(seq![AttributeView::IceControlled(tie_breaker)]), None::<int>),
{
    let first = AttributeView::IceControlled(tie_breaker);
    let body = attribute::encoded(first);
    let value = octets::u64_bytes(tie_breaker as int);
    octets::lemma_u64_bytes_len(tie_breaker as int);
    lemma_alone(0x8029, value);
    lemma_tie_breaker_at(body, trans_id, tie_breaker);
    lemma_read_alone(body, trans_id, 0x8029, value, first);
}

/// A written mark of the message integrity is read as one that is zero.
proof fn lemma_integrity_mark_reads_back(trans_id: Seq<u8>)
    ensures
        attribute::attributes_of(
            attribute::encoded(AttributeView::MessageIntegrityMark),
            trans_id,
        ) == (
            Outcome::Decoded(seq![AttributeView::MessageIntegrity(octets::zeros(20))]),
            Some(0int),
        ),
{
    let value = octets::zeros(20);
    let first = AttributeView::MessageIntegrity(value);
    let body = attribute::encoded(AttributeView::MessageIntegrityMark);
    lemma_alone(0x0008, value);
    assert(attribute::attribute_at(body, trans_id) == Outcome::Decoded(Some(first))) by {
        reveal(attribute::attribute_at);
    }
    lemma_read_alone(body, trans_id, 0x0008, value, first);
}

/// A written mark of the fingerprint is read as one that is zero.
proof fn lemma_fingerprint_mark_reads_back(trans_id: Seq<u8>)
    ensures
        attribute::attributes_of(attribute::encoded(AttributeView::FingerprintMark), trans_id) == (
            Outcome::Decoded(seq![AttributeView::Fingerprint(0)]),
            None::<int>,
        ),
{
    let body = attribute::encoded(AttributeView::FingerprintMark);
    let none = Seq::<u8>::empty();
    assert(octets::zeros(4) =~= octets::u32_bytes(0)) by {
        reveal(octets::u32_bytes);
    }
    assert(body.skip(0) =~= in_front(0x8028, octets::u32_bytes(0), none, none));
    lemma_read_fingerprint(body, trans_id, 0, None, 0);
}

/// A written attribute is read back.
pub proof fn law_attribute_reads_back(a: AttributeView, trans_id: Seq<u8>)
    requires
        attribute::writable(a),
        attribute::within_limits(a),
    ensures
        attribute::attributes_of(attribute::encoded(a), trans_id) == (
            Outcome::Decoded(attribute_read(a)),
            if a is MessageIntegrityMark {
                Some(0int)
            } else {
                None
            },
        ),
{
    match a {
        AttributeView::Username(name) => {
            lemma_username_reads_back(name, trans_id);
        },
        AttributeView::IceControlled(tie_breaker) => {
            lemma_tie_breaker_reads_back(tie_breaker, trans_id);
        },
        AttributeView::MessageIntegrityMark => {
            lemma_integrity_mark_reads_back(trans_id);
        },
        _ => {
            lemma_fingerprint_mark_reads_back(trans_id);
        },
    }
}

/// The header of a message is read back.
proof fn lemma_read_header(m: MessageView, len: int, body: Seq<u8>)
    requires
        m.class != Class::Unknown,
        m.method != Method::Unknown,
        m.trans_id.len() == 12,
        0 <= len < 0x1_0000,
    ensures
        ({
            let buf = message::header_bytes(m, len) + body;
            &&& header::class_of(message::type_of(buf)) == m.class
            &&& header::method_of(message::type_of(buf)) == m.method
            &&& octets::u16_at(buf, 2) == len
            &&& buf.subrange(4, 8) == MAGIC@
            &&& buf.subrange(8, 20) == m.trans_id
            &&& buf.skip(20) == body
        }),
{
    let buf = message::header_bytes(m, len) + body;
    let typ = m.class.bits() | m.method.bits();
    laws::law_type_round_trip(m.class, m.method);
    octets::lemma_u16_round_trip(len);
    octets::lemma_u16_round_trip(typ as int);
    let t = octets::u16_bytes(typ as int);
    let l = octets::u16_bytes(len);
    assert(buf[0] == t[0] && buf[1] == t[1] && buf[2] == l[0] && buf[3] == l[1]);
    assert(t[0] < 64);
    assert(message::type_of(buf) == typ);
    assert(buf.subrange(4, 8) =~= MAGIC@);
    assert(buf.subrange(8, 20) =~= m.trans_id);
    assert(buf.skip(20) =~= body);
}

/// A header with another length.
proof fn lemma_relength(
    typ: Seq<u8>,
    len0: Seq<u8>,
    len1: Seq<u8>,
    magic: Seq<u8>,
    trans_id: Seq<u8>,
    body: Seq<u8>,
)
    requires
        typ.len() == 2,
        len0.len() == 2,
        len1.len() == 2,
    ensures
        octets::splice((typ + len0 + magic + trans_id) + body, 2, len1) == (typ + len1 + magic
            + trans_id) + body,
{
    assert(octets::splice((typ + len0 + magic + trans_id) + body, 2, len1) =~= (typ + len1 + magic
        + trans_id) + body);
}

/// A message whose attributes are known is read.
proof fn lemma_read_message(
    m: MessageView,
    body: Seq<u8>,
    attrs: Seq<AttributeView>,
    off: int,
)
    requires
        m.class != Class::Unknown,
        m.method != Method::Unknown,
        m.trans_id.len() == 12,
        body.len() < 0x1_0000,
        body.len() % 4 == 0,
        0 < off,
        off + 24 <= body.len(),
        body_read(body, m.trans_id) == (Outcome::Decoded(attrs), Some(off)),
    ensures
        read(message::header_bytes(m, body.len() as int) + body)
            == Outcome::Decoded(
            MessageView {
                class: m.class,
                method: m.method,
                trans_id: m.trans_id,
                attrs,
                to_check: (message::header_bytes(m, off + 24) + body).take(off + 20),
            },
        ),
{
    reveal(body_read);
    reveal(read);
    let len = body.len() as int;
    let buf = message::header_bytes(m, len) + body;
    lemma_read_header(m, len, body);
    lemma_relength(
        octets::u16_bytes((m.class.bits() | m.method.bits()) as int),
        octets::u16_bytes(len),
        octets::u16_bytes(off + 24),
        MAGIC@,
        m.trans_id,
        body,
    );
}

/// The parts of a message, grouped otherwise.
proof fn lemma_regroup(head: Seq<u8>, u: Seq<u8>, i: Seq<u8>, m: Seq<u8>, f: Seq<u8>)
    ensures
        (head + u + i + m) + f == head + (u + i + m + f),
        (head + (u + i + m + f)).take((head.len() + u.len() + i.len() + m.len()) as int) == head + u
            + i + m,
        (head + (u + i + m + f)).take((head.len() + u.len() + i.len()) as int) == head + u + i,
{
    assert((head + u + i + m) + f =~= head + (u + i + m + f));
    assert((head + (u + i + m + f)).take((head.len() + u.len() + i.len() + m.len()) as int) =~= head
        + u + i + m);
    assert((head + (u + i + m + f)).take((head.len() + u.len() + i.len()) as int) =~= head + u + i);
}

/// The username and the message integrity among the attributes that are read of an answer.
proof fn lemma_attributes_read(name: Seq<char>, tie_breaker: u64, hmac: Seq<u8>, crc: u32)
    ensures
        attribute::first_username(attributes_read(name, tie_breaker, hmac, crc)) == Some(name),
        attribute::first_integrity(attributes_read(name, tie_breaker, hmac, crc)) == Some(hmac),
{
    let attrs = attributes_read(name, tie_breaker, hmac, crc);
    reveal_with_fuel(attribute::first_integrity, 5);
    assert(attrs[0] == AttributeView::Username(name));
    let rest = attrs.drop_first();
    if utf8::encode_utf8(name).len() % 4 == 0 {
        assert(rest[0] == AttributeView::Unknown(0));
        assert(rest.drop_first()[0] == AttributeView::IceControlled(tie_breaker));
        assert(rest.drop_first().drop_first()[0] == AttributeView::MessageIntegrity(hmac));
    } else {
        assert(rest[0] == AttributeView::IceControlled(tie_breaker));
        assert(rest.drop_first()[0] == AttributeView::MessageIntegrity(hmac));
    }
}

/// The number of bytes of the first two attributes of an answer.
proof fn lemma_reply_lens(name: Seq<char>, tie_breaker: u64)
    requires
        attribute::short(name),
    ensures
        attribute::encoded(AttributeView::Username(name)).len() <= 136,
        attribute::encoded(AttributeView::Username(name)).len() % 4 == 0,
        attribute::encoded(AttributeView::IceControlled(tie_breaker)).len() == 12,
{
    broadcast use octets::lemma_u64_bytes_len;

}

/// An answer with the attributes `u` and `i`, an integrity and a fingerprint is read.
proof fn lemma_read_sealed(
    a: MessageView,
    u: Seq<u8>,
    i: Seq<u8>,
    m: Seq<u8>,
    f: Seq<u8>,
    attrs: Seq<AttributeView>,
)
    requires
        a.class != Class::Unknown,
        a.method != Method::Unknown,
        a.trans_id.len() == 12,
        u.len() <= 136,
        u.len() % 4 == 0,
        i.len() == 12,
        m.len() == 24,
        f.len() == 8,
        body_read(u + i + m + f, a.trans_id) == (
            Outcome::Decoded(attrs),
            Some(u.len() as int + 12),
        ),
    ensures
        ({
            let len = (u + i).len() + 32;
            let covered = message::header_bytes(a, len as int) + u + i + m;
            &&& (covered + f).take((covered + f).len() - 8) == covered
            &&& read(covered + f) == Outcome::Decoded(
                MessageView {
                    class: a.class,
                    method: a.method,
                    trans_id: a.trans_id,
                    attrs,
                    to_check: message::header_bytes(a, len - 8) + u + i,
                },
            )
        }),
{
    let len = (u + i).len() + 32;
    let body = u + i + m + f;
    let head = message::header_bytes(a, len as int);
    let old_head = message::header_bytes(a, len - 8);
    assert(body.len() == len);
    assert(head.len() == 20 && old_head.len() == 20);
    assert(head + body == head + u + i + m + f && (head + body).take(
        (head + body).len() - 8,
    ) == head + u + i + m && (old_head + body).take(u.len() as int + 32) == old_head + u + i) by {
        lemma_regroup(head, u, i, m, f);
        lemma_regroup(old_head, u, i, m, f);
    }
    lemma_read_message(a, body, attrs, u.len() as int + 12);
}

/// The bytes of an answer, and what is read from them: the bytes to check come back, and those that
/// the fingerprint is taken over.
proof fn lemma_reply_read(a: MessageView, name: Seq<char>, tie_breaker: u64, key: Seq<u8>) -> (r: (
    Seq<u8>,
    Seq<u8>,
))
    requires
        a.class != Class::Unknown,
        a.method != Method::Unknown,
        a.trans_id.len() == 12,
        a.attrs == seq![
            AttributeView::Username(name),
            AttributeView::IceControlled(tie_breaker),
            AttributeView::MessageIntegrityMark,
            AttributeView::FingerprintMark,
        ],
        attribute::short(name),
    ensures
        ({
            let bytes = written(a, key);
            let hmac = util::hmac_sha1_of(key, r.0);
            let crc = outside::crc32_iso_hdlc(r.1) ^ 0x5354_554e;
            &&& bytes.take(bytes.len() - 8) == r.1
            &&& read(bytes) == Outcome::Decoded(
                MessageView {
                    class: a.class,
                    method: a.method,
                    trans_id: a.trans_id,
                    attrs: attributes_read(name, tie_breaker, hmac, crc),
                    to_check: r.0,
                },
            )
        }),
{
    let u = attribute::encoded(AttributeView::Username(name));
    let i = attribute::encoded(AttributeView::IceControlled(tie_breaker));
    lemma_reply_lens(name, tie_breaker);
    let len = (u + i).len() + 32;
    let front = message::header_bytes(a, len - 8) + u + i;
    let hmac = util::hmac_sha1_of(key, front);
    util::lemma_hmac_sha1_len(key, front);
    let mi = octets::u16_bytes(0x0008) + octets::u16_bytes(20) + hmac;
    let covered = message::header_bytes(a, len as int) + u + i + mi;
    let crc = outside::crc32_iso_hdlc(covered) ^ 0x5354_554e;
    let f = octets::u16_bytes(0x8028) + octets::u16_bytes(4) + octets::u32_bytes(crc as int);
    octets::lemma_u32_bytes_len(crc as int);
    lemma_reply_bytes(a, name, tie_breaker, key);
    lemma_read_reply(u + i + mi + f, a.trans_id, name, tie_breaker, hmac, crc);
    lemma_read_sealed(a, u, i, mi, f, attributes_read(name, tie_breaker, hmac, crc));
    (front, covered)
}

/// The attributes that are read of an answer, one by one.
pub proof fn law_attributes_read(name: Seq<char>, tie_breaker: u64, hmac: Seq<u8>, crc: u32)
    ensures
        attributes_read(name, tie_breaker, hmac, crc) == if utf8::encode_utf8(name).len() % 4
            == 0 {
            seq![
                AttributeView::Username(name),
                AttributeView::Unknown(0),
                AttributeView::IceControlled(tie_breaker),
                AttributeView::MessageIntegrity(hmac),
                AttributeView::Fingerprint(crc),
            ]
        } else {
            seq![
                AttributeView::Username(name),
                AttributeView::IceControlled(tie_breaker),
                AttributeView::MessageIntegrity(hmac),
                AttributeView::Fingerprint(crc),
            ]
        },
{
}

/// The bytes of an answer, from the first to the last: a header, the username and one to four
/// zeros, the tie breaker, the keyed digest of all that is before it under a header whose length
/// ends with it, and the checksum of all that is before it.
pub proof fn law_answer_bytes(
    m: MessageView,
    i: int,
    name: Seq<char>,
    tie_breaker: u64,
    key: Seq<u8>,
)
    requires
        m.trans_id.len() == 12,
        0 <= i < m.attrs.len(),
        m.attrs[i] == AttributeView::Username(name),
        forall|j: int| 0 <= j < i ==> !(#[trigger] m.attrs[j] is Username),
    ensures
        ({
            let value = utf8::encode_utf8(name);
            let user = seq![0u8, 6u8] + octets::u16_bytes(value.len() as int) + value + Seq::new(
                (4 - value.len() % 4) as nat,
                |k: int| 0u8,
            );
            let tie = seq![0x80u8, 0x29u8, 0u8, 8u8] + octets::u64_bytes(tie_breaker as int);
            let rest = seq![0x21u8, 0x12u8, 0xA4u8, 0x42u8] + m.trans_id + user + tie;
            let len = user.len() as int + 44;
            let digest = util::hmac_sha1_of(
                key,
                seq![1u8, 1u8] + octets::u16_bytes(len - 8) + rest,
            );
            let covered = seq![1u8, 1u8] + octets::u16_bytes(len) + rest + seq![0u8, 8u8, 0u8, 20u8]
                + digest;
            message::message_bytes(message::reply_of(m, tie_breaker), key) == covered + seq![
                0x80u8,
                0x28u8,
                0u8,
                4u8,
            ] + octets::u32_bytes((outside::crc32_iso_hdlc(covered) ^ 0x5354_554e) as int)
        }),
{
    reveal(written);
    laws::messages::law_first_username(m.attrs, i, name);
    laws::reading::law_type_values();
    octets::lemma_u64_bytes_len(tie_breaker as int);
    let a = message::reply_of(m, tie_breaker);
    lemma_reply_bytes(a, name, tie_breaker, key);
    let value = utf8::encode_utf8(name);
    let user = seq![0u8, 6u8] + octets::u16_bytes(value.len() as int) + value + Seq::new(
        (4 - value.len() % 4) as nat,
        |k: int| 0u8,
    );
    let tie = seq![0x80u8, 0x29u8, 0u8, 8u8] + octets::u64_bytes(tie_breaker as int);
    let rest = seq![0x21u8, 0x12u8, 0xA4u8, 0x42u8] + m.trans_id + user + tie;
    let len = user.len() as int + 44;
    let u = attribute::encoded(a.attrs[0]);
    let t = attribute::encoded(a.attrs[1]);
    assert(u =~= user);
    assert(t =~= tie);
    assert(octets::u16_bytes(0x0101) =~= seq![1u8, 1u8]);
    assert(MAGIC@ =~= seq![0x21u8, 0x12u8, 0xA4u8, 0x42u8]);
    let front = seq![1u8, 1u8] + octets::u16_bytes(len - 8) + rest;
    assert(message::header_bytes(a, len - 8) + u + t =~= front);
    let digest = util::hmac_sha1_of(key, front);
    let mark = octets::u16_bytes(0x0008) + octets::u16_bytes(20);
    assert(mark =~= seq![0u8, 8u8, 0u8, 20u8]);
    let covered = seq![1u8, 1u8] + octets::u16_bytes(len) + rest + seq![0u8, 8u8, 0u8, 20u8]
        + digest;
    assert(message::header_bytes(a, len) + u + t + (mark + digest) =~= covered);
    let sum = octets::u32_bytes((outside::crc32_iso_hdlc(covered) ^ 0x5354_554e) as int);
    let end = octets::u16_bytes(0x8028) + octets::u16_bytes(4);
    assert(end =~= seq![0x80u8, 0x28u8, 0u8, 4u8]);
    assert(covered + (end + sum) =~= covered + end + sum);
}

/// A written answer is read back: class, method, transaction id, username and tie breaker are
/// those of the answer, the message integrity is that which the password gives for the bytes to
/// check, and the fingerprint is that of all bytes before its attribute.
pub proof fn law_reply_reads_back(m: MessageView, tie_breaker: u64, key: Seq<u8>)
    requires
        m.wf(),
        message::answerable(m),
    ensures
        ({
            let bytes = message::message_bytes(message::reply_of(m, tie_breaker), key);
            &&& message::message_of(bytes) matches Outcome::Decoded(r)
            &&& {
                let hmac = util::hmac_sha1_of(key, r.to_check);
                let crc = outside::crc32_iso_hdlc(bytes.take(bytes.len() - 8)) ^ 0x5354_554e;
                let name = attribute::first_username(m.attrs)->0;
                &&& r.class == Class::Success
                &&& r.method == Method::Binding
                &&& r.trans_id == m.trans_id
                &&& r.attrs == attributes_read(name, tie_breaker, hmac, crc)
                &&& attribute::first_username(r.attrs) == Some(name)
                &&& attribute::first_integrity(r.attrs) == Some(hmac)
            }
        }),
{
    reveal(read);
    reveal(written);
    let a = message::reply_of(m, tie_breaker);
    let name = attribute::first_username(m.attrs)->0;
    attribute::lemma_first_username_short(m.attrs);
    let (front, covered) = lemma_reply_read(a, name, tie_breaker, key);
    lemma_attributes_read(
        name,
        tie_breaker,
        util::hmac_sha1_of(key, front),
        outside::crc32_iso_hdlc(covered) ^ 0x5354_554e,
    );
}

} // verus!
