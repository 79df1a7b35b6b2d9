//! What each attribute is read as.
//!
//! Each law speaks of one record on its own. What follows from it for records in a row is said by
//! the laws on reading in turn and on what stands behind the message integrity.

use vstd::prelude::*;
use vstd::utf8;

use crate::address;
use crate::address::{IpAddr, IpAddrView, SocketAddr, SocketAddrView};
use crate::attribute;
use crate::attribute::{Attribute, AttributeView};
use crate::header;
use crate::header::{Class, Method, MAGIC};
use crate::octets;
use crate::outcome::Outcome;
use crate::records;
use crate::text;

verus! {

/// Whether `body` is one record: a type, the length of its value, the value, and bytes up to a
/// 32-bit boundary.
pub open spec fn is_record(body: Seq<u8>, typ: int, value: Seq<u8>) -> bool {
    &&& body.len() % 4 == 0
    &&& 4 + value.len() <= body.len() < 8 + value.len()
    &&& body[0] * 0x100 + body[1] == typ
    &&& body[2] * 0x100 + body[3] == value.len()
    &&& body.subrange(4, 4 + value.len() as int) == value
}

/// The parts of a record with bytes behind it.
proof fn lemma_record(body: Seq<u8>, tail: Seq<u8>, typ: int, value: Seq<u8>)
    requires
        is_record(body, typ, value),
    ensures
        ({
            let all = body + tail;
            &&& octets::u16_at(all, 0) == typ
            &&& octets::u16_at(all, 2) == value.len()
            &&& all.subrange(4, 4 + value.len() as int) == value
            &&& all.skip(0) == all
            &&& 4 + attribute::padded(value.len() as int) == body.len()
            &&& value.len() < 0x1_0000
        }),
{
    let all = body + tail;
    assert(all.subrange(4, 4 + value.len() as int) =~= value);
    assert(all.skip(0) =~= all);
}

/// A record whose attribute is known, on its own.
proof fn lemma_read(
    body: Seq<u8>,
    typ: int,
    value: Seq<u8>,
    trans_id: Seq<u8>,
    first: Option<AttributeView>,
)
    requires
        is_record(body, typ, value),
        attribute::attribute_at(body, trans_id) == Outcome::Decoded(first),
    ensures
        ({
            let at = if typ == 0x0008 {
                Some(0int)
            } else {
                None
            };
            attribute::attributes_of(body, trans_id) == match first {
                Some(a) => (Outcome::Decoded(seq![a]), at),
                None => (Outcome::Decoded(Seq::empty()), at),
            }
        }),
{
    lemma_record(body, Seq::empty(), typ, value);
    assert(body + Seq::<u8>::empty() =~= body);
    let at = if typ == 0x0008 {
        Some(0int)
    } else {
        None
    };
    let nothing = Seq::<AttributeView>::empty();
    assert(attribute::attributes_from(body, trans_id, body.len() as int, at) == (
        Outcome::Decoded(nothing),
        at,
    ));
    if let Some(a) = first {
        assert(seq![a] + nothing =~= seq![a]);
    }
}

/// What is read of a record and then of the bytes behind it: its attribute comes first, and a
/// message integrity is where it is behind it.
pub open spec fn in_turn(
    first: AttributeView,
    len: int,
    others: (Outcome<Seq<AttributeView>>, Option<int>),
) -> (Outcome<Seq<AttributeView>>, Option<int>) {
    (
        match others.0 {
            Outcome::Decoded(attrs) => Outcome::Decoded(seq![first] + attrs),
            other => other,
        },
        match others.1 {
            Some(off) => Some(len + off),
            None => None,
        },
    )
}

/// A record whose attribute is known, in front of any bytes.
proof fn lemma_read_then(
    body: Seq<u8>,
    tail: Seq<u8>,
    typ: int,
    value: Seq<u8>,
    trans_id: Seq<u8>,
    first: AttributeView,
)
    requires
        is_record(body, typ, value),
        typ != 0x0008,
        attribute::attribute_at(body + tail, trans_id) == Outcome::Decoded(Some(first)),
    ensures
        attribute::attributes_of(body + tail, trans_id) == in_turn(
            first,
            body.len() as int,
            attribute::attributes_of(tail, trans_id),
        ),
{
    lemma_record(body, tail, typ, value);
    let n = body.len() as int;
    assert((body + tail).skip(n) =~= tail.skip(0));
    records::lemma_shifted(body + tail, n, None, tail, 0, None, trans_id);
}

/// A record whose attribute is malformed, in front of any bytes.
proof fn lemma_reject(body: Seq<u8>, tail: Seq<u8>, typ: int, value: Seq<u8>, trans_id: Seq<u8>)
    requires
        is_record(body, typ, value),
        attribute::attribute_at(body + tail, trans_id) is Malformed,
    ensures
        attribute::attributes_of(body + tail, trans_id).0 is Malformed,
{
    lemma_record(body, tail, typ, value);
}

/// The attribute that a record holds, read from its value.
proof fn lemma_at(body: Seq<u8>, typ: int, value: Seq<u8>)
    requires
        is_record(body, typ, value),
    ensures
        octets::u16_at(body, 0) == typ,
        octets::u16_at(body, 2) == value.len(),
        body.subrange(4, 4 + value.len() as int) == value,
{
    lemma_record(body, Seq::empty(), typ, value);
    assert(body + Seq::<u8>::empty() =~= body);
}

/// A value takes up bytes up to the next 32-bit boundary.
pub proof fn law_padded(len: int)
    ensures
        attribute::padded(len) % 4 == 0,
        len <= attribute::padded(len) < len + 4,
{
}

/// Attributes of which the type alone counts, whatever their value.
pub proof fn law_bare_read(body: Seq<u8>, typ: int, value: Seq<u8>, trans_id: Seq<u8>)
    requires
        is_record(body, typ, value),
        typ == 0x0001 || typ == 0x000a || typ == 0x8023,
    ensures
        attribute::attributes_of(body, trans_id) == (
            Outcome::Decoded(
                seq![
                    if typ == 0x0001 {
                        AttributeView::MappedAddress
                    } else if typ == 0x000a {
                        AttributeView::UnknownAttributes
                    } else {
                        AttributeView::AlternateServer
                    },
                ],
            ),
            None::<int>,
        ),
{
    lemma_at(body, typ, value);
    reveal(attribute::attribute_at);
    let first = if typ == 0x0001 {
        AttributeView::MappedAddress
    } else if typ == 0x000a {
        AttributeView::UnknownAttributes
    } else {
        AttributeView::AlternateServer
    };
    lemma_read(body, typ, value, trans_id, Some(first));
}

/// An attribute of any other type is read as unknown, whatever its value.
pub proof fn law_unknown_read(body: Seq<u8>, typ: u16, value: Seq<u8>, trans_id: Seq<u8>)
    requires
        is_record(body, typ as int, value),
        !seq![
            0x0001u16,
            0x0006,
            0x0008,
            0x0009,
            0x000a,
            0x0014,
            0x0015,
            0x0020,
            0x0022,
            0x0024,
            0x0025,
            0x8023,
            0x8028,
            0x8029,
            0x802a,
            0xc057,
        ].contains(typ),
    ensures
        attribute::attributes_of(body, trans_id) == (
            Outcome::Decoded(seq![AttributeView::Unknown(typ)]),
            None::<int>,
        ),
{
    let known = seq![
        0x0001u16,
        0x0006,
        0x0008,
        0x0009,
        0x000a,
        0x0014,
        0x0015,
        0x0020,
        0x0022,
        0x0024,
        0x0025,
        0x8023,
        0x8028,
        0x8029,
        0x802a,
        0xc057,
    ];
    assert(known[0] != typ && known[1] != typ && known[2] != typ && known[3] != typ && known[4]
        != typ && known[5] != typ && known[6] != typ && known[7] != typ);
    assert(known[8] != typ && known[9] != typ && known[10] != typ && known[11] != typ && known[12]
        != typ && known[13] != typ && known[14] != typ && known[15] != typ);
    lemma_at(body, typ as int, value);
    reveal(attribute::attribute_at);
    lemma_read(body, typ as int, value, trans_id, Some(AttributeView::Unknown(typ)));
}

/// A username, a realm or a nonce of fewer than 128 characters in at most 128 bytes is read as it
/// is.
pub proof fn law_short_text_read(body: Seq<u8>, typ: int, s: Seq<char>, trans_id: Seq<u8>)
    requires
        is_record(body, typ, utf8::encode_utf8(s)),
        typ == 0x0006 || typ == 0x0014 || typ == 0x0015,
        s.len() < 128,
        utf8::encode_utf8(s).len() <= 128,
    ensures
        attribute::attributes_of(body, trans_id) == (
            Outcome::Decoded(
                seq![
                    if typ == 0x0006 {
                        AttributeView::Username(s)
                    } else if typ == 0x0014 {
                        AttributeView::Realm(s)
                    } else {
                        AttributeView::Nonce(s)
                    },
                ],
            ),
            None::<int>,
        ),
{
    let first = if typ == 0x0006 {
        AttributeView::Username(s)
    } else if typ == 0x0014 {
        AttributeView::Realm(s)
    } else {
        AttributeView::Nonce(s)
    };
    utf8::encode_utf8_valid_utf8(s);
    utf8::encode_utf8_decode_utf8(s);
    lemma_at(body, typ, utf8::encode_utf8(s));
    reveal(attribute::attribute_at);
    lemma_read(body, typ, utf8::encode_utf8(s), trans_id, Some(first));
}

/// The name of a software in at most 128 bytes is read as it is.
pub proof fn law_software_read(body: Seq<u8>, s: Seq<char>, trans_id: Seq<u8>)
    requires
        is_record(body, 0x0022, utf8::encode_utf8(s)),
        utf8::encode_utf8(s).len() <= 128,
    ensures
        attribute::attributes_of(body, trans_id) == (
            Outcome::Decoded(seq![AttributeView::Software(s)]),
            None::<int>,
        ),
{
    utf8::encode_utf8_valid_utf8(s);
    utf8::encode_utf8_decode_utf8(s);
    lemma_at(body, 0x0022, utf8::encode_utf8(s));
    reveal(attribute::attribute_at);
    lemma_read(
        body,
        0x0022,
        utf8::encode_utf8(s),
        trans_id,
        Some(AttributeView::Software(s)),
    );
}

/// A value that is no string of the length that its type allows is rejected, whatever follows.
pub proof fn law_text_rejected(
    body: Seq<u8>,
    tail: Seq<u8>,
    typ: int,
    value: Seq<u8>,
    trans_id: Seq<u8>,
)
    requires
        is_record(body, typ, value),
        typ == 0x0006 || typ == 0x0014 || typ == 0x0015 || typ == 0x0022,
        forall|s: Seq<char>|
            #![trigger utf8::encode_utf8(s)]
            (typ == 0x0022 || s.len() < 128) && utf8::encode_utf8(s).len() <= 128
                ==> utf8::encode_utf8(s) != value,
    ensures
        attribute::attributes_of(body + tail, trans_id).0 is Malformed,
{
    lemma_record(body, tail, typ, value);
    if utf8::valid_utf8(value) {
        utf8::decode_utf8_encode_utf8(value);
        assert(utf8::encode_utf8(utf8::decode_utf8(value)) == value);
    }
    reveal(attribute::attribute_at);
    lemma_reject(body, tail, typ, value, trans_id);
}

/// A message integrity of 20 bytes is read as it is, and its place is noted.
pub proof fn law_integrity_read(body: Seq<u8>, value: Seq<u8>, trans_id: Seq<u8>)
    requires
        is_record(body, 0x0008, value),
        value.len() == 20,
    ensures
        attribute::attributes_of(body, trans_id) == (
            Outcome::Decoded(seq![AttributeView::MessageIntegrity(value)]),
            Some(0int),
        ),
{
    lemma_at(body, 0x0008, value);
    reveal(attribute::attribute_at);
    lemma_read(body, 0x0008, value, trans_id, Some(AttributeView::MessageIntegrity(value)));
}

/// An error code is read: its hundreds are the third byte, the rest is the fourth byte modulo 100,
/// and the reason is what follows.
pub proof fn law_error_code_read(
    body: Seq<u8>,
    hundreds: u8,
    number: u8,
    reason: Seq<char>,
    trans_id: Seq<u8>,
)
    requires
        is_record(body, 0x0009, seq![0u8, 0u8, hundreds, number] + utf8::encode_utf8(reason)),
        3 <= hundreds <= 6,
        reason.len() < 128,
        utf8::encode_utf8(reason).len() <= 128,
    ensures
        attribute::attributes_of(body, trans_id) == (
            Outcome::Decoded(
                seq![
                    AttributeView::ErrorCode(
                        (100 * hundreds + number as int % 100) as u16,
                        reason,
                    ),
                ],
            ),
            None::<int>,
        ),
{
    let value = seq![0u8, 0u8, hundreds, number] + utf8::encode_utf8(reason);
    utf8::encode_utf8_valid_utf8(reason);
    utf8::encode_utf8_decode_utf8(reason);
    lemma_at(body, 0x0009, value);
    let v = body.subrange(4, 4 + value.len() as int);
    assert(v[0] == body[4] && v[1] == body[5] && v[2] == body[6] && v[3] == body[7]);
    assert(body.subrange(8, 4 + value.len() as int) =~= v.skip(4));
    assert(value.skip(4) =~= utf8::encode_utf8(reason));
    assert(hundreds & 0b1111_1000 == 0) by (bit_vector)
        requires
            3 <= hundreds <= 6,
    ;
    let first = AttributeView::ErrorCode((100 * hundreds + number as int % 100) as u16, reason);
    assert(attribute::attribute_at(body, trans_id) == Outcome::Decoded(Some(first))) by {
        reveal(attribute::attribute_at);
    }
    lemma_read(body, 0x0009, value, trans_id, Some(first));
}

/// An error code is rejected where its first bytes are not zero, where it is not from 300 to 699,
/// and where its reason is no string of fewer than 128 characters in at most 128 bytes.
pub proof fn law_error_code_rejected(
    body: Seq<u8>,
    tail: Seq<u8>,
    value: Seq<u8>,
    trans_id: Seq<u8>,
)
    requires
        is_record(body, 0x0009, value),
        (body + tail).len() >= 8,
        ({
            let bytes = (body + tail).subrange(4, 8);
            ||| bytes[0] != 0 || bytes[1] != 0 || bytes[2] < 3 || bytes[2] > 6
            ||| value.len() >= 4 && (forall|s: Seq<char>|
                #![trigger utf8::encode_utf8(s)]
                s.len() < 128 && utf8::encode_utf8(s).len() <= 128 ==> utf8::encode_utf8(s)
                    != value.skip(4))
        }),
    ensures
        attribute::attributes_of(body + tail, trans_id).0 is Malformed,
{
    let all = body + tail;
    lemma_record(body, tail, 0x0009, value);
    let bytes = all.subrange(4, 8);
    assert(bytes[0] == all[4] && bytes[1] == all[5] && bytes[2] == all[6]);
    if value.len() >= 4 {
        let reason = all.subrange(8, 4 + value.len() as int);
        assert(reason =~= all.subrange(4, 4 + value.len() as int).skip(4));
        if utf8::valid_utf8(reason) {
            utf8::decode_utf8_encode_utf8(reason);
            assert(utf8::encode_utf8(utf8::decode_utf8(reason)) == reason);
        }
    }
    assert(attribute::attribute_at(all, trans_id) is Malformed) by {
        reveal(attribute::attribute_at);
    }
    lemma_reject(body, tail, 0x0009, value, trans_id);
}

/// An address is read as what it stands for: the port is combined with 0x2112, and each octet of
/// the address with that of the magic cookie and the transaction id. It starts where the value
/// does, and the bytes count, not the length of the value.
pub proof fn law_address_read(
    body: Seq<u8>,
    tail: Seq<u8>,
    value: Seq<u8>,
    unused: u8,
    ip: Seq<u8>,
    port: u16,
    more: Seq<u8>,
    trans_id: Seq<u8>,
)
    requires
        is_record(body, 0x0020, value),
        trans_id.len() == 12,
        ip.len() == 4 || ip.len() == 16,
        ({
            let family = if ip.len() == 4 {
                1u8
            } else {
                2u8
            };
            let mask = seq![0x21u8, 0x12u8, 0xA4u8, 0x42u8] + trans_id;
            (body + tail).skip(4) == seq![unused, family] + octets::u16_bytes(
                (port ^ 0x2112) as int,
            ) + Seq::new(ip.len(), |i: int| ip[i] ^ mask[i]) + more
        }),
    ensures
        attribute::attributes_of(body + tail, trans_id) == in_turn(
            AttributeView::XorMappedAddress(
                SocketAddrView {
                    ip: if ip.len() == 4 {
                        IpAddrView::V4(ip)
                    } else {
                        IpAddrView::V6(ip)
                    },
                    port,
                },
            ),
            body.len() as int,
            attribute::attributes_of(tail, trans_id),
        ),
{
    let first = AttributeView::XorMappedAddress(
        SocketAddrView {
            ip: if ip.len() == 4 {
                IpAddrView::V4(ip)
            } else {
                IpAddrView::V6(ip)
            },
            port,
        },
    );
    lemma_record(body, tail, 0x0020, value);
    law_address_value(unused, ip, port, more, trans_id);
    assert(attribute::attribute_at(body + tail, trans_id) == Outcome::Decoded(Some(first))) by {
        reveal(attribute::attribute_at);
    }
    lemma_read_then(body, tail, 0x0020, value, trans_id, first);
}

/// The record of an address, made of its length, its family, its port and its octets, is read as
/// exactly this address.
pub proof fn law_address_alone(ip: Seq<u8>, port: u16, trans_id: Seq<u8>)
    requires
        trans_id.len() == 12,
        ip.len() == 4 || ip.len() == 16,
    ensures
        ({
            let family = if ip.len() == 4 {
                1u8
            } else {
                2u8
            };
            let mask = seq![0x21u8, 0x12u8, 0xA4u8, 0x42u8] + trans_id;
            let body = octets::u16_bytes(0x0020) + octets::u16_bytes(4 + ip.len() as int) + (seq![
                0u8,
                family,
            ] + octets::u16_bytes((port ^ 0x2112) as int) + Seq::new(
                ip.len(),
                |i: int| ip[i] ^ mask[i],
            ));
            attribute::attributes_of(body, trans_id) == (
                Outcome::Decoded(
                    seq![
                        AttributeView::XorMappedAddress(
                            SocketAddrView {
                                ip: if ip.len() == 4 {
                                    IpAddrView::V4(ip)
                                } else {
                                    IpAddrView::V6(ip)
                                },
                                port,
                            },
                        ),
                    ],
                ),
                None::<int>,
            )
        }),
{
    let family = if ip.len() == 4 {
        1u8
    } else {
        2u8
    };
    let mask = seq![0x21u8, 0x12u8, 0xA4u8, 0x42u8] + trans_id;
    let value = seq![0u8, family] + octets::u16_bytes((port ^ 0x2112) as int) + Seq::new(
        ip.len(),
        |i: int| ip[i] ^ mask[i],
    );
    let t = octets::u16_bytes(0x0020);
    let l = octets::u16_bytes(4 + ip.len() as int);
    let body = t + l + value;
    let none = Seq::<u8>::empty();
    octets::lemma_u16_round_trip(0x0020);
    octets::lemma_u16_round_trip(4 + ip.len() as int);
    assert(value.len() == 4 + ip.len());
    assert(body[0] == t[0] && body[1] == t[1] && body[2] == l[0] && body[3] == l[1]);
    assert(body.subrange(4, 4 + value.len() as int) =~= value);
    assert(is_record(body, 0x0020, value));
    assert(body + none =~= body);
    assert(body.skip(4) =~= value + none);
    law_address_read(body, none, value, 0, ip, port, none, trans_id);
    let first = AttributeView::XorMappedAddress(
        SocketAddrView {
            ip: if ip.len() == 4 {
                IpAddrView::V4(ip)
            } else {
                IpAddrView::V6(ip)
            },
            port,
        },
    );
    assert(attribute::attributes_of(none, trans_id) == (
        Outcome::Decoded(Seq::<AttributeView>::empty()),
        None::<int>,
    ));
    assert(seq![first] + Seq::<AttributeView>::empty() =~= seq![first]);
}

/// The value of an address attribute stands for this address, whatever follows.
pub proof fn law_address_value(
    unused: u8,
    ip: Seq<u8>,
    port: u16,
    more: Seq<u8>,
    trans_id: Seq<u8>,
)
    requires
        trans_id.len() == 12,
        ip.len() == 4 || ip.len() == 16,
    ensures
        ({
            let family = if ip.len() == 4 {
                1u8
            } else {
                2u8
            };
            let mask = seq![0x21u8, 0x12u8, 0xA4u8, 0x42u8] + trans_id;
            let value = seq![unused, family] + octets::u16_bytes((port ^ 0x2112) as int) + Seq::new(
                ip.len(),
                |i: int| ip[i] ^ mask[i],
            ) + more;
            address::xor_address(value, trans_id) == Outcome::Decoded(
                SocketAddrView {
                    ip: if ip.len() == 4 {
                        IpAddrView::V4(ip)
                    } else {
                        IpAddrView::V6(ip)
                    },
                    port,
                },
            )
        }),
{
    let family = if ip.len() == 4 {
        1u8
    } else {
        2u8
    };
    let mask = seq![0x21u8, 0x12u8, 0xA4u8, 0x42u8] + trans_id;
    let masked = Seq::new(ip.len(), |i: int| ip[i] ^ mask[i]);
    let masked_port = port ^ 0x2112;
    let p = octets::u16_bytes(masked_port as int);
    let value = seq![unused, family] + p + masked + more;
    octets::lemma_u16_round_trip(masked_port as int);
    assert(octets::u16_at(value, 2) == masked_port);
    assert(masked_port ^ 0x2112 == port) by (bit_vector)
        requires
            masked_port == port ^ 0x2112,
    ;
    assert(value[1] == family);
    let rest = value.skip(4);
    assert(rest =~= masked + more);
    assert(MAGIC@ =~= seq![0x21u8, 0x12u8, 0xA4u8, 0x42u8]);
    assert forall|i: int| 0 <= i < ip.len() implies rest[i] ^ (MAGIC@ + trans_id)[i]
        == #[trigger] ip[i] by {
        let x = ip[i];
        let y = mask[i];
        let z = rest[i];
        assert(z ^ y == x) by (bit_vector)
            requires
                z == x ^ y,
        ;
    }
    assert(address::unmasked(rest, trans_id, ip.len()) =~= ip);
}

/// An address of another family is rejected.
pub proof fn law_address_rejected(
    body: Seq<u8>,
    tail: Seq<u8>,
    value: Seq<u8>,
    trans_id: Seq<u8>,
)
    requires
        is_record(body, 0x0020, value),
        (body + tail).len() >= 8,
        (body + tail)[5] != 1 && (body + tail)[5] != 2,
    ensures
        attribute::attributes_of(body + tail, trans_id).0 is Malformed,
{
    let all = body + tail;
    lemma_record(body, tail, 0x0020, value);
    assert(all[5] == all.skip(4)[1]);
    assert(attribute::attribute_at(all, trans_id) is Malformed) by {
        reveal(attribute::attribute_at);
    }
    lemma_reject(body, tail, 0x0020, value, trans_id);
}

/// A priority is an integer of 32 bits.
pub proof fn law_priority_read(body: Seq<u8>, priority: u32, trans_id: Seq<u8>)
    requires
        is_record(body, 0x0024, octets::u32_bytes(priority as int)),
    ensures
        attribute::attributes_of(body, trans_id) == (
            Outcome::Decoded(seq![AttributeView::Priority(priority)]),
            None::<int>,
        ),
{
    let value = octets::u32_bytes(priority as int);
    octets::lemma_u32_bytes_len(priority as int);
    octets::lemma_u32_round_trip(priority as int);
    lemma_at(body, 0x0024, value);
    let first = AttributeView::Priority(priority);
    assert(attribute::attribute_at(body, trans_id) == Outcome::Decoded(Some(first))) by {
        reveal(attribute::attribute_at);
    }
    lemma_read(body, 0x0024, value, trans_id, Some(first));
}

/// The flag to use a candidate has no value.
pub proof fn law_use_candidate_read(body: Seq<u8>, trans_id: Seq<u8>)
    requires
        is_record(body, 0x0025, Seq::empty()),
    ensures
        attribute::attributes_of(body, trans_id) == (
            Outcome::Decoded(seq![AttributeView::UseCandidate]),
            None::<int>,
        ),
{
    lemma_at(body, 0x0025, Seq::empty());
    let first = AttributeView::UseCandidate;
    assert(attribute::attribute_at(body, trans_id) == Outcome::Decoded(Some(first))) by {
        reveal(attribute::attribute_at);
    }
    lemma_read(body, 0x0025, Seq::empty(), trans_id, Some(first));
}

/// A tie breaker is an integer of 64 bits.
pub proof fn law_tie_breaker_read(body: Seq<u8>, typ: int, tie_breaker: u64, trans_id: Seq<u8>)
    requires
        is_record(body, typ, octets::u64_bytes(tie_breaker as int)),
        typ == 0x8029 || typ == 0x802a,
    ensures
        attribute::attributes_of(body, trans_id) == (
            Outcome::Decoded(
                seq![
                    if typ == 0x8029 {
                        AttributeView::IceControlled(tie_breaker)
                    } else {
                        AttributeView::IceControlling(tie_breaker)
                    },
                ],
            ),
            None::<int>,
        ),
{
    let value = octets::u64_bytes(tie_breaker as int);
    octets::lemma_u64_bytes_len(tie_breaker as int);
    octets::lemma_u64_round_trip(tie_breaker as int);
    lemma_at(body, typ, value);
    let n = octets::u64_at(value, 0);
    assert(n == tie_breaker);
    let first = if typ == 0x8029 {
        AttributeView::IceControlled(tie_breaker)
    } else {
        AttributeView::IceControlling(tie_breaker)
    };
    assert(attribute::attribute_at(body, trans_id) == Outcome::Decoded(Some(first))) by {
        reveal(attribute::attribute_at);
    }
    lemma_read(body, typ, value, trans_id, Some(first));
}

/// A message integrity, a priority, a flag or a tie breaker of another length is rejected.
pub proof fn law_length_rejected(
    body: Seq<u8>,
    tail: Seq<u8>,
    typ: int,
    value: Seq<u8>,
    trans_id: Seq<u8>,
)
    requires
        is_record(body, typ, value),
        ({
            ||| typ == 0x0008 && value.len() != 20
            ||| typ == 0x0024 && value.len() != 4
            ||| typ == 0x0025 && value.len() != 0
            ||| typ == 0x8029 && value.len() != 8
            ||| typ == 0x802a && value.len() != 8
        }),
    ensures
        attribute::attributes_of(body + tail, trans_id).0 is Malformed,
{
    lemma_record(body, tail, typ, value);
    assert(attribute::attribute_at(body + tail, trans_id) is Malformed) by {
        reveal(attribute::attribute_at);
    }
    lemma_reject(body, tail, typ, value, trans_id);
}

/// A network cost is two integers of 16 bits; one of another length is passed over.
pub proof fn law_network_cost_read(body: Seq<u8>, value: Seq<u8>, id: u16, cost: u16, trans_id: Seq<
    u8,
>)
    requires
        is_record(body, 0xc057, value),
        value.len() == 4 ==> value == octets::u16_bytes(id as int) + octets::u16_bytes(cost as int),
    ensures
        attribute::attributes_of(body, trans_id) == (
            Outcome::Decoded(
                if value.len() == 4 {
                    seq![AttributeView::NetworkCost(id, cost)]
                } else {
                    Seq::empty()
                },
            ),
            None::<int>,
        ),
{
    let i = octets::u16_bytes(id as int);
    let c = octets::u16_bytes(cost as int);
    octets::lemma_u16_round_trip(id as int);
    octets::lemma_u16_round_trip(cost as int);
    lemma_at(body, 0xc057, value);
    if value.len() == 4 {
        assert(value[0] == i[0] && value[1] == i[1] && value[2] == c[0] && value[3] == c[1]);
        let first = AttributeView::NetworkCost(id, cost);
        assert(attribute::attribute_at(body, trans_id) == Outcome::Decoded(Some(first))) by {
            reveal(attribute::attribute_at);
        }
        lemma_read(body, 0xc057, value, trans_id, Some(first));
    } else {
        assert(attribute::attribute_at(body, trans_id) == Outcome::Decoded(
            None::<AttributeView>,
        )) by {
            reveal(attribute::attribute_at);
        }
        lemma_read(body, 0xc057, value, trans_id, None);
    }
}

/// A fingerprint is the integer in the four bytes behind its length.
pub proof fn law_fingerprint_read(
    body: Seq<u8>,
    tail: Seq<u8>,
    value: Seq<u8>,
    crc: u32,
    trans_id: Seq<u8>,
)
    requires
        is_record(body, 0x8028, value),
        (body + tail).len() >= 8,
        (body + tail).subrange(4, 8) == octets::u32_bytes(crc as int),
    ensures
        attribute::attributes_of(body + tail, trans_id) == in_turn(
            AttributeView::Fingerprint(crc),
            body.len() as int,
            attribute::attributes_of(tail, trans_id),
        ),
{
    lemma_fingerprint_at(body, tail, value, crc, trans_id);
    lemma_read_then(body, tail, 0x8028, value, trans_id, AttributeView::Fingerprint(crc));
}

/// The fingerprint at the start of bytes.
proof fn lemma_fingerprint_at(
    body: Seq<u8>,
    tail: Seq<u8>,
    value: Seq<u8>,
    crc: u32,
    trans_id: Seq<u8>,
)
    requires
        is_record(body, 0x8028, value),
        (body + tail).len() >= 8,
        (body + tail).subrange(4, 8) == octets::u32_bytes(crc as int),
    ensures
        attribute::attribute_at(body + tail, trans_id) == Outcome::Decoded(
            Some(AttributeView::Fingerprint(crc)),
        ),
{
    let all = body + tail;
    lemma_record(body, tail, 0x8028, value);
    octets::lemma_u32_at_shift(all, 4, all.subrange(4, 8));
    octets::lemma_u32_round_trip(crc as int);
    assert(octets::u32_at(all, 4) == crc);
    reveal(attribute::attribute_at);
}

/// A fingerprint anywhere behind the message integrity is read in its place, and makes no other
/// difference.
pub proof fn law_fingerprint_behind_integrity(
    a: Seq<u8>,
    body: Seq<u8>,
    tail: Seq<u8>,
    value: Seq<u8>,
    crc: u32,
    trans_id: Seq<u8>,
)
    requires
        attribute::attributes_of(a, trans_id).0 matches Outcome::Decoded(attrs)
            && attribute::first_integrity(attrs) is Some,
        is_record(body, 0x8028, value),
        (body + tail).len() >= 8,
        (body + tail).subrange(4, 8) == octets::u32_bytes(crc as int),
    ensures
        ({
            let before = attribute::attributes_of(a, trans_id).0->Decoded_0;
            let without = attribute::attributes_of(a + tail, trans_id);
            let with = attribute::attributes_of(a + body + tail, trans_id);
            &&& with.1 == without.1
            &&& match without.0 {
                Outcome::Decoded(attrs) => {
                    let k = before.len() as int;
                    &&& attrs.take(k) == before
                    &&& with.0 == Outcome::Decoded(
                        attrs.insert(k, AttributeView::Fingerprint(crc)),
                    )
                },
                other => with.0 == other,
            }
        }),
{
    let first = AttributeView::Fingerprint(crc);
    let n = a.len() as int;
    let x = a + body + tail;
    let y = a + tail;
    let before = attribute::attributes_of(a, trans_id).0->Decoded_0;
    attribute::lemma_attributes_shape(a, trans_id, 0, None);
    let o = attribute::attributes_of(a, trans_id).1->0;
    assert(x =~= a + (body + tail));
    records::lemma_continued(a, body + tail, trans_id, 0, None);
    records::lemma_continued(a, tail, trans_id, 0, None);
    lemma_fingerprint_at(body, tail, value, crc, trans_id);
    lemma_record(body, tail, 0x8028, value);
    assert(x.skip(n) =~= body + tail);
    assert(x.skip(n + body.len()) =~= y.skip(n));
    records::lemma_shifted(x, n + body.len(), Some(o), y, n, Some(o), trans_id);
    let others = attribute::attributes_from(y, trans_id, n, Some(o));
    assert(attribute::attributes_from(x, trans_id, n, Some(o)) == attribute::with_first(
        Some(first),
        others,
    ));
    if let Outcome::Decoded(rest) = others.0 {
        let k = before.len() as int;
        assert((before + rest).take(k) =~= before);
        assert(before + (seq![first] + rest) =~= (before + rest).insert(k, first));
    }
}

/// A value that is longer than what is left is rejected, wherever it stands.
pub proof fn law_cut_off_rejected(a: Seq<u8>, rest: Seq<u8>, trans_id: Seq<u8>)
    requires
        attribute::attributes_of(a, trans_id).0 is Decoded,
        rest.len() >= 4,
        rest[2] * 0x100 + rest[3] > rest.len() - 4,
    ensures
        attribute::attributes_of(a + rest, trans_id).0 is Malformed,
{
    records::lemma_continued(a, rest, trans_id, 0, None);
    assert((a + rest).skip(a.len() as int) =~= rest);
}

/// A string is read from its own bytes, and from no others.
pub proof fn law_text_decoded(s: Seq<char>, bytes: Seq<u8>)
    ensures
        text::decoded_str(bytes) == Some(s) <==> bytes == utf8::encode_utf8(s) && bytes.len()
            <= 128,
{
    utf8::encode_utf8_valid_utf8(s);
    utf8::encode_utf8_decode_utf8(s);
    if text::decoded_str(bytes) == Some(s) {
        utf8::decode_utf8_encode_utf8(bytes);
    }
}

/// The class is told by two bits of the message type, and the method by the twelve others.
pub proof fn law_type_bits(typ: u16)
    ensures
        header::class_of(typ) == Class::Request <==> typ & 0x0100 == 0 && typ & 0x0010 == 0,
        header::class_of(typ) == Class::Indication <==> typ & 0x0100 == 0 && typ & 0x0010 != 0,
        header::class_of(typ) == Class::Success <==> typ & 0x0100 != 0 && typ & 0x0010 == 0,
        header::class_of(typ) == Class::Failure <==> typ & 0x0100 != 0 && typ & 0x0010 != 0,
        header::method_of(typ) == Method::Binding <==> typ & 0x3EEF == 1,
{
    let c = typ & 0x0110;
    assert((c == 0 <==> typ & 0x0100 == 0 && typ & 0x0010 == 0) && (c == 0x10 <==> typ & 0x0100 == 0
        && typ & 0x0010 != 0) && (c == 0x100 <==> typ & 0x0100 != 0 && typ & 0x0010 == 0))
        by (bit_vector)
        requires
            c == typ & 0x0110,
    ;
}

/// The bits of the four classes and of the binding method, and the message types that they make.
pub proof fn law_type_values()
    ensures
        Class::Request.bits() == 0,
        Class::Indication.bits() == 0x0010,
        Class::Success.bits() == 0x0100,
        Class::Failure.bits() == 0x0110,
        Method::Binding.bits() == 0x0001,
        Class::Request.bits() | Method::Binding.bits() == 0x0001,
        Class::Indication.bits() | Method::Binding.bits() == 0x0011,
        Class::Success.bits() | Method::Binding.bits() == 0x0101,
        Class::Failure.bits() | Method::Binding.bits() == 0x0111,
{
    assert(0u16 | 1 == 1u16 && 0x10u16 | 1 == 0x11u16 && 0x100u16 | 1 == 0x101u16 && 0x110u16 | 1
        == 0x111u16) by (bit_vector);
}

/// An address stands for its own octets and port.
pub proof fn law_address_view(a: SocketAddr)
    ensures
        a@.port == a.port,
        a.ip matches IpAddr::V4(octets) ==> a@.ip == IpAddrView::V4(octets@),
        a.ip matches IpAddr::V6(octets) ==> a@.ip == IpAddrView::V6(octets@),
{
}

/// An attribute stands for its own parts, and a list for its attributes in order.
pub proof fn law_attribute_view(attrs: Seq<Attribute<'_>>, i: int)
    requires
        0 <= i < attrs.len(),
    ensures
        attribute::views(attrs).len() == attrs.len(),
        attribute::views(attrs)[i] == match attrs[i] {
            Attribute::MappedAddress => AttributeView::MappedAddress,
            Attribute::Username(s) => AttributeView::Username(s@),
            Attribute::MessageIntegrity(v) => AttributeView::MessageIntegrity(v@),
            Attribute::MessageIntegrityMark => AttributeView::MessageIntegrityMark,
            Attribute::ErrorCode(c, s) => AttributeView::ErrorCode(c, s@),
            Attribute::UnknownAttributes => AttributeView::UnknownAttributes,
            Attribute::Realm(s) => AttributeView::Realm(s@),
            Attribute::Nonce(s) => AttributeView::Nonce(s@),
            Attribute::XorMappedAddress(a) => AttributeView::XorMappedAddress(a@),
            Attribute::Software(s) => AttributeView::Software(s@),
            Attribute::AlternateServer => AttributeView::AlternateServer,
            Attribute::Fingerprint(n) => AttributeView::Fingerprint(n),
            Attribute::FingerprintMark => AttributeView::FingerprintMark,
            Attribute::Priority(n) => AttributeView::Priority(n),
            Attribute::UseCandidate => AttributeView::UseCandidate,
            Attribute::IceControlled(n) => AttributeView::IceControlled(n),
            Attribute::IceControlling(n) => AttributeView::IceControlling(n),
            Attribute::NetworkCost(n, c) => AttributeView::NetworkCost(n, c),
            Attribute::Unknown(t) => AttributeView::Unknown(t),
        },
{
}

} // verus!
