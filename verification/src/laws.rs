//! What holds of the operations taken together.

use vstd::prelude::*;

use crate::address;
use crate::address::{IpAddrView, SocketAddrView};
use crate::attribute;
use crate::attribute::AttributeView;
use crate::header;
use crate::header::{Class, Method, MAGIC};
use crate::message;
use crate::message::MessageView;
use crate::octets;
use crate::outcome::Outcome;
use crate::records;
use crate::text;
use crate::util;

pub mod hashing;
pub mod messages;
pub mod reading;

verus! {

/// Class and method are read back from the message type that they are written to.
pub proof fn law_type_round_trip(class: Class, method: Method)
    requires
        class != Class::Unknown,
        method != Method::Unknown,
    ensures
        header::class_of(class.bits() | method.bits()) == class,
        header::method_of(class.bits() | method.bits()) == method,
        class.bits() | method.bits() < 0x4000,
{
    let c = class.bits();
    let m = method.bits();
    assert((c | m) & 0x0110 == c && (c | m) & 0x3EEF == 1 && (c | m) < 0x4000) by (bit_vector)
        requires
            m == 1u16,
            c == 0u16 || c == 0x10u16 || c == 0x100u16 || c == 0x110u16,
    ;
}

/// A message type of fourteen bits with a known method is written as it was read.
pub proof fn law_type_rewritten(typ: u16)
    requires
        typ < 0x4000,
        header::method_of(typ) != Method::Unknown,
    ensures
        header::class_of(typ).bits() | header::method_of(typ).bits() == typ,
{
    let c = typ & 0x0110;
    assert(c == 0u16 || c == 0x10u16 || c == 0x100u16 || c == 0x110u16) by (bit_vector)
        requires
            c == typ & 0x0110,
    ;
    assert(c | 1u16 == typ) by (bit_vector)
        requires
            c == typ & 0x0110,
            typ & 0x3EEF == 1u16,
            typ < 0x4000,
    ;
}

/// A username is split exactly where it is of the form `local:remote`: the local part has no
/// colon, and the remote part is not empty.
pub proof fn law_local_remote(s: Seq<char>, local: Seq<char>, remote: Seq<char>)
    ensures
        text::split_at_colon(s) == Some((local, remote)) <==> {
            &&& s == local + seq![':'] + remote
            &&& !local.contains(':')
            &&& remote.len() > 0
        },
{
    s.index_of_first_ensures(':');
    if text::split_at_colon(s) == Some((local, remote)) {
        let i = s.index_of_first(':')->0;
        assert(s =~= local + seq![':'] + remote);
        if local.contains(':') {
            let k = choose|k: int| 0 <= k < local.len() && local[k] == ':';
            assert(s[k] == ':');
        }
    }
    if s == local + seq![':'] + remote && !local.contains(':') && remote.len() > 0 {
        assert(s[local.len() as int] == ':');
        let i = s.index_of_first(':')->0;
        if i < local.len() {
            assert(local[i] == ':');
        }
        assert(i == local.len());
        assert(s.take(i) =~= local);
        assert(s.skip(i + 1) =~= remote);
    }
}

/// What is read from a buffer: the transaction id is that of the header, the message integrity is
/// the 20 bytes four bytes behind the bytes to check, every attribute behind it is a fingerprint,
/// and there is no second one. The bytes to check are those of the buffer but for the length, and
/// the length is that up to the end of the message integrity.
pub proof fn law_message_shape(buf: Seq<u8>)
    requires
        message::message_of(buf) is Decoded,
    ensures
        ({
            let m = message::message_of(buf)->Decoded_0;
            let n = m.to_check.len() as int;
            &&& m.wf()
            &&& m.class != Class::Unknown
            &&& m.trans_id == buf.subrange(8, 20)
            &&& 20 < n && n + 24 <= buf.len()
            &&& m.to_check == message::with_length(buf, n + 4).take(n)
            &&& octets::u16_at(m.to_check, 2) == n + 4
            &&& attribute::first_integrity(m.attrs) == Some(buf.subrange(n + 4, n + 24))
            &&& forall|i: int, j: int|
                0 <= i < j < m.attrs.len() && #[trigger] m.attrs[i] is MessageIntegrity
                    ==> #[trigger] m.attrs[j] is Fingerprint
        }),
{
    let m = message::message_of(buf)->Decoded_0;
    let n = m.to_check.len() as int;
    let body = buf.skip(20);
    let trans_id = buf.subrange(8, 20);
    attribute::lemma_attributes_shape(body, trans_id, 0, None);
    let o = attribute::attributes_of(body, trans_id).1->0;
    assert(body.subrange(o + 4, o + 24) =~= buf.subrange(n + 4, n + 24));
}

/// An answer carries the username of the request, in both of its parts, and its transaction id.
pub proof fn law_reply_echoes(m: MessageView, tie_breaker: u64)
    requires
        message::answerable(m),
    ensures
        ({
            let r = message::reply_of(m, tie_breaker);
            &&& attribute::first_username(r.attrs) == attribute::first_username(m.attrs)
            &&& attribute::first_local_remote(r.attrs) == attribute::first_local_remote(m.attrs)
            &&& r.trans_id == m.trans_id
        }),
{
}

/// An answer is not answered.
pub proof fn law_reply_unanswered(m: MessageView, tie_breaker: u64)
    ensures
        !message::answerable(message::reply_of(m, tie_breaker)),
{
}

/// Written attributes lie on 32-bit boundaries.
pub proof fn law_attributes_aligned(attrs: Seq<AttributeView>)
    requires
        forall|i: int| 0 <= i < attrs.len() ==> attribute::writable(#[trigger] attrs[i]),
    ensures
        attribute::encoded_all(attrs).len() % 4 == 0,
    decreases attrs.len(),
{
    if attrs.len() > 0 {
        attribute::lemma_encoded_len(attrs.last());
        assert forall|i: int| 0 <= i < attrs.drop_last().len() implies attribute::writable(
            #[trigger] attrs.drop_last()[i],
        ) by {
            assert(attribute::writable(attrs[i]));
        }
        law_attributes_aligned(attrs.drop_last());
    }
}

/// A written message is a header and its attributes, and the header's length is that of the
/// attributes, in 16 bits.
pub proof fn law_written_length(m: MessageView, key: Seq<u8>)
    requires
        m.wf(),
        m.writable(),
    ensures
        ({
            let bytes = message::message_bytes(m, key);
            let len = attribute::encoded_all(m.attrs).len();
            &&& bytes.len() == 20 + len
            &&& octets::u16_at(bytes, 2) == len % 0x1_0000
        }),
{
    broadcast use octets::lemma_u32_bytes_len;

    let body = attribute::encoded_all(m.attrs);
    let len = body.len() as int;
    let integrity_at = attribute::mark_offset(m.attrs, AttributeView::MessageIntegrityMark, 20);
    let fingerprint_at = attribute::mark_offset(m.attrs, AttributeView::FingerprintMark, 20);
    assert(attribute::writable(m.attrs.last()));
    attribute::lemma_encoded_len(m.attrs.last());
    attribute::lemma_mark_offset(m.attrs, AttributeView::MessageIntegrityMark, 20);
    attribute::lemma_mark_offset(m.attrs, AttributeView::FingerprintMark, 20);
    let plain = message::header_bytes(m, len - 8) + body;
    assert(plain.len() == 20 + len);
    let hmac = util::hmac_sha1_of(key, plain.take(integrity_at));
    util::lemma_hmac_sha1_len(key, plain.take(integrity_at));
    let one = octets::splice(plain, integrity_at + 4, hmac);
    assert(one.len() == 20 + len);
    let two = message::with_length(one, len);
    assert(two.len() == 20 + len);
    let l = octets::u16_bytes(len);
    assert(two[2] == l[0] && two[3] == l[1]);
    let bytes = message::message_bytes(m, key);
    assert(bytes[2] == two[2] && bytes[3] == two[3]);
    octets::lemma_u16_bytes_low(len);
    octets::lemma_u16_round_trip(len % 0x1_0000);
}

/// An attribute behind the message integrity is passed over, whatever its value, unless it is a
/// fingerprint.
pub proof fn law_ignored_behind_integrity(
    body: Seq<u8>,
    trans_id: Seq<u8>,
    off: int,
    integrity: int,
)
    requires
        0 <= off,
        off + 4 <= body.len(),
        octets::u16_at(body, off) != 0x8028,
        off + 4 + attribute::padded(octets::u16_at(body, off + 2)) <= body.len(),
    ensures
        attribute::attributes_from(body, trans_id, off, Some(integrity))
            == attribute::attributes_from(
            body,
            trans_id,
            off + 4 + attribute::padded(octets::u16_at(body, off + 2)),
            Some(integrity),
        ),
{
    let rest = body.skip(off);
    assert(octets::u16_at(rest, 0) == octets::u16_at(body, off));
    assert(octets::u16_at(rest, 2) == octets::u16_at(body, off + 2));
}

/// A whole record other than a fingerprint may stand anywhere behind the message integrity: it
/// changes nothing of what is read, whatever its type, its length and its value.
pub proof fn law_inserted_behind_integrity(
    a: Seq<u8>,
    record: Seq<u8>,
    b: Seq<u8>,
    trans_id: Seq<u8>,
)
    requires
        attribute::attributes_of(a, trans_id).0 matches Outcome::Decoded(attrs)
            && attribute::first_integrity(attrs) is Some,
        4 <= record.len(),
        record.len() == 4 + attribute::padded(octets::u16_at(record, 2)),
        octets::u16_at(record, 0) != 0x8028,
    ensures
        attribute::attributes_of(a + record + b, trans_id) == attribute::attributes_of(
            a + b,
            trans_id,
        ),
{
    let n = a.len() as int;
    let x = a + record + b;
    let y = a + b;
    attribute::lemma_attributes_shape(a, trans_id, 0, None);
    let o = attribute::attributes_of(a, trans_id).1->0;
    assert(x =~= a + (record + b));
    records::lemma_continued(a, record + b, trans_id, 0, None);
    records::lemma_continued(a, b, trans_id, 0, None);
    assert(octets::u16_at(x, n) == octets::u16_at(record, 0));
    assert(octets::u16_at(x, n + 2) == octets::u16_at(record, 2));
    law_ignored_behind_integrity(x, trans_id, n, o);
    assert(x.skip(n + record.len()) =~= y.skip(n));
    records::lemma_shifted(x, n + record.len(), Some(o), y, n, Some(o), trans_id);
}

/// Bytes one behind the other, the first without a message integrity, give the attributes of both
/// in turn. The message integrity is where it is in the second, behind the first. No bytes give
/// no attributes.
pub proof fn law_read_in_turn(a: Seq<u8>, b: Seq<u8>, trans_id: Seq<u8>)
    requires
        attribute::attributes_of(a, trans_id).0 matches Outcome::Decoded(attrs)
            && attribute::first_integrity(attrs) is None,
    ensures
        ({
            let first = attribute::attributes_of(a, trans_id).0->Decoded_0;
            let second = attribute::attributes_of(b, trans_id);
            let both = attribute::attributes_of(a + b, trans_id);
            &&& both.0 == match second.0 {
                Outcome::Decoded(attrs) => Outcome::Decoded(first + attrs),
                other => other,
            }
            &&& both.1 == match second.1 {
                Some(off) => Some(a.len() + off),
                None => None,
            }
        }),
        attribute::attributes_of(Seq::empty(), trans_id) == (
            Outcome::Decoded(Seq::<AttributeView>::empty()),
            None::<int>,
        ),
{
    let n = a.len() as int;
    attribute::lemma_attributes_shape(a, trans_id, 0, None);
    records::lemma_continued(a, b, trans_id, 0, None);
    assert((a + b).skip(n) =~= b.skip(0));
    records::lemma_shifted(a + b, n, None, b, 0, None, trans_id);
}

/// The value of a fingerprint behind the message integrity is read and not checked. Of two buffers
/// that differ in it alone, both are read or both are rejected, and the messages differ in that
/// attribute alone. The records of the buffer lead to a message integrity, `integrity` bytes
/// behind the header, and on to the fingerprint, `at` bytes behind the header.
pub proof fn law_fingerprint_unchecked(x: Seq<u8>, y: Seq<u8>, integrity: int, at: int)
    requires
        x.len() == y.len(),
        records::leads_to(x.skip(20), 0, integrity),
        octets::u16_at(x.skip(20), integrity) == 0x0008,
        integrity < at,
        records::leads_to(x.skip(20), integrity, at),
        20 + at + 8 <= x.len(),
        octets::u16_at(x.skip(20), at) == 0x8028,
        octets::u16_at(x.skip(20), at + 2) == 4,
        forall|i: int| 0 <= i < x.len() && !(24 + at <= i < 28 + at) ==> x[i] == y[i],
    ensures
        match (message::message_of(x), message::message_of(y)) {
            (Outcome::Decoded(m), Outcome::Decoded(n)) => {
                &&& m.class == n.class
                &&& m.method == n.method
                &&& m.trans_id == n.trans_id
                &&& m.to_check == n.to_check
                &&& exists|k: int| #[trigger]
                    records::differ_at(
                        m.attrs,
                        n.attrs,
                        k,
                        octets::u32_at(x, 24 + at) as u32,
                        octets::u32_at(y, 24 + at) as u32,
                    )
            },
            (Outcome::Malformed, Outcome::Malformed) => true,
            (Outcome::OutOfBounds, Outcome::OutOfBounds) => true,
            _ => false,
        },
{
    let a = x.skip(20);
    let b = y.skip(20);
    let trans_id = x.subrange(8, 20);
    records::lemma_leads_forward(a, 0, integrity);
    assert(y.subrange(4, 8) =~= x.subrange(4, 8));
    assert(y.subrange(8, 20) =~= trans_id);
    assert(octets::u16_at(y, 2) == octets::u16_at(x, 2));
    assert(octets::u32_at(a, at + 4) == octets::u32_at(x, 24 + at));
    assert(octets::u32_at(b, at + 4) == octets::u32_at(y, 24 + at));
    records::lemma_alike(a, b, trans_id, 0, integrity, at);
    if let (Outcome::Decoded(m), Outcome::Decoded(n)) = (
        message::message_of(x),
        message::message_of(y),
    ) {
        let off = attribute::attributes_of(a, trans_id).1->0;
        assert(message::with_length(x, off + 24).take(off + 20) =~= message::with_length(
            y,
            off + 24,
        ).take(off + 20));
        let v = octets::u32_at(x, 24 + at) as u32;
        let w = octets::u32_at(y, 24 + at) as u32;
        let k = choose|k: int|
            records::differ_at(
                attribute::attributes_of(a, trans_id).0->Decoded_0,
                attribute::attributes_of(b, trans_id).0->Decoded_0,
                k,
                v,
                w,
            );
        assert(records::differ_at(m.attrs, n.attrs, k, v, w));
    }
}

/// A buffer that was read is read again as the same message where nothing follows the message
/// integrity. Where something does, it is rejected, for its length has been overwritten.
pub proof fn law_read_again(buf: Seq<u8>)
    requires
        message::message_of(buf) is Decoded,
    ensures
        ({
            let n = message::message_of(buf)->Decoded_0.to_check.len() as int;
            let left = message::with_length(buf, n + 4);
            if n + 24 == buf.len() {
                left == buf
            } else {
                message::message_of(left) is Malformed
            }
        }),
{
    law_message_shape(buf);
    let n = message::message_of(buf)->Decoded_0.to_check.len() as int;
    let left = message::with_length(buf, n + 4);
    assert(left.take(n)[2] == left[2] && left.take(n)[3] == left[3]);
    assert(octets::u16_at(left, 2) == n + 4);
    if n + 24 == buf.len() {
        assert(octets::u16_at(buf, 2) == n + 4);
        octets::lemma_u16_round_trip(n + 4);
        assert(left =~= buf);
    }
}

/// An address that is written combined with the magic cookie and the transaction id is read back.
pub proof fn law_address_round_trip(ip: Seq<u8>, port: u16, trans_id: Seq<u8>)
    requires
        trans_id.len() == 12,
        ip.len() == 4 || ip.len() == 16,
    ensures
        ({
            let family = if ip.len() == 4 {
                1u8
            } else {
                2u8
            };
            let value = seq![0u8, family] + octets::u16_bytes((port ^ 0x2112) as int)
                + address::unmasked(ip, trans_id, ip.len());
            address::xor_address(value, trans_id) == Outcome::Decoded(
                SocketAddrView {
                    ip: if ip.len() == 4 {
                        IpAddrView::V4(ip)
                    } else {
                        IpAddrView::V6(ip)
                    },
                    port,
                },
            )
        }),
{
    let family = if ip.len() == 4 {
        1u8
    } else {
        2u8
    };
    let masked_port = port ^ 0x2112;
    let p = octets::u16_bytes(masked_port as int);
    let a = address::unmasked(ip, trans_id, ip.len());
    let value = seq![0u8, family] + p + a;
    octets::lemma_u16_round_trip(masked_port as int);
    assert(octets::u16_at(value, 2) == masked_port);
    assert(masked_port ^ 0x2112 == port) by (bit_vector)
        requires
            masked_port == port ^ 0x2112,
    ;
    assert(value.skip(4) =~= a);
    let mask = MAGIC@ + trans_id;
    assert forall|i: int| 0 <= i < ip.len() implies a[i] ^ mask[i] == #[trigger] ip[i] by {
        let x = ip[i];
        let y = mask[i];
        let z = a[i];
        assert(z ^ y == x) by (bit_vector)
            requires
                z == x ^ y,
        ;
    }
    assert(address::unmasked(a, trans_id, ip.len()) =~= ip);
}

} // verus!
