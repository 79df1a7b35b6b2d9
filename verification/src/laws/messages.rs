//! What messages are read as, and which are answered.

use vstd::prelude::*;

use crate::attribute;
use crate::attribute::AttributeView;
use crate::header;
use crate::header::{Class, Method, MAGIC};
use crate::laws;
use crate::message;
use crate::message::MessageView;
use crate::octets;
use crate::outcome::Outcome;
use crate::text;

verus! {

/// The message type in two bytes, whose two highest bits are left out.
proof fn lemma_type(t0: u8, t1: u8)
    ensures
        ({
            let typ = ((t0 % 64) * 0x100 + t1) as u16;
            &&& header::class_of(typ) == if t0 % 2 == 0 {
                if (t1 / 16) % 2 == 0 {
                    Class::Request
                } else {
                    Class::Indication
                }
            } else {
                if (t1 / 16) % 2 == 0 {
                    Class::Success
                } else {
                    Class::Failure
                }
            }
            &&& header::method_of(typ) == if t0 % 64 <= 1 && (t1 == 0x01 || t1 == 0x11) {
                Method::Binding
            } else {
                Method::Unknown
            }
        }),
{
    let typ = ((t0 % 64) * 0x100 + t1) as u16;
    laws::reading::law_type_bits(typ);
    assert((typ & 0x0100 == 0 <==> t0 % 2 == 0) && (typ & 0x0010 == 0 <==> (t1 / 16) % 2 == 0) && (
    typ & 0x3EEF == 1 <==> t0 % 64 <= 1 && (t1 == 0x01 || t1 == 0x11))) by (bit_vector)
        requires
            typ == ((t0 % 64) * 0x100 + t1) as u16,
    ;
}

/// A buffer is read: its first two bytes tell class and method, the transaction id is that of the
/// header, the attributes are those of what follows, and the bytes to check are all those before
/// the message integrity, under a header whose length ends with it.
pub proof fn law_message_read(
    t0: u8,
    t1: u8,
    trans_id: Seq<u8>,
    body: Seq<u8>,
    attrs: Seq<AttributeView>,
    off: int,
)
    requires
        trans_id.len() == 12,
        body.len() < 0x1_0000,
        body.len() % 4 == 0,
        attribute::attributes_of(body, trans_id) == (Outcome::Decoded(attrs), Some(off)),
        off > 0,
    ensures
        ({
            let magic = seq![0x21u8, 0x12u8, 0xA4u8, 0x42u8];
            message::message_of(
                seq![t0, t1] + octets::u16_bytes(body.len() as int) + magic + trans_id + body,
            ) == Outcome::Decoded(
                MessageView {
                    class: if t0 % 2 == 0 {
                        if (t1 / 16) % 2 == 0 {
                            Class::Request
                        } else {
                            Class::Indication
                        }
                    } else {
                        if (t1 / 16) % 2 == 0 {
                            Class::Success
                        } else {
                            Class::Failure
                        }
                    },
                    method: if t0 % 64 <= 1 && (t1 == 0x01 || t1 == 0x11) {
                        Method::Binding
                    } else {
                        Method::Unknown
                    },
                    trans_id,
                    attrs,
                    to_check: seq![t0, t1] + octets::u16_bytes(off + 24) + magic + trans_id
                        + body.take(off),
                },
            )
        }),
{
    let magic = seq![0x21u8, 0x12u8, 0xA4u8, 0x42u8];
    let l = octets::u16_bytes(body.len() as int);
    let buf = seq![t0, t1] + l + magic + trans_id + body;
    lemma_type(t0, t1);
    octets::lemma_u16_round_trip(body.len() as int);
    attribute::lemma_attributes_shape(body, trans_id, 0, None);
    assert(buf[0] == t0 && buf[1] == t1 && buf[2] == l[0] && buf[3] == l[1]);
    assert(octets::u16_at(buf, 2) == body.len());
    assert(buf.subrange(4, 8) =~= MAGIC@);
    assert(buf.subrange(8, 20) =~= trans_id);
    assert(buf.skip(20) =~= body);
    assert(message::with_length(buf, off + 24).take(off + 20) =~= seq![t0, t1] + octets::u16_bytes(
        off + 24,
    ) + magic + trans_id + body.take(off));
}

/// A buffer is rejected where its length is no multiple of four, is not that of what follows the
/// header, or stands before another magic cookie, whatever its attributes are; and then where its
/// attributes are malformed, where there is no message integrity among them, and where it is the
/// first of them.
pub proof fn law_message_rejected(buf: Seq<u8>)
    requires
        ({
            ||| buf.len() >= 4 && buf[3] % 4 != 0
            ||| buf.len() >= 20 && buf[2] * 0x100 + buf[3] != buf.len() - 20
            ||| buf.len() >= 20 && buf.subrange(4, 8) != seq![0x21u8, 0x12u8, 0xA4u8, 0x42u8]
            ||| buf.len() >= 20 && ({
                let read = attribute::attributes_of(buf.skip(20), buf.subrange(8, 20));
                ||| read.0 is Malformed
                ||| read.0 is Decoded && read.1 is None
                ||| read.0 is Decoded && read.1 == Some(0int)
            })
        }),
    ensures
        message::message_of(buf) is Malformed,
{
    assert(MAGIC@ =~= seq![0x21u8, 0x12u8, 0xA4u8, 0x42u8]);
    assert(octets::u16_at(buf, 2) % 4 == buf[3] as int % 4);
}

/// Writing another length changes the two bytes of the length, and nothing else.
pub proof fn law_with_length(buf: Seq<u8>, len: int)
    requires
        buf.len() >= 4,
        0 <= len < 0x1_0000,
    ensures
        ({
            let r = message::with_length(buf, len);
            &&& r.len() == buf.len()
            &&& r[2] * 0x100 + r[3] == len
            &&& forall|i: int| 0 <= i < buf.len() && i != 2 && i != 3 ==> r[i] == buf[i]
        }),
{
    octets::lemma_u16_round_trip(len);
    let l = octets::u16_bytes(len);
    assert(message::with_length(buf, len)[2] == l[0] && message::with_length(buf, len)[3] == l[1]);
}

/// Writing a fingerprint changes the four bytes of its value, and nothing else.
pub proof fn law_with_fingerprint(buf: Seq<u8>, at: int, checksum: u32)
    requires
        0 <= at,
        at + 8 <= buf.len(),
    ensures
        ({
            let r = message::with_fingerprint(buf, at, checksum);
            &&& r.len() == buf.len()
            &&& r.subrange(at + 4, at + 8) == octets::u32_bytes((checksum ^ 0x5354_554e) as int)
            &&& forall|i: int|
                0 <= i < buf.len() && !(at + 4 <= i < at + 8) ==> r[i] == buf[i]
        }),
{
    let new = octets::u32_bytes((checksum ^ 0x5354_554e) as int);
    octets::lemma_u32_bytes_len((checksum ^ 0x5354_554e) as int);
    laws::hashing::law_splice(buf, at + 4, new);
}

/// The first username is that of the first attribute that is one.
pub proof fn law_first_username(attrs: Seq<AttributeView>, i: int, name: Seq<char>)
    requires
        0 <= i < attrs.len(),
        attrs[i] == AttributeView::Username(name),
        forall|j: int| 0 <= j < i ==> !(#[trigger] attrs[j] is Username),
    ensures
        attribute::first_username(attrs) == Some(name),
    decreases i,
{
    if i > 0 {
        assert(!(attrs[0] is Username));
        let rest = attrs.drop_first();
        assert forall|j: int| 0 <= j < i - 1 implies !(#[trigger] rest[j] is Username) by {
            assert(!(attrs[j + 1] is Username));
        }
        law_first_username(rest, i - 1, name);
    }
}

/// There is no first username where no attribute is one.
pub proof fn law_no_username(attrs: Seq<AttributeView>)
    requires
        forall|j: int| 0 <= j < attrs.len() ==> !(#[trigger] attrs[j] is Username),
    ensures
        attribute::first_username(attrs) is None,
    decreases attrs.len(),
{
    if attrs.len() > 0 {
        assert(!(attrs[0] is Username));
        let rest = attrs.drop_first();
        assert forall|j: int| 0 <= j < rest.len() implies !(#[trigger] rest[j] is Username) by {
            assert(!(attrs[j + 1] is Username));
        }
        law_no_username(rest);
    }
}

/// The first message integrity is that of the first attribute that is one.
pub proof fn law_first_integrity(attrs: Seq<AttributeView>, i: int, value: Seq<u8>)
    requires
        0 <= i < attrs.len(),
        attrs[i] == AttributeView::MessageIntegrity(value),
        forall|j: int| 0 <= j < i ==> !(#[trigger] attrs[j] is MessageIntegrity),
    ensures
        attribute::first_integrity(attrs) == Some(value),
    decreases i,
{
    if i > 0 {
        assert(!(attrs[0] is MessageIntegrity));
        let rest = attrs.drop_first();
        assert forall|j: int| 0 <= j < i - 1 implies !(#[trigger] rest[j] is MessageIntegrity) by {
            assert(!(attrs[j + 1] is MessageIntegrity));
        }
        law_first_integrity(rest, i - 1, value);
    }
}

/// There is no first message integrity where no attribute is one.
pub proof fn law_no_integrity(attrs: Seq<AttributeView>)
    requires
        forall|j: int| 0 <= j < attrs.len() ==> !(#[trigger] attrs[j] is MessageIntegrity),
    ensures
        attribute::first_integrity(attrs) is None,
    decreases attrs.len(),
{
    if attrs.len() > 0 {
        assert(!(attrs[0] is MessageIntegrity));
        let rest = attrs.drop_first();
        assert forall|j: int| 0 <= j < rest.len() implies !(
        #[trigger] rest[j] is MessageIntegrity) by {
            assert(!(attrs[j + 1] is MessageIntegrity));
        }
        law_no_integrity(rest);
    }
}

/// The place of the first username.
proof fn lemma_username_place(attrs: Seq<AttributeView>) -> (i: int)
    requires
        exists|j: int| 0 <= j < attrs.len() && #[trigger] attrs[j] is Username,
    ensures
        0 <= i < attrs.len(),
        attrs[i] is Username,
        forall|j: int| 0 <= j < i ==> !(#[trigger] attrs[j] is Username),
    decreases attrs.len(),
{
    let j = choose|j: int| 0 <= j < attrs.len() && #[trigger] attrs[j] is Username;
    if attrs[0] is Username {
        0
    } else {
        let rest = attrs.drop_first();
        assert(rest[j - 1] is Username);
        let k = lemma_username_place(rest);
        assert forall|l: int| 0 <= l < k + 1 implies !(#[trigger] attrs[l] is Username) by {
            if l > 0 {
                assert(!(rest[l - 1] is Username));
            }
        }
        k + 1
    }
}

/// A message is answered if and only if it is a binding request and one of its attributes is a
/// username, whatever the others are.
pub proof fn law_answered(m: MessageView)
    ensures
        message::answerable(m) <==> {
            &&& m.class == Class::Request
            &&& m.method == Method::Binding
            &&& exists|i: int| 0 <= i < m.attrs.len() && #[trigger] m.attrs[i] is Username
        },
{
    if exists|i: int| 0 <= i < m.attrs.len() && #[trigger] m.attrs[i] is Username {
        let i = lemma_username_place(m.attrs);
        law_first_username(m.attrs, i, m.attrs[i]->Username_0);
    } else {
        law_no_username(m.attrs);
    }
}

/// An answer is a binding success with the transaction id of the request, its first username, the
/// tie breaker, and the two marks, in this order.
pub proof fn law_answer(m: MessageView, i: int, name: Seq<char>, tie_breaker: u64)
    requires
        0 <= i < m.attrs.len(),
        m.attrs[i] == AttributeView::Username(name),
        forall|j: int| 0 <= j < i ==> !(#[trigger] m.attrs[j] is Username),
    ensures
        ({
            let r = message::reply_of(m, tie_breaker);
            &&& r.class == Class::Success
            &&& r.method == Method::Binding
            &&& r.trans_id == m.trans_id
            &&& r.attrs.len() == 4
            &&& r.attrs[0] == AttributeView::Username(name)
            &&& r.attrs[1] == AttributeView::IceControlled(tie_breaker)
            &&& r.attrs[2] == AttributeView::MessageIntegrityMark
            &&& r.attrs[3] == AttributeView::FingerprintMark
        }),
{
    law_first_username(m.attrs, i, name);
}

/// The parts of a username: those of the first attribute that is a username, where it is of the
/// form `local:remote`, with no colon in the local part and a remote part that is not empty.
pub proof fn law_username_parts(
    attrs: Seq<AttributeView>,
    i: int,
    name: Seq<char>,
    local: Seq<char>,
    remote: Seq<char>,
)
    requires
        0 <= i < attrs.len(),
        attrs[i] == AttributeView::Username(name),
        forall|j: int| 0 <= j < i ==> !(#[trigger] attrs[j] is Username),
    ensures
        attribute::first_local_remote(attrs) == Some((local, remote)) <==> {
            &&& name == local + seq![':'] + remote
            &&& !local.contains(':')
            &&& remote.len() > 0
        },
{
    law_first_username(attrs, i, name);
    laws::law_local_remote(name, local, remote);
}

/// There are no parts of a username where no attribute is one, nor where the first one is not of
/// the form `local:remote`.
pub proof fn law_no_username_parts(attrs: Seq<AttributeView>)
    requires
        forall|i: int, local: Seq<char>, remote: Seq<char>|
            0 <= i < attrs.len() && !local.contains(':') && remote.len() > 0 && (forall|j: int|
                0 <= j < i ==> !(#[trigger] attrs[j] is Username)) ==> #[trigger] attrs[i]
                != AttributeView::Username(#[trigger] (local + seq![':'] + remote)),
    ensures
        attribute::first_local_remote(attrs) is None,
{
    if exists|i: int| 0 <= i < attrs.len() && #[trigger] attrs[i] is Username {
        let i = lemma_username_place(attrs);
        let name = attrs[i]->Username_0;
        law_first_username(attrs, i, name);
        if let Some(parts) = text::split_at_colon(name) {
            laws::law_local_remote(name, parts.0, parts.1);
            assert(attrs[i] == AttributeView::Username(parts.0 + seq![':'] + parts.1));
        }
    } else {
        law_no_username(attrs);
    }
}

} // verus!
