//! Messages: how they are read, checked, answered and written.

use vstd::prelude::*;
use vstd::utf8;

use crate::attribute;
use crate::attribute::{Attribute, AttributeView, Attributes};
use crate::header;
use crate::header::{Class, Method, MAGIC};
use crate::octets;
use crate::outcome::Outcome;
use crate::outside;
use crate::util;

verus! {

/// A STUN message.
#[derive(Debug)]
pub struct StunMessage<'a> {
    class: Class,
    method: Method,
    trans_id: &'a [u8],
    attrs: Vec<Attribute<'a>>,
    to_check: &'a [u8],
}

/// What a [`StunMessage`] stands for.
pub struct MessageView {
    pub class: Class,
    pub method: Method,
    pub trans_id: Seq<u8>,
    pub attrs: Seq<AttributeView>,
    /// The bytes that the message integrity is taken over, in a message that was read.
    pub to_check: Seq<u8>,
}

impl<'a> View for StunMessage<'a> {
    type V = MessageView;

    closed spec fn view(&self) -> MessageView {
        MessageView {
            class: self.class,
            method: self.method,
            trans_id: self.trans_id@,
            attrs: attribute::views(self.attrs@),
            to_check: self.to_check@,
        }
    }
}

/// A message stands for its own parts.
proof fn law_message_view(m: StunMessage<'_>)
    ensures
        m@.class == m.class,
        m@.method == m.method,
        m@.trans_id == m.trans_id@,
        m@.attrs == attribute::views(m.attrs@),
        m@.to_check == m.to_check@,
{
}

impl MessageView {
    /// What holds of every message: a transaction id of 12 bytes, and attributes within their
    /// limits.
    pub open spec fn wf(self) -> bool {
        &&& self.trans_id.len() == 12
        &&& forall|i: int|
            0 <= i < self.attrs.len() ==> attribute::within_limits(#[trigger] self.attrs[i])
    }

    /// Whether a message can be written: its class, its method and its attributes can, it has an
    /// attribute, and its bytes are no more than memory holds.
    pub open spec fn writable(self) -> bool {
        &&& self.class != Class::Unknown
        &&& self.method != Method::Unknown
        &&& self.attrs.len() > 0
        &&& forall|i: int|
            0 <= i < self.attrs.len() ==> attribute::writable(#[trigger] self.attrs[i])
        &&& 20 + attribute::encoded_all(self.attrs).len() <= usize::MAX
    }
}

// Reading.

/// The message type in the first two bytes, whose two highest bits are left out.
pub open spec fn type_of(buf: Seq<u8>) -> u16 {
    ((buf[0] % 64) * 0x100 + buf[1]) as u16
}

/// `buf` with the length in its header replaced by `len`.
pub open spec fn with_length(buf: Seq<u8>, len: int) -> Seq<u8> {
    octets::splice(buf, 2, octets::u16_bytes(len))
}

/// The message that `buf` holds.
///
/// The length in the header is a multiple of four and that of what follows the header. There is a
/// message integrity, and it is not the first attribute. The bytes to check are those before it,
/// with a header whose length ends with it.
pub open spec fn message_of(buf: Seq<u8>) -> Outcome<MessageView> {
    if buf.len() < 4 {
        Outcome::OutOfBounds
    } else if octets::u16_at(buf, 2) % 4 != 0 {
        Outcome::Malformed
    } else if buf.len() < 20 {
        Outcome::OutOfBounds
    } else if octets::u16_at(buf, 2) != buf.len() - 20 {
        Outcome::Malformed
    } else if buf.subrange(4, 8) != MAGIC@ {
        Outcome::Malformed
    } else {
        let trans_id = buf.subrange(8, 20);
        let parsed = attribute::attributes_of(buf.skip(20), trans_id);
        match parsed.0 {
            Outcome::OutOfBounds => Outcome::OutOfBounds,
            Outcome::Malformed => Outcome::Malformed,
            Outcome::Decoded(attrs) => match parsed.1 {
                Some(off) => if off == 0 {
                    Outcome::Malformed
                } else {
                    Outcome::Decoded(
                        MessageView {
                            class: header::class_of(type_of(buf)),
                            method: header::method_of(type_of(buf)),
                            trans_id,
                            attrs,
                            to_check: with_length(buf, off + 24).take(off + 20),
                        },
                    )
                },
                None => Outcome::Malformed,
            },
        }
    }
}

/// Whether [`parse_message`] stays within `buf`.
pub fn is_within_bounds(buf: &[u8]) -> (r: bool)
    ensures
        r == !(message_of(buf@) is OutOfBounds),
{
    if buf.len() < 4 {
        return false;
    }
    let len: u16 = octets::read_u16(buf, 2);
    if len % 4 != 0 {
        return true;
    }
    if buf.len() < 20 {
        return false;
    }
    if len as usize != buf.len() - 20 || !octets::equal(&buf[4..8], &MAGIC) {
        return true;
    }
    let body: &[u8] = &buf[20..buf.len()];
    assert(body@ =~= buf@.skip(20));
    Attribute::stays_within(body, &buf[8..20])
}

/// Reads the message that `buf` holds.
///
/// The length in the header is overwritten by that which the message integrity is taken over.
pub fn parse_message<'a>(buf: &'a mut [u8]) -> (r: Option<StunMessage<'a>>)
    requires
        !(message_of(old(buf)@) is OutOfBounds),
    ensures
        match r {
            Some(m) => {
                &&& message_of(old(buf)@) == Outcome::Decoded(m@)
                &&& m@.wf()
                &&& final(buf)@ == with_length(old(buf)@, m@.to_check.len() as int + 4)
            },
            None => {
                &&& message_of(old(buf)@) is Malformed
                &&& final(buf)@ == old(buf)@
            },
        },
{
    let typ: u16 = (buf[0] % 64) as u16 * 0x100 + buf[1] as u16;
    let len: u16 = octets::read_u16(buf, 2);
    if len % 4 != 0 {
        return None;
    }
    if len as usize != buf.len() - 20 {
        return None;
    }
    if !octets::equal(&buf[4..8], &MAGIC) {
        return None;
    }
    let ghost bytes = buf@;
    let ghost parsed = attribute::attributes_of(bytes.skip(20), bytes.subrange(8, 20));
    let mut message_integrity_offset: usize = 0;
    let end: usize = buf.len();
    assert(bytes.subrange(20, end as int) =~= bytes.skip(20));
    proof {
        attribute::lemma_attributes_shape(bytes.skip(20), bytes.subrange(8, 20), 0, None);
    }
    if Attribute::parse(&buf[20..end], &buf[8..20], &mut message_integrity_offset).is_none() {
        return None;
    }
    if message_integrity_offset == 0 {
        return None;
    }
    // The message integrity only covers the length up to and including its own attribute.
    let m_int_len: u16 = (message_integrity_offset + 4 + 20) as u16;
    buf[2] = (m_int_len / 0x100) as u8;
    buf[3] = (m_int_len % 0x100) as u8;

    let shared: &'a [u8] = buf;
    assert(shared@ =~= with_length(bytes, m_int_len as int));
    let trans_id: &'a [u8] = &shared[8..20];
    let body: &'a [u8] = &shared[20..end];
    assert(trans_id@ =~= bytes.subrange(8, 20));
    assert(body@ =~= bytes.skip(20));
    let attrs: Vec<Attribute<'a>> = match Attribute::parse(
        body,
        trans_id,
        &mut message_integrity_offset,
    ) {
        Some(attrs) => attrs,
        // the same bytes were read before
        None => {
            return None;
        },
    };
    let to_check: &'a [u8] = &shared[0..message_integrity_offset + 20];
    assert(to_check@ =~= shared@.take(message_integrity_offset + 20));
    Some(
        StunMessage {
            class: Class::from_typ(typ),
            method: Method::from_typ(typ),
            trans_id,
            attrs,
            to_check,
        },
    )
}

// Answering.

/// Whether a message is answered: a binding request with a username is.
pub open spec fn answerable(m: MessageView) -> bool {
    &&& m.class == Class::Request
    &&& m.method == Method::Binding
    &&& attribute::first_username(m.attrs) is Some
}

/// The answer to a message, with the same transaction id and username.
pub open spec fn reply_of(m: MessageView, tie_breaker: u64) -> MessageView {
    MessageView {
        class: Class::Success,
        method: Method::Binding,
        trans_id: m.trans_id,
        attrs: seq![
            AttributeView::Username(attribute::first_username(m.attrs)->0),
            AttributeView::IceControlled(tie_breaker),
            AttributeView::MessageIntegrityMark,
            AttributeView::FingerprintMark,
        ],
        to_check: Seq::empty(),
    }
}

/// An answer can be written.
pub proof fn lemma_reply_writable(m: MessageView, tie_breaker: u64)
    requires
        m.wf(),
        answerable(m),
    ensures
        reply_of(m, tie_breaker).wf(),
        reply_of(m, tie_breaker).writable(),
{
    broadcast use octets::lemma_u64_bytes_len;

    let attrs = reply_of(m, tie_breaker).attrs;
    attribute::lemma_first_username_short(m.attrs);
    reveal_with_fuel(attribute::encoded_all, 5);
    assert(attrs.drop_last().drop_last().drop_last().drop_last() =~= Seq::empty());
    assert(attribute::encoded_all(attrs) == attribute::encoded(attrs[0]) + attribute::encoded(
        attrs[1],
    ) + attribute::encoded(attrs[2]) + attribute::encoded(attrs[3]));
}

// Writing.

/// The header of a message: type, length, magic cookie and transaction id.
pub open spec fn header_bytes(m: MessageView, len: int) -> Seq<u8> {
    octets::u16_bytes((m.class.bits() | m.method.bits()) as int) + octets::u16_bytes(len) + MAGIC@
        + m.trans_id
}

/// The bytes of a message with the integrity filled in.
///
/// It is taken over the bytes before it, with a header whose length leaves out the eight bytes of
/// a fingerprint; only then is the length that of all attributes.
pub open spec fn with_integrity(m: MessageView, key: Seq<u8>) -> Seq<u8> {
    let body = attribute::encoded_all(m.attrs);
    let at = attribute::mark_offset(m.attrs, AttributeView::MessageIntegrityMark, 20);
    let plain = header_bytes(m, body.len() - 8) + body;
    with_length(
        octets::splice(plain, at + 4, util::hmac_sha1_of(key, plain.take(at))),
        body.len() as int,
    )
}

/// `buf` with a fingerprint in the attribute at `at`.
pub open spec fn with_fingerprint(buf: Seq<u8>, at: int, checksum: u32) -> Seq<u8> {
    octets::splice(buf, at + 4, octets::u32_bytes((checksum ^ 0x5354_554e) as int))
}

/// The bytes of a message under the password whose bytes are `key`.
pub open spec fn message_bytes(m: MessageView, key: Seq<u8>) -> Seq<u8> {
    let buf = with_integrity(m, key);
    let at = attribute::mark_offset(m.attrs, AttributeView::FingerprintMark, 20);
    with_fingerprint(buf, at, outside::crc32_iso_hdlc(buf.take(at)))
}

/// Writes the fingerprint that comes of `checksum` into the attribute at `at`.
pub fn write_fingerprint(buf: &mut Vec<u8>, at: usize, checksum: u32)
    requires
        at + 8 <= old(buf).len(),
    ensures
        final(buf)@ == with_fingerprint(old(buf)@, at as int, checksum),
{
    octets::overwrite(buf, at + 4, &octets::u32_to_bytes(checksum ^ 0x5354_554e));
}

impl<'a> StunMessage<'a> {
    /// What holds of every message.
    #[verifier::type_invariant]
    spec fn valid(self) -> bool {
        self@.wf()
    }

    /// The two parts of the username, which is of the form `local:remote`.
    pub fn local_remote_username(&self) -> (r: Option<(&str, &str)>)
        ensures
            match (r, attribute::first_local_remote(self@.attrs)) {
                (Some(p), Some(q)) => p.0@ == q.0 && p.1@ == q.1,
                (None, None) => true,
                _ => false,
            },
    {
        self.attrs.local_remote()
    }

    /// Whether the message integrity is that which `password` gives.
    pub fn check_integrity(&self, password: &str) -> (r: bool)
        ensures
            r == (attribute::first_integrity(self@.attrs) == Some(
                util::hmac_sha1_of(utf8::encode_utf8(password@), self@.to_check),
            )),
    {
        if let Some(integ) = self.attrs.message_integrity() {
            let comp: [u8; 20] = util::hmac_sha1(password.as_bytes(), self.to_check);
            octets::equal(&comp, integ)
        } else {
            false
        }
    }

    /// The username that an answer to this message carries, if it is answered.
    fn username_to_answer(&self) -> (r: Option<&'a str>)
        ensures
            match r {
                Some(v) => answerable(self@) && attribute::first_username(self@.attrs) == Some(v@),
                None => !answerable(self@),
            },
    {
        if self.class != Class::Request || self.method != Method::Binding {
            return None;
        }
        self.attrs.username()
    }

    /// The answer that carries `username` and `tie_breaker`.
    fn answer(&self, username: &'a str, tie_breaker: u64) -> (r: StunMessage<'a>)
        requires
            attribute::first_username(self@.attrs) == Some(username@),
        ensures
            r@ == reply_of(self@, tie_breaker),
    {
        proof {
            use_type_invariant(self);
            attribute::lemma_first_username_short(self@.attrs);
        }
        let attrs: Vec<Attribute<'a>> = vec![
            // the username is of the form local:remote in both directions
            Attribute::Username(username),
            Attribute::IceControlled(tie_breaker),
            Attribute::MessageIntegrityMark,
            Attribute::FingerprintMark,
        ];
        let to_check: &'a [u8] = &[];
        assert(attribute::views(attrs@) =~= reply_of(self@, tie_breaker).attrs);
        assert(to_check@ =~= Seq::empty());
        StunMessage {
            class: Class::Success,
            method: Method::Binding,
            trans_id: self.trans_id,
            attrs,
            to_check,
        }
    }

    /// The answer to this message that carries `tie_breaker`.
    pub fn reply_with(&self, tie_breaker: u64) -> (r: Option<StunMessage<'a>>)
        ensures
            match r {
                Some(m) => {
                    &&& answerable(self@)
                    &&& m@ == reply_of(self@, tie_breaker)
                    &&& m@.wf()
                    &&& m@.writable()
                },
                None => !answerable(self@),
            },
    {
        match self.username_to_answer() {
            Some(username) => {
                proof {
                    use_type_invariant(self);
                    lemma_reply_writable(self@, tie_breaker);
                }
                Some(self.answer(username, tie_breaker))
            },
            None => None,
        }
    }

    /// The answer to this message, with a random tie breaker.
    pub fn reply(&self) -> (r: Option<StunMessage<'a>>)
        ensures
            match r {
                Some(m) => {
                    &&& answerable(self@)
                    &&& exists|tie_breaker: u64| m@ == #[trigger] reply_of(self@, tie_breaker)
                    &&& m@.wf()
                    &&& m@.writable()
                },
                None => !answerable(self@),
            },
    {
        match self.username_to_answer() {
            Some(username) => {
                let tie_breaker: u64 = outside::random_u64();
                proof {
                    use_type_invariant(self);
                    lemma_reply_writable(self@, tie_breaker);
                }
                Some(self.answer(username, tie_breaker))
            },
            None => None,
        }
    }

    /// The bytes of this message, with its integrity under `password` and its fingerprint.
    pub fn to_bytes(&self, password: &str) -> (r: Vec<u8>)
        requires
            self@.writable(),
        ensures
            r@ == message_bytes(self@, utf8::encode_utf8(password@)),
    {
        proof {
            use_type_invariant(self);
        }
        let ghost attrs = self@.attrs;
        let ghost body = attribute::encoded_all(attrs);
        let n: usize = self.attrs.len();
        let mut attr_len: usize = 0;
        let mut i: usize = 0;
        while i < n
            invariant
                i <= n,
                n == self.attrs@.len(),
                attrs == attribute::views(self.attrs@),
                forall|j: int| 0 <= j < attrs.len() ==> attribute::writable(#[trigger] attrs[j]),
                attr_len == attribute::encoded_all(attrs.take(i as int)).len(),
                attribute::encoded_all(attrs).len() <= usize::MAX,
            decreases n - i,
        {
            proof {
                attribute::lemma_encoded_all_push(attrs, i as int);
                attribute::lemma_encoded_all_prefix(attrs, i + 1);
                assert(attribute::writable(attrs[i as int]));
            }
            attr_len = attr_len + self.attrs[i].padded_len();
            i = i + 1;
        }
        proof {
            assert(attrs.take(n as int) =~= attrs);
            attribute::lemma_encoded_len(attrs.last());
        }

        let mut buf: Vec<u8> = Vec::with_capacity(20 + attr_len);
        let typ: u16 = self.class.to_u16() | self.method.to_u16();
        octets::append(&mut buf, &octets::u16_to_bytes(typ));
        // -8 for the fingerprint
        octets::append(&mut buf, &octets::u16_to_bytes(((attr_len - 8) % 0x1_0000) as u16));
        octets::append(&mut buf, &MAGIC);
        octets::append(&mut buf, self.trans_id);
        let ghost head = header_bytes(self@, body.len() - 8);
        proof {
            octets::lemma_u16_bytes_low(body.len() - 8);
            assert(buf@ =~= head);
        }

        let mut off: usize = 20;
        let mut i_off: usize = 0;
        let mut f_off: usize = 0;
        let mut k: usize = 0;
        assert(buf@ =~= head + attribute::encoded_all(attrs.take(0)));
        while k < n
            invariant
                k <= n,
                n == self.attrs@.len(),
                attrs == attribute::views(self.attrs@),
                forall|j: int| 0 <= j < attrs.len() ==> attribute::writable(#[trigger] attrs[j]),
                20 + attribute::encoded_all(attrs).len() <= usize::MAX,
                head.len() == 20,
                buf@ == head + attribute::encoded_all(attrs.take(k as int)),
                off == 20 + attribute::encoded_all(attrs.take(k as int)).len(),
                i_off == attribute::mark_offset(
                    attrs.take(k as int),
                    AttributeView::MessageIntegrityMark,
                    20,
                ),
                f_off == attribute::mark_offset(
                    attrs.take(k as int),
                    AttributeView::FingerprintMark,
                    20,
                ),
            decreases n - k,
        {
            proof {
                attribute::lemma_encoded_all_push(attrs, k as int);
                attribute::lemma_encoded_all_prefix(attrs, k + 1);
                assert(attribute::writable(attrs[k as int]));
                assert(attrs.take(k + 1).drop_last() =~= attrs.take(k as int));
            }
            let a: &Attribute<'a> = &self.attrs[k];
            a.to_bytes(&mut buf);
            if let Attribute::MessageIntegrityMark = a {
                i_off = off;
            }
            if let Attribute::FingerprintMark = a {
                f_off = off;
            }
            off = off + a.padded_len();
            k = k + 1;
            assert(buf@ =~= head + attribute::encoded_all(attrs.take(k as int)));
        }
        proof {
            assert(attrs.take(n as int) =~= attrs);
            attribute::lemma_mark_offset(attrs, AttributeView::MessageIntegrityMark, 20);
            attribute::lemma_mark_offset(attrs, AttributeView::FingerprintMark, 20);
            util::lemma_hmac_sha1_len(utf8::encode_utf8(password@), buf@.take(i_off as int));
        }

        let hmac: [u8; 20] = util::hmac_sha1(password.as_bytes(), &buf[0..i_off]);
        assert(buf@.subrange(0, i_off as int) =~= buf@.take(i_off as int));
        octets::overwrite(&mut buf, i_off + 4, &hmac);

        // fill in the correct length
        octets::overwrite(&mut buf, 2, &octets::u16_to_bytes((attr_len % 0x1_0000) as u16));
        proof {
            octets::lemma_u16_bytes_low(attr_len as int);
        }

        assert(buf@.subrange(0, f_off as int) =~= buf@.take(f_off as int));
        let crc: u32 = outside::checksum_crc32(&buf[0..f_off]);
        write_fingerprint(&mut buf, f_off, crc);
        buf
    }
}

} // verus!
