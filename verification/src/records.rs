//! Attributes as records that follow one another.

use vstd::prelude::*;

use crate::address;
use crate::attribute;
use crate::attribute::AttributeView;
use crate::octets;
use crate::outcome::Outcome;

verus! {

/// Whether the records of `body` from `off` on, one behind the other, lead to one that starts at
/// `at`.
pub open spec fn leads_to(body: Seq<u8>, off: int, at: int) -> bool
    decreases at - off,
{
    let next = off + 4 + attribute::padded(octets::u16_at(body, off + 2));
    off == at || (off + 4 <= body.len() && off + 4 <= next <= at && leads_to(body, next, at))
}

/// Whether two lists of attributes are the same but for a fingerprint at `k`, which is `v` in the
/// one and `w` in the other.
pub open spec fn differ_at(
    s: Seq<AttributeView>,
    t: Seq<AttributeView>,
    k: int,
    v: u32,
    w: u32,
) -> bool {
    &&& 0 <= k < s.len()
    &&& s[k] == AttributeView::Fingerprint(v)
    &&& t == s.update(k, AttributeView::Fingerprint(w))
}

/// Whether two readings come to the same but for one fingerprint.
pub open spec fn alike(
    r: (Outcome<Seq<AttributeView>>, Option<int>),
    q: (Outcome<Seq<AttributeView>>, Option<int>),
    v: u32,
    w: u32,
) -> bool {
    &&& r.1 == q.1
    &&& match r.0 {
        Outcome::Decoded(s) => {
            &&& q.0 is Decoded
            &&& exists|k: int| #[trigger] differ_at(s, q.0->Decoded_0, k, v, w)
        },
        Outcome::Malformed => q.0 is Malformed,
        Outcome::OutOfBounds => q.0 is OutOfBounds,
    }
}

/// Records lead forward.
pub proof fn lemma_leads_forward(body: Seq<u8>, off: int, at: int)
    requires
        leads_to(body, off, at),
    ensures
        off <= at,
{
}

/// The record behind one that is not the last.
proof fn lemma_next(body: Seq<u8>, off: int, at: int)
    requires
        leads_to(body, off, at),
        off < at,
    ensures
        ({
            let next = off + 4 + attribute::padded(octets::u16_at(body, off + 2));
            off + 4 <= next <= at && leads_to(body, next, at)
        }),
{
    reveal_with_fuel(leads_to, 2);
}

/// What is read of one attribute stays so when bytes follow.
proof fn lemma_attribute_extends(rest: Seq<u8>, more: Seq<u8>, trans_id: Seq<u8>)
    requires
        4 <= rest.len(),
        octets::u16_at(rest, 2) <= rest.len() - 4,
        attribute::attribute_at(rest, trans_id) is Decoded,
    ensures
        attribute::attribute_at(rest + more, trans_id) == attribute::attribute_at(rest, trans_id),
{
    reveal(attribute::attribute_at);
    let all = rest + more;
    let len = octets::u16_at(rest, 2);
    assert(octets::u16_at(all, 0) == octets::u16_at(rest, 0));
    assert(octets::u16_at(all, 2) == len);
    assert(all.subrange(4, 4 + len) =~= rest.subrange(4, 4 + len));
    let typ = octets::u16_at(rest, 0);
    if typ == 0x0009 {
        assert(all.subrange(8, 4 + len) =~= rest.subrange(8, 4 + len));
    } else if typ == 0x0020 {
        let x = rest.skip(4);
        let y = all.skip(4);
        assert(y =~= x + more);
        assert(octets::u16_at(y, 2) == octets::u16_at(x, 2));
        if x[1] == 1 {
            assert(address::unmasked(y.skip(4), trans_id, 4) =~= address::unmasked(
                x.skip(4),
                trans_id,
                4,
            ));
        } else if x[1] == 2 {
            assert(address::unmasked(y.skip(4), trans_id, 16) =~= address::unmasked(
                x.skip(4),
                trans_id,
                16,
            ));
        }
    } else if typ == 0x8028 {
        assert(octets::u32_at(all, 4) == octets::u32_at(rest, 4));
    }
}

/// What is read of one attribute depends on its first bytes alone: on its value, on the four bytes
/// behind its length, and on the 24 first bytes of an address.
proof fn lemma_attribute_agrees(x: Seq<u8>, y: Seq<u8>, trans_id: Seq<u8>, n: int)
    requires
        x.len() == y.len(),
        8 <= n <= x.len(),
        4 + octets::u16_at(x, 2) <= n,
        octets::u16_at(x, 0) == 0x0020 ==> 24 <= n,
        forall|i: int| 0 <= i < n ==> x[i] == y[i],
    ensures
        attribute::attribute_at(x, trans_id) == attribute::attribute_at(y, trans_id),
{
    reveal(attribute::attribute_at);
    let len = octets::u16_at(x, 2);
    assert(octets::u16_at(x, 0) == octets::u16_at(y, 0));
    assert(octets::u16_at(y, 2) == len);
    assert(x.subrange(4, 4 + len) =~= y.subrange(4, 4 + len));
    let typ = octets::u16_at(x, 0);
    if typ == 0x0009 {
        if len >= 4 {
            assert(x.subrange(8, 4 + len) =~= y.subrange(8, 4 + len));
        }
    } else if typ == 0x0020 {
        let a = x.skip(4);
        let b = y.skip(4);
        assert(octets::u16_at(a, 2) == octets::u16_at(b, 2));
        assert(a[1] == b[1]);
        assert(address::unmasked(a.skip(4), trans_id, 4) =~= address::unmasked(
            b.skip(4),
            trans_id,
            4,
        ));
        assert(address::unmasked(a.skip(4), trans_id, 16) =~= address::unmasked(
            b.skip(4),
            trans_id,
            16,
        ));
    } else if typ == 0x8028 {
        assert(octets::u32_at(x, 4) == octets::u32_at(y, 4));
    }
}

/// Whether an address is read depends on its first bytes alone.
proof fn lemma_address_agrees(x: Seq<u8>, y: Seq<u8>, trans_id: Seq<u8>)
    requires
        x.len() == y.len(),
        8 <= x.len(),
        octets::u16_at(x, 0) == 0x0020,
        forall|i: int| 0 <= i < 8 ==> x[i] == y[i],
    ensures
        ({
            let r = attribute::attribute_at(x, trans_id);
            let q = attribute::attribute_at(y, trans_id);
            &&& r is Decoded <==> q is Decoded
            &&& r is Malformed <==> q is Malformed
        }),
{
    reveal(attribute::attribute_at);
    assert(octets::u16_at(y, 0) == 0x0020);
    assert(x.skip(4)[1] == y.skip(4)[1]);
}

/// What is read from `off` on depends on the bytes from there on alone.
pub proof fn lemma_shifted(
    x: Seq<u8>,
    i: int,
    m: Option<int>,
    y: Seq<u8>,
    j: int,
    n: Option<int>,
    trans_id: Seq<u8>,
)
    requires
        0 <= i <= x.len(),
        0 <= j <= y.len(),
        x.skip(i) == y.skip(j),
        m is Some <==> n is Some,
    ensures
        ({
            let r = attribute::attributes_from(x, trans_id, i, m);
            let q = attribute::attributes_from(y, trans_id, j, n);
            &&& r.0 == q.0
            &&& match m {
                Some(_) => r.1 == m && q.1 == n,
                None => match (r.1, q.1) {
                    (Some(o), Some(p)) => o - i == p - j,
                    (None, None) => true,
                    _ => false,
                },
            }
        }),
    decreases x.len() - i,
{
    let rest = x.skip(i);
    assert(rest.len() == x.len() - i && rest.len() == y.len() - j);
    let typ = octets::u16_at(rest, 0);
    let len = octets::u16_at(rest, 2);
    let step = 4 + attribute::padded(len);
    if i < x.len() && 4 <= rest.len() && len <= rest.len() - 4 && step <= rest.len() {
        assert(x.skip(i + step) =~= rest.skip(step));
        assert(y.skip(j + step) =~= rest.skip(step));
        if m is Some && typ != 0x8028 {
            lemma_shifted(x, i + step, m, y, j + step, n, trans_id);
        } else if typ == 0x0008 {
            lemma_shifted(x, i + step, Some(i), y, j + step, Some(j), trans_id);
        } else {
            lemma_shifted(x, i + step, m, y, j + step, n, trans_id);
        }
    }
}

/// Bytes behind attributes that are read are read behind them.
pub proof fn lemma_continued(
    a: Seq<u8>,
    b: Seq<u8>,
    trans_id: Seq<u8>,
    off: int,
    integrity: Option<int>,
)
    requires
        0 <= off <= a.len(),
        attribute::attributes_from(a, trans_id, off, integrity).0 is Decoded,
    ensures
        ({
            let r = attribute::attributes_from(a, trans_id, off, integrity);
            attribute::attributes_from(a + b, trans_id, off, integrity) == attribute::after(
                r.0->Decoded_0,
                attribute::attributes_from(a + b, trans_id, a.len() as int, r.1),
            )
        }),
    decreases a.len() - off,
{
    let r = attribute::attributes_from(a, trans_id, off, integrity);
    let rest = a.skip(off);
    let last = attribute::attributes_from(a + b, trans_id, a.len() as int, r.1);
    if off == a.len() {
        if let Outcome::Decoded(attrs) = last.0 {
            assert(Seq::<AttributeView>::empty() + attrs =~= attrs);
        }
    } else {
        let all = (a + b).skip(off);
        assert(all =~= rest + b);
        let typ = octets::u16_at(rest, 0);
        let len = octets::u16_at(rest, 2);
        let next = off + 4 + attribute::padded(len);
        assert(octets::u16_at(all, 0) == typ);
        assert(octets::u16_at(all, 2) == len);
        if integrity is Some && typ != 0x8028 {
            lemma_continued(a, b, trans_id, next, integrity);
        } else {
            lemma_attribute_extends(rest, b, trans_id);
            let first = attribute::attribute_at(rest, trans_id)->Decoded_0;
            let seen = if typ == 0x0008 {
                Some(off)
            } else {
                integrity
            };
            lemma_continued(a, b, trans_id, next, seen);
            let others = attribute::attributes_from(a, trans_id, next, seen);
            if let Some(f) = first {
                if let Outcome::Decoded(attrs) = last.0 {
                    let done = others.0->Decoded_0;
                    assert(seq![f] + (done + attrs) =~= (seq![f] + done) + attrs);
                }
            }
        }
    }
}

/// An attribute in front keeps two readings alike.
proof fn lemma_alike_first(
    first: Option<AttributeView>,
    r: (Outcome<Seq<AttributeView>>, Option<int>),
    q: (Outcome<Seq<AttributeView>>, Option<int>),
    v: u32,
    w: u32,
)
    requires
        alike(r, q, v, w),
    ensures
        alike(attribute::with_first(first, r), attribute::with_first(first, q), v, w),
{
    if let (Some(a), Outcome::Decoded(s)) = (first, r.0) {
        let t = q.0->Decoded_0;
        let k = choose|k: int| differ_at(s, t, k, v, w);
        assert(seq![a] + t =~= (seq![a] + s).update(k + 1, AttributeView::Fingerprint(w)));
        assert(differ_at(
            attribute::with_first(first, r).0->Decoded_0,
            attribute::with_first(first, q).0->Decoded_0,
            k + 1,
            v,
            w,
        ));
    }
}

/// The value of the fingerprint at `at`, behind the message integrity, makes no other difference.
proof fn lemma_alike_behind_integrity(
    x: Seq<u8>,
    y: Seq<u8>,
    trans_id: Seq<u8>,
    off: int,
    integrity: int,
    at: int,
)
    requires
        x.len() == y.len(),
        0 <= off,
        leads_to(x, off, at),
        at + 8 <= x.len(),
        octets::u16_at(x, at) == 0x8028,
        octets::u16_at(x, at + 2) == 4,
        forall|i: int| 0 <= i < x.len() && !(at + 4 <= i < at + 8) ==> x[i] == y[i],
    ensures
        alike(
            attribute::attributes_from(x, trans_id, off, Some(integrity)),
            attribute::attributes_from(y, trans_id, off, Some(integrity)),
            octets::u32_at(x, at + 4) as u32,
            octets::u32_at(y, at + 4) as u32,
        ),
        attribute::attributes_from(x, trans_id, off, Some(integrity)).1 == Some(integrity),
    decreases at - off,
{
    let v = octets::u32_at(x, at + 4) as u32;
    let w = octets::u32_at(y, at + 4) as u32;
    let a = x.skip(off);
    let b = y.skip(off);
    let typ = octets::u16_at(a, 0);
    let len = octets::u16_at(a, 2);
    assert(octets::u16_at(b, 0) == typ);
    assert(octets::u16_at(b, 2) == len);
    let next = off + 4 + attribute::padded(len);
    let r = attribute::attributes_from(x, trans_id, next, Some(integrity));
    let q = attribute::attributes_from(y, trans_id, next, Some(integrity));
    if off == at {
        assert(x.skip(next) =~= y.skip(next));
        lemma_shifted(x, next, Some(integrity), y, next, Some(integrity), trans_id);
        assert(octets::u32_at(a, 4) == octets::u32_at(x, at + 4));
        assert(octets::u32_at(b, 4) == octets::u32_at(y, at + 4));
        assert(attribute::attribute_at(a, trans_id) == Outcome::Decoded(
            Some(AttributeView::Fingerprint(v)),
        ) && attribute::attribute_at(b, trans_id) == Outcome::Decoded(
            Some(AttributeView::Fingerprint(w)),
        )) by {
            reveal(attribute::attribute_at);
        }
        if let Outcome::Decoded(s) = r.0 {
            let l = seq![AttributeView::Fingerprint(v)] + s;
            let m = seq![AttributeView::Fingerprint(w)] + s;
            assert(m =~= l.update(0, AttributeView::Fingerprint(w)));
            assert(differ_at(
                attribute::attributes_from(x, trans_id, off, Some(integrity)).0->Decoded_0,
                attribute::attributes_from(y, trans_id, off, Some(integrity)).0->Decoded_0,
                0,
                v,
                w,
            ));
        }
    } else {
        assert(octets::u16_at(x, off + 2) == len);
        lemma_next(x, off, at);
        lemma_alike_behind_integrity(x, y, trans_id, next, integrity, at);
        if typ == 0x8028 {
            lemma_attribute_agrees(a, b, trans_id, at + 4 - off);
            if let Outcome::Decoded(first) = attribute::attribute_at(a, trans_id) {
                lemma_alike_first(first, r, q, v, w);
            }
        }
    }
}

/// The value of the fingerprint at `at`, behind a message integrity at `o`, makes no other
/// difference. Nothing is read where no message integrity of 20 bytes fits in front of it.
pub proof fn lemma_alike(x: Seq<u8>, y: Seq<u8>, trans_id: Seq<u8>, off: int, o: int, at: int)
    requires
        x.len() == y.len(),
        0 <= off,
        leads_to(x, off, o),
        octets::u16_at(x, o) == 0x0008,
        o < at,
        leads_to(x, o, at),
        at + 8 <= x.len(),
        octets::u16_at(x, at) == 0x8028,
        octets::u16_at(x, at + 2) == 4,
        forall|i: int| 0 <= i < x.len() && !(at + 4 <= i < at + 8) ==> x[i] == y[i],
    ensures
        ({
            let r = attribute::attributes_from(x, trans_id, off, None);
            let q = attribute::attributes_from(y, trans_id, off, None);
            &&& alike(
                r,
                q,
                octets::u32_at(x, at + 4) as u32,
                octets::u32_at(y, at + 4) as u32,
            )
            &&& r.0 is Decoded ==> off + 24 <= at
            &&& r.0 is Decoded ==> (r.1 matches Some(m) && off <= m < at)
        }),
    decreases o - off,
{
    let v = octets::u32_at(x, at + 4) as u32;
    let w = octets::u32_at(y, at + 4) as u32;
    let a = x.skip(off);
    let b = y.skip(off);
    let typ = octets::u16_at(a, 0);
    let len = octets::u16_at(a, 2);
    assert(octets::u16_at(x, off) == typ);
    assert(octets::u16_at(x, off + 2) == len);
    assert(octets::u16_at(b, 0) == typ);
    assert(octets::u16_at(b, 2) == len);
    let next = off + 4 + attribute::padded(len);
    lemma_leads_on(x, off, o, at);
    lemma_next(x, off, at);
    if typ == 0x0008 {
        lemma_attribute_agrees(a, b, trans_id, at + 4 - off);
        lemma_alike_behind_integrity(x, y, trans_id, next, off, at);
        if let Outcome::Decoded(first) = attribute::attribute_at(a, trans_id) {
            assert(len == 20) by {
                reveal(attribute::attribute_at);
            }
            lemma_alike_first(
                first,
                attribute::attributes_from(x, trans_id, next, Some(off)),
                attribute::attributes_from(y, trans_id, next, Some(off)),
                v,
                w,
            );
        }
    } else {
        let r = attribute::attributes_from(x, trans_id, next, None);
        let q = attribute::attributes_from(y, trans_id, next, None);
        lemma_next(x, off, o);
        lemma_alike(x, y, trans_id, next, o, at);
        if typ == 0x0020 {
            lemma_address_agrees(a, b, trans_id);
        }
        if typ != 0x0020 || off + 24 <= at + 4 {
            lemma_attribute_agrees(a, b, trans_id, at + 4 - off);
            if let Outcome::Decoded(first) = attribute::attribute_at(a, trans_id) {
                lemma_alike_first(first, r, q, v, w);
            }
        }
    }
}

/// Records that lead from `off` to `o` and from there to `at` lead from behind the first of them
/// to `at`.
proof fn lemma_leads_on(body: Seq<u8>, off: int, o: int, at: int)
    requires
        0 <= off,
        leads_to(body, off, o),
        leads_to(body, o, at),
        o < at,
    ensures
        off < at,
        leads_to(body, off, at),
    decreases o - off,
{
    if off < o {
        lemma_next(body, off, o);
        lemma_leads_on(
            body,
            off + 4 + attribute::padded(octets::u16_at(body, off + 2)),
            o,
            at,
        );
    }
}

} // verus!
