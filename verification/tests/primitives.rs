use stun::address::{decode_xor, IpAddr, SocketAddr};
use stun::header::{Class, Method};
use stun::octets;
use stun::sha1::sha1;
use stun::text::{decode_str, split_str};
use stun::util::hmac_sha1;

fn hex(bytes: &[u8]) -> String {
    let mut s = String::new();
    for b in bytes {
        s.push_str(&format!("{:02x}", b));
    }
    s
}

const TRANS_ID: [u8; 12] = [
    0xb7, 0xe7, 0xa7, 0x01, 0xbc, 0x34, 0xd6, 0x86, 0xfa, 0x87, 0xdf, 0xae,
];

#[test]
fn sha1_of_known_messages() {
    assert_eq!(hex(&sha1(b"")), "da39a3ee5e6b4b0d3255bfef95601890afd80709");
    assert_eq!(hex(&sha1(b"abc")), "a9993e364706816aba3e25717850c26c9cd0d89d");
    assert_eq!(
        hex(&sha1(b"abcdbcdecdefdefgefghfghighijhijkijkljklmklmnlmnomnopnopq")),
        "84983e441c3bd26ebaae4aa1f95129e5e54670f1"
    );
    assert_eq!(hex(&sha1(&[b'a'; 1000])), "291e9a6c66994949b57ba5e650361e98fc36b1ba");
}

#[test]
fn sha1_around_the_block_size() {
    assert_eq!(hex(&sha1(&[b'x'; 55])), "cef734ba81a024479e09eb5a75b6ddae62e6abf1");
    assert_eq!(hex(&sha1(&[b'x'; 56])), "901305367c259952f4e7af8323f480d59f81335b");
    assert_eq!(hex(&sha1(&[b'x'; 63])), "0ddc4e0cccd9a12850deb5abb0853a4425559fec");
    assert_eq!(hex(&sha1(&[b'x'; 64])), "bb2fa3ee7afb9f54c6dfb5d021f14b1ffe40c163");
    assert_eq!(hex(&sha1(&[b'x'; 119])), "4300320394f7ee239bcdce7d3b8bcee173a0cd5c");
}

#[test]
fn hmac_sha1_of_known_messages() {
    assert_eq!(
        hex(&hmac_sha1(&[0x0b; 20], b"Hi There")),
        "b617318655057264e28bc0b6fb378c8ef146be00"
    );
    assert_eq!(
        hex(&hmac_sha1(b"Jefe", b"what do ya want for nothing?")),
        "effcdf6ae5eb2fa2d27416d5f184df9c259a7c79"
    );
    assert_eq!(
        hex(&hmac_sha1(&[0xaa; 20], &[0xdd; 50])),
        "125d7342b9ac11cd91a39af48aa17b4f63f175d3"
    );
    assert_eq!(hex(&hmac_sha1(b"", b"")), "fbdb1d1b18aa6c08324b7d64b71fb76370690e1d");
}

#[test]
fn hmac_sha1_around_the_block_size() {
    assert_eq!(
        hex(&hmac_sha1(
            &[0xaa; 80],
            b"Test Using Larger Than Block-Size Key - Hash Key First"
        )),
        "aa4ae5e15272d00e95705637ce8a3b55ed402112"
    );
    assert_eq!(hex(&hmac_sha1(&[b'k'; 64], b"m")), "d52b5b30393c20f423870bb6d0ad622b02848ca9");
}

#[test]
fn integers_are_big_endian() {
    let buf = [0x00, 0x01, 0x23, 0x45, 0x67, 0x89, 0xab, 0xcd, 0xef];
    assert_eq!(octets::read_u16(&buf, 1), 0x0123);
    assert_eq!(octets::read_u32(&buf, 1), 0x0123_4567);
    assert_eq!(octets::read_u64(&buf, 1), 0x0123_4567_89ab_cdef);
    assert_eq!(octets::u16_to_bytes(0xfe01), [0xfe, 0x01]);
    assert_eq!(octets::u32_to_bytes(0x0123_4567), [0x01, 0x23, 0x45, 0x67]);
    assert_eq!(
        octets::u64_to_bytes(0x0123_4567_89ab_cdef),
        [0x01, 0x23, 0x45, 0x67, 0x89, 0xab, 0xcd, 0xef]
    );
}

#[test]
fn byte_strings_grow_and_are_overwritten() {
    let mut v = vec![1, 2];
    octets::append(&mut v, &[3, 4]);
    octets::append_zeros(&mut v, 2);
    assert_eq!(v, vec![1, 2, 3, 4, 0, 0]);
    octets::overwrite(&mut v, 1, &[9, 8, 7]);
    assert_eq!(v, vec![1, 9, 8, 7, 0, 0]);
    assert!(octets::equal(&v, &[1, 9, 8, 7, 0, 0]));
    assert!(!octets::equal(&v, &[1, 9, 8, 7, 0, 1]));
    assert!(!octets::equal(&v, &[1, 9, 8, 7, 0]));
}

#[test]
fn class_of_a_message_type() {
    assert_eq!(Class::from_typ(0x0001), Class::Request);
    assert_eq!(Class::from_typ(0x0011), Class::Indication);
    assert_eq!(Class::from_typ(0x0101), Class::Success);
    assert_eq!(Class::from_typ(0x0111), Class::Failure);
    assert_eq!(Class::from_typ(0x3eef), Class::Request);
}

#[test]
fn method_of_a_message_type() {
    assert_eq!(Method::from_typ(0x0001), Method::Binding);
    assert_eq!(Method::from_typ(0x0111), Method::Binding);
    assert_eq!(Method::from_typ(0x0000), Method::Unknown);
    assert_eq!(Method::from_typ(0x0002), Method::Unknown);
    assert_eq!(Method::from_typ(0x2001), Method::Unknown);
}

#[test]
fn message_type_round_trip() {
    let classes = [Class::Request, Class::Indication, Class::Success, Class::Failure];
    let types: [u16; 4] = [0x0001, 0x0011, 0x0101, 0x0111];
    for i in 0..4 {
        let typ = classes[i].to_u16() | Method::Binding.to_u16();
        assert_eq!(typ, types[i]);
        assert_eq!(Class::from_typ(typ), classes[i]);
        assert_eq!(Method::from_typ(typ), Method::Binding);
    }
}

#[test]
fn strings_are_utf8_of_at_most_128_bytes() {
    assert_eq!(decode_str(b"gfNK:062g", 9), Some("gfNK:062g"));
    assert_eq!(decode_str(b"gfNK:062g", 4), Some("gfNK"));
    assert_eq!(decode_str(b"", 0), Some(""));
    assert_eq!(decode_str("h\u{e9}llo".as_bytes(), 6), Some("h\u{e9}llo"));
    assert_eq!(decode_str("h\u{e9}llo".as_bytes(), 2), None);
    assert_eq!(decode_str(&[0xff, 0x41], 2), None);
    let long = [b'a'; 129];
    assert_eq!(decode_str(&long, 128).map(|s| s.len()), Some(128));
    assert_eq!(decode_str(&long, 129), None);
}

#[test]
fn usernames_are_split_at_the_first_colon() {
    assert_eq!(split_str("gfNK:062g"), Some(("gfNK", "062g")));
    assert_eq!(split_str("a:b:c"), Some(("a", "b:c")));
    assert_eq!(split_str(":b"), Some(("", "b")));
    assert_eq!(split_str("a:"), None);
    assert_eq!(split_str(":"), None);
    assert_eq!(split_str("ab"), None);
    assert_eq!(split_str(""), None);
    assert_eq!(split_str("\u{e9}\u{20ac}:\u{1f600}"), Some(("\u{e9}\u{20ac}", "\u{1f600}")));
}

#[test]
fn ipv4_address() {
    let value = [0x00, 0x01, 0xa1, 0x47, 0xe1, 0x12, 0xa6, 0x43];
    let addr = SocketAddr { ip: IpAddr::V4([192, 0, 2, 1]), port: 32853 };
    assert_eq!(decode_xor(&value, &TRANS_ID), Some(addr));
    assert_eq!(decode_xor(&value, &[]), Some(addr));
}

#[test]
fn ipv6_address() {
    let value = [
        0x00, 0x02, 0xa1, 0x47, 0x01, 0x13, 0xa9, 0xfa, 0xa5, 0xd3, 0xf1, 0x79, 0xbc, 0x25, 0xf4,
        0xb5, 0xbe, 0xd2, 0xb9, 0xd9,
    ];
    let ip = IpAddr::V6([
        0x20, 0x01, 0x0d, 0xb8, 0x12, 0x34, 0x56, 0x78, 0x00, 0x11, 0x22, 0x33, 0x44, 0x55, 0x66,
        0x77,
    ]);
    assert_eq!(decode_xor(&value, &TRANS_ID), Some(SocketAddr { ip, port: 32853 }));
}

#[test]
fn address_of_another_family() {
    assert_eq!(decode_xor(&[0, 3, 0, 0, 1, 2, 3, 4], &TRANS_ID), None);
    assert_eq!(decode_xor(&[0, 0, 0, 0], &TRANS_ID), None);
}

#[test]
fn masked_address_round_trip() {
    let magic = [0x21, 0x12, 0xa4, 0x42];
    let ip = [10, 20, 30, 40];
    let mut value = vec![0, 1];
    value.extend_from_slice(&(5000_u16 ^ 0x2112).to_be_bytes());
    for i in 0..4 {
        value.push(ip[i] ^ magic[i]);
    }
    assert_eq!(
        decode_xor(&value, &TRANS_ID),
        Some(SocketAddr { ip: IpAddr::V4(ip), port: 5000 })
    );
}
