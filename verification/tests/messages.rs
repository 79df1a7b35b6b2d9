use stun::address::{IpAddr, SocketAddr};
use stun::message::write_fingerprint;
use stun::util::hmac_sha1;
use stun::{is_within_bounds, parse_message, Attribute, StunMessage};

const TRANS_ID: [u8; 12] = [
    0xb7, 0xe7, 0xa7, 0x01, 0xbc, 0x34, 0xd6, 0x86, 0xfa, 0x87, 0xdf, 0xae,
];

const PASSWORD: &str = "VOkJxbRl1RmTxUk/WvJxBt";

const INTEGRITY: [u8; 24] = [
    0, 8, 0, 20, 1, 2, 3, 4, 5, 6, 7, 8, 9, 10, 11, 12, 13, 14, 15, 16, 17, 18, 19, 20,
];

/// A binding request of RFC 5769.
const REQUEST: &str = "000100582112a442b7e7a701bc34d686fa87dfae\
    802200105354554e207465737420636c69656e74\
    002400046e0001ff80290008932ff9b151263b36\
    000600096576746a3a68367659202020\
    000800149aeaa70cbfd8cb56781ef2b5b2d3f249c1b571a2\
    80280004e57a3bcf";

fn unhex(s: &str) -> Vec<u8> {
    let mut r = vec![];
    let mut i = 0;
    while i < s.len() {
        r.push(u8::from_str_radix(&s[i..i + 2], 16).unwrap());
        i += 2;
    }
    r
}

/// A message of type `typ` with the attributes `parts`.
fn message(typ: u16, parts: &[&[u8]]) -> Vec<u8> {
    let mut body = vec![];
    for p in parts {
        body.extend_from_slice(p);
    }
    let mut buf = vec![];
    buf.extend_from_slice(&typ.to_be_bytes());
    buf.extend_from_slice(&(body.len() as u16).to_be_bytes());
    buf.extend_from_slice(&[0x21, 0x12, 0xa4, 0x42]);
    buf.extend_from_slice(&TRANS_ID);
    buf.extend_from_slice(&body);
    buf
}

/// An attribute of type `typ`.
fn attribute(typ: u16, value: &[u8]) -> Vec<u8> {
    let mut buf = vec![];
    buf.extend_from_slice(&typ.to_be_bytes());
    buf.extend_from_slice(&(value.len() as u16).to_be_bytes());
    buf.extend_from_slice(value);
    while buf.len() % 4 != 0 {
        buf.push(0);
    }
    buf
}

fn parse(buf: &mut [u8]) -> Option<StunMessage> {
    assert!(is_within_bounds(buf));
    parse_message(buf)
}

/// Whether the attributes of `m` are `attrs`.
fn holds(m: &StunMessage, attrs: &[Attribute]) -> bool {
    format!("{:?}", m).contains(&format!(" attrs: {:?}, to_check", attrs))
}

/// Reads one attribute in front of a message integrity.
fn reads_as(typ: u16, value: &[u8], attr: Attribute) {
    let mut buf = message(0x0001, &[&attribute(typ, value), &INTEGRITY]);
    let m = parse(&mut buf).unwrap();
    assert!(holds(&m, &[attr, Attribute::MessageIntegrity(&INTEGRITY[4..])]));
}

/// One attribute in front of a message integrity, which makes the message be rejected.
fn rejected(typ: u16, value: &[u8]) {
    let mut buf = message(0x0001, &[&attribute(typ, value), &INTEGRITY]);
    let before = buf.clone();
    assert!(parse(&mut buf).is_none());
    assert_eq!(buf, before);
}

#[test]
fn request_is_read() {
    let mut buf = unhex(REQUEST);
    let integrity = unhex("9aeaa70cbfd8cb56781ef2b5b2d3f249c1b571a2");
    let m = parse(&mut buf).unwrap();
    assert!(format!("{:?}", m).starts_with("StunMessage { class: Request, method: Binding, "));
    assert!(format!("{:?}", m).contains(&format!("trans_id: {:?}", TRANS_ID)));
    assert!(holds(
        &m,
        &[
            Attribute::Unknown(0x8022),
            Attribute::Priority(0x6e00_01ff),
            Attribute::IceControlled(0x932f_f9b1_5126_3b36),
            Attribute::Username("evtj:h6vY"),
            Attribute::MessageIntegrity(&integrity),
            Attribute::Fingerprint(0xe57a_3bcf),
        ]
    ));
    assert_eq!(m.local_remote_username(), Some(("evtj", "h6vY")));
    assert!(m.check_integrity(PASSWORD));
    assert!(!m.check_integrity("VOkJxbRl1RmTxUk/WvJxBu"));
    assert!(!m.check_integrity(""));
}

#[test]
fn ipv4_response_is_read() {
    let mut buf = unhex(
        "0101003c2112a442b7e7a701bc34d686fa87dfae8022000b7465737420766563746f7220\
         002000080001a147e112a643000800142b91f599fd9e90c38c7489f92af9ba53f06be7d7\
         80280004c07d4c96",
    );
    let m = parse(&mut buf).unwrap();
    assert!(m.check_integrity(PASSWORD));
    let addr = SocketAddr { ip: IpAddr::V4([192, 0, 2, 1]), port: 32853 };
    assert!(format!("{:?}", m).contains(&format!("{:?}", Attribute::XorMappedAddress(addr))));
    assert!(format!("{:?}", m).starts_with("StunMessage { class: Success, method: Binding, "));
    assert_eq!(m.local_remote_username(), None);
    assert!(m.reply().is_none());
}

#[test]
fn ipv6_response_is_read() {
    let mut buf = unhex(
        "010100482112a442b7e7a701bc34d686fa87dfae8022000b7465737420766563746f7220\
         002000140002a1470113a9faa5d3f179bc25f4b5bed2b9d9\
         00080014a382954e4be67bf11784c97c8292c275bfe3ed4180280004c8fb0b4c",
    );
    let m = parse(&mut buf).unwrap();
    assert!(m.check_integrity(PASSWORD));
    let ip = IpAddr::V6([
        0x20, 0x01, 0x0d, 0xb8, 0x12, 0x34, 0x56, 0x78, 0x00, 0x11, 0x22, 0x33, 0x44, 0x55, 0x66,
        0x77,
    ]);
    let attr = Attribute::XorMappedAddress(SocketAddr { ip, port: 32853 });
    assert!(format!("{:?}", m).contains(&format!("{:?}", attr)));
}

#[test]
fn length_is_overwritten() {
    let mut buf = unhex(REQUEST);
    let mut expected = buf.clone();
    expected[2] = 0;
    expected[3] = 80;
    assert!(parse(&mut buf).is_some());
    assert_eq!(buf, expected);
}

#[test]
fn buffer_is_not_read_again_where_something_follows_the_integrity() {
    let mut buf = unhex(REQUEST);
    assert!(parse(&mut buf).is_some());
    assert!(parse(&mut buf).is_none());

    let mut last = message(0x0001, &[&attribute(0x0006, b"a:b"), &INTEGRITY]);
    let before = last.clone();
    assert!(parse(&mut last).is_some());
    assert_eq!(last, before);
    assert!(parse(&mut last).is_some());
}

#[test]
fn integrity_covers_what_is_before_it() {
    let mut buf = unhex(REQUEST);
    buf[29] ^= 1;
    assert!(!parse(&mut buf).unwrap().check_integrity(PASSWORD));

    let mut buf = unhex(REQUEST);
    let n = buf.len();
    buf[n - 1] ^= 1;
    assert!(parse(&mut buf).unwrap().check_integrity(PASSWORD));

    let mut head = message(0x0001, &[&attribute(0x0006, b"a:b"), &INTEGRITY]);
    let hmac = hmac_sha1(b"secret", &head[0..28]);
    let at = head.len() - 20;
    head[at..].copy_from_slice(&hmac);
    assert!(parse(&mut head).unwrap().check_integrity("secret"));
}

#[test]
fn top_bits_of_the_type_are_left_out() {
    let mut buf = message(0xc001, &[&attribute(0x0006, b"a:b"), &INTEGRITY]);
    let m = parse(&mut buf).unwrap();
    assert!(format!("{:?}", m).starts_with("StunMessage { class: Request, method: Binding, "));
}

#[test]
fn unknown_method_is_read_but_not_answered() {
    let mut buf = message(0x0003, &[&attribute(0x0006, b"a:b"), &INTEGRITY]);
    let m = parse(&mut buf).unwrap();
    assert!(format!("{:?}", m).starts_with("StunMessage { class: Request, method: Unknown, "));
    assert!(m.reply().is_none());
}

#[test]
fn length_that_is_no_multiple_of_four() {
    for low in 1..4 {
        let mut buf = vec![0, 1, 0, low];
        assert!(parse(&mut buf).is_none());
    }
    let mut buf = unhex(REQUEST);
    buf[3] = 0x59;
    assert!(parse(&mut buf).is_none());
}

#[test]
fn length_that_does_not_match() {
    let mut buf = unhex(REQUEST);
    buf[3] = 0x54;
    assert!(parse(&mut buf).is_none());
    let mut buf = unhex(REQUEST);
    buf.push(0);
    assert!(parse(&mut buf).is_none());
}

#[test]
fn magic_cookie_that_does_not_match() {
    for i in 4..8 {
        let mut buf = unhex(REQUEST);
        buf[i] ^= 0x10;
        assert!(parse(&mut buf).is_none());
    }
}

#[test]
fn message_without_integrity() {
    let mut buf = message(0x0001, &[]);
    assert!(parse(&mut buf).is_none());
    let mut buf = message(0x0001, &[&attribute(0x0006, b"a:b")]);
    assert!(parse(&mut buf).is_none());
}

#[test]
fn integrity_as_the_first_attribute() {
    let mut buf = message(0x0001, &[&INTEGRITY]);
    assert!(parse(&mut buf).is_none());
    let mut buf = message(0x0001, &[&INTEGRITY, &attribute(0x0006, b"a:b")]);
    assert!(parse(&mut buf).is_none());
}

#[test]
fn integrity_of_another_length() {
    rejected(0x0008, &[0; 16]);
    rejected(0x0008, &[0; 24]);
    rejected(0x0008, &[]);
}

#[test]
fn attribute_longer_than_the_message() {
    let mut buf = message(0x0001, &[&attribute(0x0006, b"a:b"), &[0x00, 0x24, 0x00, 0x05, 0, 0, 0, 0]]);
    assert!(parse(&mut buf).is_none());
    let mut buf = message(0x0001, &[&attribute(0x0006, b"a:b"), &INTEGRITY, &[0x80, 0x28, 0xff, 0xff]]);
    assert!(parse(&mut buf).is_none());
}

#[test]
fn attributes_without_a_value() {
    reads_as(0x0001, &[1, 2, 3, 4], Attribute::MappedAddress);
    reads_as(0x000a, &[1, 2], Attribute::UnknownAttributes);
    reads_as(0x8023, &[], Attribute::AlternateServer);
    reads_as(0x0025, &[], Attribute::UseCandidate);
    rejected(0x0025, &[0, 0, 0, 0]);
}

#[test]
fn attributes_with_a_string() {
    reads_as(0x0006, b"gfNK:062g", Attribute::Username("gfNK:062g"));
    reads_as(0x0006, b"", Attribute::Username(""));
    reads_as(0x0014, b"example.org", Attribute::Realm("example.org"));
    reads_as(0x0015, "\u{30de}".as_bytes(), Attribute::Nonce("\u{30de}"));
    reads_as(0x0022, b"agent", Attribute::Software("agent"));
    for typ in [0x0006, 0x0014, 0x0015, 0x0022] {
        rejected(typ, &[b'a'; 129]);
        rejected(typ, &[0xc3, 0x28]);
        rejected(typ, &[0xc3]);
    }
}

#[test]
fn strings_have_fewer_than_128_characters() {
    let text = "a".repeat(127);
    reads_as(0x0006, text.as_bytes(), Attribute::Username(&text));
    reads_as(0x0014, text.as_bytes(), Attribute::Realm(&text));
    reads_as(0x0015, text.as_bytes(), Attribute::Nonce(&text));
    let wide = "\u{e9}".repeat(64);
    reads_as(0x0006, wide.as_bytes(), Attribute::Username(&wide));
    for typ in [0x0006, 0x0014, 0x0015] {
        rejected(typ, &[b'a'; 128]);
    }
    let longest = "a".repeat(128);
    reads_as(0x0022, longest.as_bytes(), Attribute::Software(&longest));
}

#[test]
fn reasons_have_fewer_than_128_characters() {
    let text = "a".repeat(127);
    let mut value = vec![0, 0, 4, 0];
    value.extend_from_slice(text.as_bytes());
    reads_as(0x0009, &value, Attribute::ErrorCode(400, &text));
    value.push(b'a');
    rejected(0x0009, &value);
}

#[test]
fn error_codes() {
    reads_as(0x0009, b"\x00\x00\x03\x00", Attribute::ErrorCode(300, ""));
    reads_as(0x0009, b"\x00\x00\x04\x01Unauthorized", Attribute::ErrorCode(401, "Unauthorized"));
    reads_as(0x0009, b"\x00\x00\x06\x63no", Attribute::ErrorCode(699, "no"));
    reads_as(0x0009, b"\x00\x00\x05\xc8x", Attribute::ErrorCode(500, "x"));
    rejected(0x0009, b"\x00\x00\x02\x63");
    rejected(0x0009, b"\x00\x00\x07\x00");
    rejected(0x0009, b"\x01\x00\x04\x00");
    rejected(0x0009, b"\x00\x01\x04\x00");
    rejected(0x0009, b"\x00\x00\x0c\x00");
    rejected(0x0009, b"\x00\x00\x04\x00\xff");
    let mut long = vec![0, 0, 4, 0];
    long.extend_from_slice(&[b'a'; 129]);
    rejected(0x0009, &long);
}

#[test]
fn attributes_with_an_integer() {
    reads_as(0x0024, &[0x6e, 0x00, 0x01, 0xff], Attribute::Priority(0x6e00_01ff));
    rejected(0x0024, &[0; 8]);
    rejected(0x0024, &[0; 3]);
    let tie_breaker = [0x01, 0x23, 0x45, 0x67, 0x89, 0xab, 0xcd, 0xef];
    reads_as(0x8029, &tie_breaker, Attribute::IceControlled(0x0123_4567_89ab_cdef));
    reads_as(0x802a, &tie_breaker, Attribute::IceControlling(0x0123_4567_89ab_cdef));
    rejected(0x8029, &[0; 4]);
    rejected(0x802a, &[0; 12]);
    reads_as(0x8028, &[0xde, 0xad, 0xbe, 0xef], Attribute::Fingerprint(0xdead_beef));
}

#[test]
fn network_cost_of_another_length_is_passed_over() {
    reads_as(0xc057, &[0x00, 0x01, 0x03, 0xe7], Attribute::NetworkCost(1, 999));
    let mut buf = message(0x0001, &[&attribute(0xc057, &[1, 2, 3, 4, 5]), &INTEGRITY]);
    let m = parse(&mut buf).unwrap();
    assert!(holds(&m, &[Attribute::MessageIntegrity(&INTEGRITY[4..])]));
}

#[test]
fn other_attributes_are_unknown() {
    reads_as(0x7777, &[1, 2, 3], Attribute::Unknown(0x7777));
    reads_as(0x0000, &[], Attribute::Unknown(0));
}

#[test]
fn addresses_of_another_family_are_rejected() {
    rejected(0x0020, &[0, 3, 0, 0, 0, 0, 0, 0]);
}

#[test]
fn attributes_behind_the_integrity_are_ignored() {
    let mut buf = message(
        0x0001,
        &[
            &attribute(0x0006, b"a:b"),
            &INTEGRITY,
            &attribute(0x0006, b"c:d"),
            &attribute(0x0006, &[0xff]),
            &attribute(0x0008, &[0; 4]),
            &attribute(0x8028, &[0, 0, 0, 1]),
            &attribute(0x8028, &[0, 0, 0, 2]),
            &attribute(0x0025, &[1]),
        ],
    );
    let m = parse(&mut buf).unwrap();
    assert!(holds(
        &m,
        &[
            Attribute::Username("a:b"),
            Attribute::MessageIntegrity(&INTEGRITY[4..]),
            Attribute::Fingerprint(1),
            Attribute::Fingerprint(2),
        ]
    ));
}

#[test]
fn record_inserted_behind_the_integrity_changes_nothing() {
    let name = attribute(0x0006, b"a:b");
    let print = attribute(0x8028, &[0, 0, 0, 1]);
    let expected = [
        Attribute::Username("a:b"),
        Attribute::MessageIntegrity(&INTEGRITY[4..]),
        Attribute::Fingerprint(1),
    ];
    for record in [
        attribute(0x0006, b"c:d"),
        attribute(0x0008, &[9; 20]),
        attribute(0x0008, &[9; 3]),
        attribute(0x0009, &[]),
        attribute(0x7777, &[0xff; 200]),
    ] {
        let mut buf = message(0x0001, &[&name, &INTEGRITY, &record, &print]);
        assert!(holds(&parse(&mut buf).unwrap(), &expected));
        let mut buf = message(0x0001, &[&name, &INTEGRITY, &print, &record]);
        assert!(holds(&parse(&mut buf).unwrap(), &expected));
    }
}

#[test]
fn attributes_are_read_in_turn() {
    let a = [attribute(0x0025, &[]), attribute(0x0014, b"realm")].concat();
    let b = [&attribute(0x0006, b"a:b")[..], &INTEGRITY].concat();
    let mut buf = message(0x0001, &[&a, &b]);
    let expected = buf[0..buf.len() - 24].to_vec();
    let m = parse(&mut buf).unwrap();
    assert!(holds(
        &m,
        &[
            Attribute::UseCandidate,
            Attribute::Realm("realm"),
            Attribute::Username("a:b"),
            Attribute::MessageIntegrity(&INTEGRITY[4..]),
        ]
    ));
    assert!(format!("{:?}", m).ends_with(&format!("to_check: {:?} }}", expected)));
}

#[test]
fn fingerprint_is_not_checked() {
    let mut one = unhex(REQUEST);
    let mut other = unhex(REQUEST);
    let n = other.len();
    other[n - 4..].copy_from_slice(&[1, 2, 3, 4]);
    let m = format!("{:?}", parse(&mut one).unwrap());
    let r = format!("{:?}", parse(&mut other).unwrap());
    assert_ne!(m, r);
    assert_eq!(
        m.replace("Fingerprint(3849993167)", "Fingerprint(16909060)"),
        r
    );
}

#[test]
fn first_username_counts() {
    let first = attribute(0x0006, b"a:b");
    let second = attribute(0x0006, b"c:d");
    let mut buf = message(0x0001, &[&first, &second, &INTEGRITY]);
    let m = parse(&mut buf).unwrap();
    assert_eq!(m.local_remote_username(), Some(("a", "b")));
}

#[test]
fn username_that_is_not_local_and_remote() {
    for name in ["ab", "ab:", ":", ""] {
        let mut buf = message(0x0001, &[&attribute(0x0006, name.as_bytes()), &INTEGRITY]);
        let m = parse(&mut buf).unwrap();
        assert_eq!(m.local_remote_username(), None);
        assert!(m.reply().is_some());
    }
}

#[test]
fn bounds_of_a_buffer() {
    assert!(!is_within_bounds(&[]));
    assert!(!is_within_bounds(&[0, 1, 0]));
    assert!(!is_within_bounds(&[0, 1, 0, 0]));
    assert!(is_within_bounds(&[0, 1, 0, 1]));
    assert!(is_within_bounds(&message(0x0001, &[])));
    assert!(is_within_bounds(&unhex(REQUEST)));
    assert!(!is_within_bounds(&unhex(REQUEST)[0..19]));
}

#[test]
fn bounds_of_attributes() {
    for typ in [0x0009, 0x0020, 0x8028] {
        assert!(!is_within_bounds(&message(0x0001, &[&attribute(typ, &[])])));
    }
    let short = attribute(0x0009, &[0, 0, 4]);
    assert!(!is_within_bounds(&message(0x0001, &[&short, &INTEGRITY])));
    let v4 = attribute(0x0020, &[0, 1, 0, 0]);
    assert!(!is_within_bounds(&message(0x0001, &[&v4])));
    assert!(is_within_bounds(&message(0x0001, &[&v4, &INTEGRITY])));
    let v6 = attribute(0x0020, &[0, 2, 0, 0, 0, 0, 0, 0]);
    assert!(!is_within_bounds(&message(0x0001, &[&v6])));
    let bad = attribute(0x0006, &[0xff]);
    assert!(is_within_bounds(&message(0x0001, &[&bad, &attribute(0x8028, &[])])));
    let behind = message(0x0001, &[&attribute(0x0006, b"a:b"), &INTEGRITY, &attribute(0x0009, &[])]);
    assert!(is_within_bounds(&behind));
}

#[test]
fn answer_with_a_tie_breaker_is_written() {
    let mut buf = unhex(REQUEST);
    let m = parse(&mut buf).unwrap();
    let r = m.reply_with(0x0123_4567_89ab_cdef).unwrap();
    assert!(holds(
        &r,
        &[
            Attribute::Username("evtj:h6vY"),
            Attribute::IceControlled(0x0123_4567_89ab_cdef),
            Attribute::MessageIntegrityMark,
            Attribute::FingerprintMark,
        ]
    ));
    assert_eq!(
        r.to_bytes(PASSWORD),
        unhex(
            "0101003c2112a442b7e7a701bc34d686fa87dfae\
             000600096576746a3a68367659000000\
             802900080123456789abcdef\
             0008001416080aca999833c3d8966334f24d5c930fd60ed8\
             80280004c22a77a7"
        )
    );
}

#[test]
fn answer_with_a_username_of_whole_words_is_written() {
    let mut buf = message(0x0001, &[&attribute(0x0006, b"ab:c"), &INTEGRITY]);
    let m = parse(&mut buf).unwrap();
    let bytes = m.reply_with(0x0123_4567_89ab_cdef).unwrap().to_bytes(PASSWORD);
    assert_eq!(
        bytes,
        unhex(
            "010100382112a442b7e7a701bc34d686fa87dfae\
             0006000461623a6300000000\
             802900080123456789abcdef\
             00080014e235a734983b05ee1b8c699a594b4fe8a7ecb491\
             802800049c53a14b"
        )
    );
    // the four zeros are an attribute of their own to a reader
    let mut again = bytes.clone();
    let r = parse(&mut again).unwrap();
    assert!(holds(
        &r,
        &[
            Attribute::Username("ab:c"),
            Attribute::Unknown(0),
            Attribute::IceControlled(0x0123_4567_89ab_cdef),
            Attribute::MessageIntegrity(&bytes[48..68]),
            Attribute::Fingerprint(0x9c53_a14b),
        ]
    ));
    assert!(r.check_integrity(PASSWORD));
}

#[test]
fn written_answer_is_read_back() {
    let long = [b'u'; 127];
    let wide = "\u{e9}".repeat(64);
    for name in [&b"evtj:h6vY"[..], b"a:b", b"ab:c", b"", &long, wide.as_bytes()] {
        let mut buf = message(0x0001, &[&attribute(0x0006, name), &INTEGRITY]);
        let m = parse(&mut buf).unwrap();
        let mut bytes = m.reply_with(7).unwrap().to_bytes("secret");
        assert_eq!(bytes.len() % 4, 0);
        assert_eq!(bytes[2] as usize * 256 + bytes[3] as usize, bytes.len() - 20);
        let r = parse(&mut bytes).unwrap();
        assert!(format!("{:?}", r).starts_with("StunMessage { class: Success, method: Binding, "));
        assert!(format!("{:?}", r).contains(&format!("trans_id: {:?}", TRANS_ID)));
        assert!(format!("{:?}", r).contains("IceControlled(7)"));
        assert_eq!(r.local_remote_username(), m.local_remote_username());
        assert!(r.check_integrity("secret"));
        assert!(!r.check_integrity("Secret"));
        assert!(r.reply().is_none());
    }
}

#[test]
fn answer_echoes_the_username() {
    let mut buf = unhex(REQUEST);
    let m = parse(&mut buf).unwrap();
    let r = m.reply().unwrap();
    assert_eq!(r.local_remote_username(), Some(("evtj", "h6vY")));
    assert!(!r.check_integrity(PASSWORD));
    assert!(r.reply().is_none());
}

#[test]
fn answers_have_their_own_tie_breakers() {
    let mut buf = unhex(REQUEST);
    let m = parse(&mut buf).unwrap();
    let first = format!("{:?}", m.reply().unwrap());
    let mut others = 0;
    for _ in 0..8 {
        if format!("{:?}", m.reply().unwrap()) != first {
            others += 1;
        }
    }
    assert!(others > 0);
}

#[test]
fn only_binding_requests_are_answered() {
    for (typ, answered) in [
        (0x0001, true),
        (0x0011, false),
        (0x0101, false),
        (0x0111, false),
        (0x0002, false),
    ] {
        let mut buf = message(typ, &[&attribute(0x0006, b"a:b"), &INTEGRITY]);
        let m = parse(&mut buf).unwrap();
        assert_eq!(m.reply().is_some(), answered);
        assert_eq!(m.reply_with(1).is_some(), answered);
    }
    let mut buf = message(0x0001, &[&attribute(0x0025, &[]), &INTEGRITY]);
    assert!(parse(&mut buf).unwrap().reply().is_none());
}

#[test]
fn fingerprint_is_written() {
    let mut buf = vec![0xff; 12];
    write_fingerprint(&mut buf, 2, 0xcbf4_3926);
    assert_eq!(
        buf,
        vec![0xff, 0xff, 0xff, 0xff, 0xff, 0xff, 0x98, 0xa0, 0x6c, 0x68, 0xff, 0xff]
    );
}

/// CRC-32/ISO-HDLC, one bit at a time.
fn crc32(bytes: &[u8]) -> u32 {
    let mut register = 0xffff_ffff_u32;
    for b in bytes {
        register ^= *b as u32;
        for _ in 0..8 {
            let low = register & 1;
            register >>= 1;
            if low == 1 {
                register ^= 0xedb8_8320;
            }
        }
    }
    register ^ 0xffff_ffff
}

#[test]
fn fingerprint_is_the_crc32_of_what_is_before_it() {
    assert_eq!(crc32(b"123456789"), 0xcbf4_3926);
    for n in 0..128 {
        let name = vec![b'a'; n];
        let mut buf = message(0x0001, &[&attribute(0x0006, &name), &INTEGRITY]);
        let m = parse(&mut buf).unwrap();
        let bytes = m.reply_with(n as u64).unwrap().to_bytes("secret");
        let end = bytes.len() - 8;
        assert_eq!(bytes[end..end + 4], [0x80, 0x28, 0x00, 0x04]);
        assert_eq!(bytes[end + 4..], (crc32(&bytes[..end]) ^ 0x5354_554e).to_be_bytes());
    }
}
