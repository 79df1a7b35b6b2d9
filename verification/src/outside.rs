//! The calls that leave this crate.

use vstd::prelude::*;
use vstd::utf8;

verus! {

/// A CRC-32 register after `n` more bits have been shifted out, lowest bit first. The polynomial,
/// lowest bit first, is `0xEDB8_8320`.
pub open spec fn crc32_shifted(register: u32, n: nat) -> u32
    decreases n,
{
    if n == 0 {
        register
    } else {
        let before = crc32_shifted(register, (n - 1) as nat);
        if before & 1 == 1 {
            (before >> 1) ^ 0xEDB8_8320
        } else {
            before >> 1
        }
    }
}

/// A CRC-32 register after `bytes`. It starts with all bits set.
pub open spec fn crc32_register(bytes: Seq<u8>) -> u32
    decreases bytes.len(),
{
    if bytes.len() == 0 {
        0xFFFF_FFFF
    } else {
        crc32_shifted(crc32_register(bytes.drop_last()) ^ (bytes.last() as u32), 8)
    }
}

/// The checksum CRC-32/ISO-HDLC: the register after `bytes`, with all bits inverted.
pub open spec fn crc32_iso_hdlc(bytes: Seq<u8>) -> u32 {
    crc32_register(bytes) ^ 0xFFFF_FFFF
}

/// Calls [`crc::Crc::checksum`] on an instance made by [`crc::Crc::new`] for the algorithm
/// `CRC_32_ISO_HDLC`.
///
/// Trusted: the checksum is [`crc32_iso_hdlc`] of the bytes. The catalogue gives the algorithm a
/// width of 32 bits, the polynomial `0x04C1_1DB7` (reversed `0xEDB8_8320`), an initial value and a
/// final mask of all ones, and bytes in and a register out with the lowest bit first.
#[verifier::external_body]
pub(crate) fn checksum_crc32(bytes: &[u8]) -> (r: u32)
    ensures
        r == crc32_iso_hdlc(bytes@),
{
    crc::Crc::<u32>::new(&crc::CRC_32_ISO_HDLC).checksum(bytes)
}

/// Calls [`rand::random`] for a `u64`.
///
/// Trusted: nothing. Any value may come back.
#[verifier::external_body]
pub(crate) fn random_u64() -> (r: u64) {
    rand::random()
}

/// The error of [`std::str::from_utf8`], which is never looked into.
#[verifier::external_type_specification]
#[verifier::external_body]
pub struct ExUtf8Error(std::str::Utf8Error);

/// [`std::str::from_utf8`] accepts exactly the valid UTF-8 encodings, and gives the string whose
/// encoding the bytes are.
pub assume_specification<'a>[ std::str::from_utf8 ](v: &'a [u8]) -> (r: Result<
    &'a str,
    std::str::Utf8Error,
>)
    ensures
        r is Ok <==> utf8::valid_utf8(v@),
        r matches Ok(s) ==> utf8::encode_utf8(s@) == v@,
;

} // verus!
