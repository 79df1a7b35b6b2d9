//! Transport addresses.

use vstd::prelude::*;

use crate::header::MAGIC;
use crate::octets;
use crate::outcome::Outcome;

verus! {

/// An IP address, by its octets.
#[derive(Clone, Copy, Debug, PartialEq, Eq)]
pub enum IpAddr {
    V4([u8; 4]),
    V6([u8; 16]),
}

/// An IP address and a port.
#[derive(Clone, Copy, Debug, PartialEq, Eq)]
pub struct SocketAddr {
    pub ip: IpAddr,
    pub port: u16,
}

/// The octets of an IP address.
pub enum IpAddrView {
    V4(Seq<u8>),
    V6(Seq<u8>),
}

/// What a [`SocketAddr`] stands for.
pub struct SocketAddrView {
    pub ip: IpAddrView,
    pub port: u16,
}

impl View for IpAddr {
    type V = IpAddrView;

    open spec fn view(&self) -> IpAddrView {
        match self {
            IpAddr::V4(octets) => IpAddrView::V4(octets@),
            IpAddr::V6(octets) => IpAddrView::V6(octets@),
        }
    }
}

impl View for SocketAddr {
    type V = SocketAddrView;

    open spec fn view(&self) -> SocketAddrView {
        SocketAddrView { ip: self.ip@, port: self.port }
    }
}

/// The first `n` octets of `s`, each combined with that of the magic cookie and the transaction id
/// in turn.
pub open spec fn unmasked(s: Seq<u8>, trans_id: Seq<u8>, n: nat) -> Seq<u8> {
    Seq::new(n, |i: int| s[i] ^ (MAGIC@ + trans_id)[i])
}

/// The address that the value of a XOR-MAPPED-ADDRESS attribute stands for. It starts at the start
/// of `value`: a byte that is not used, the address family, the port, and the address.
pub open spec fn xor_address(value: Seq<u8>, trans_id: Seq<u8>) -> Outcome<SocketAddrView> {
    if value.len() < 4 {
        Outcome::OutOfBounds
    } else {
        let port = (octets::u16_at(value, 2) as u16) ^ 0x2112;
        let ip = value.skip(4);
        if value[1] == 1 {
            if ip.len() < 4 {
                Outcome::OutOfBounds
            } else {
                Outcome::Decoded(
                    SocketAddrView { ip: IpAddrView::V4(unmasked(ip, trans_id, 4)), port },
                )
            }
        } else if value[1] == 2 {
            if ip.len() < 16 || trans_id.len() < 12 {
                Outcome::OutOfBounds
            } else {
                Outcome::Decoded(
                    SocketAddrView { ip: IpAddrView::V6(unmasked(ip, trans_id, 16)), port },
                )
            }
        } else {
            Outcome::Malformed
        }
    }
}

/// Decodes the value of a XOR-MAPPED-ADDRESS attribute.
pub fn decode_xor(buf: &[u8], trans_id: &[u8]) -> (r: Option<SocketAddr>)
    requires
        !(xor_address(buf@, trans_id@) is OutOfBounds),
    ensures
        match r {
            Some(addr) => xor_address(buf@, trans_id@) == Outcome::Decoded(addr@),
            None => xor_address(buf@, trans_id@) is Malformed,
        },
{
    let port: u16 = octets::read_u16(buf, 2) ^ 0x2112;
    let ip_buf: &[u8] = &buf[4..buf.len()];
    assert(ip_buf@ =~= buf@.skip(4));
    let ip: IpAddr = match buf[1] {
        1 => {
            let mut bytes: [u8; 4] = [0; 4];
            let mut i: usize = 0;
            while i < 4
                invariant
                    i <= 4,
                    4 <= ip_buf@.len(),
                    forall|j: int|
                        0 <= j < i ==> #[trigger] bytes@[j] == ip_buf@[j] ^ (MAGIC@ + trans_id@)[j],
                decreases 4 - i,
            {
                bytes[i] = ip_buf[i] ^ MAGIC[i];
                i = i + 1;
            }
            assert(bytes@ =~= unmasked(ip_buf@, trans_id@, 4));
            IpAddr::V4(bytes)
        },
        2 => {
            let mut bytes: [u8; 16] = [0; 16];
            let mut i: usize = 0;
            while i < 4
                invariant
                    i <= 4,
                    16 <= ip_buf@.len(),
                    forall|j: int|
                        0 <= j < i ==> #[trigger] bytes@[j] == ip_buf@[j] ^ (MAGIC@ + trans_id@)[j],
                decreases 4 - i,
            {
                bytes[i] = ip_buf[i] ^ MAGIC[i];
                i = i + 1;
            }
            while i < 16
                invariant
                    4 <= i <= 16,
                    16 <= ip_buf@.len(),
                    12 <= trans_id@.len(),
                    forall|j: int|
                        0 <= j < i ==> #[trigger] bytes@[j] == ip_buf@[j] ^ (MAGIC@ + trans_id@)[j],
                decreases 16 - i,
            {
                bytes[i] = ip_buf[i] ^ trans_id[i - 4];
                i = i + 1;
            }
            assert(bytes@ =~= unmasked(ip_buf@, trans_id@, 16));
            IpAddr::V6(bytes)
        },
        _ => {
            return None;
        },
    };
    Some(SocketAddr { ip, port })
}

} // verus!
