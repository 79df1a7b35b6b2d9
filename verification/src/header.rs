//! The message header: magic cookie, class and method.

use vstd::prelude::*;

verus! {

/// The magic cookie that every message carries.
pub const MAGIC: [u8; 4] = [0x21, 0x12, 0xA4, 0x42];

/// The message class.
#[derive(Clone, Copy, Debug, PartialEq, Eq, Structural)]
pub enum Class {
    Request,
    Indication,
    Success,
    Failure,
    Unknown,
}

/// The message method.
#[derive(Clone, Copy, Debug, PartialEq, Eq, Structural)]
pub enum Method {
    Binding,
    Unknown,
}

/// The class that the bits C1 and C0 of a message type give.
///
/// ```text
/// |M11|M10|M9|M8|M7|C1|M6|M5|M4|C0|M3|M2|M1|M0|
/// ```
pub open spec fn class_of(typ: u16) -> Class {
    let bits = typ & 0b0000_0001_0001_0000;
    if bits == 0b0000_0000_0000_0000 {
        Class::Request
    } else if bits == 0b0000_0000_0001_0000 {
        Class::Indication
    } else if bits == 0b0000_0001_0000_0000 {
        Class::Success
    } else {
        Class::Failure
    }
}

/// The method that the other bits of a message type give.
pub open spec fn method_of(typ: u16) -> Method {
    if typ & 0b0011_1110_1110_1111 == 0b0000_0000_0000_0001 {
        Method::Binding
    } else {
        Method::Unknown
    }
}

impl Class {
    /// The bits of this class in a message type.
    pub open spec fn bits(self) -> u16
        recommends
            self != Self::Unknown,
    {
        match self {
            Class::Request => 0b0000_0000_0000_0000,
            Class::Indication => 0b0000_0000_0001_0000,
            Class::Success => 0b0000_0001_0000_0000,
            _ => 0b0000_0001_0001_0000,
        }
    }

    /// The class of a message type.
    pub fn from_typ(typ: u16) -> (r: Self)
        ensures
            r == class_of(typ),
            r != Class::Unknown,
    {
        let bits: u16 = typ & 0b0000_0001_0001_0000;
        match bits {
            0b0000_0000_0000_0000 => Class::Request,
            0b0000_0000_0001_0000 => Class::Indication,
            0b0000_0001_0000_0000 => Class::Success,
            0b0000_0001_0001_0000 => Class::Failure,
            _ => {
                assert(bits == 0 || bits == 0x10 || bits == 0x100 || bits == 0x110) by (bit_vector)
                    requires
                        bits == typ & 0b0000_0001_0001_0000u16,
                ;
                Class::Unknown
            },
        }
    }

    /// The bits of this class in a message type.
    pub fn to_u16(self) -> (r: u16)
        requires
            self != Class::Unknown,
        ensures
            r == self.bits(),
    {
        match self {
            Class::Request => 0b0000_0000_0000_0000,
            Class::Indication => 0b0000_0000_0001_0000,
            Class::Success => 0b0000_0001_0000_0000,
            _ => 0b0000_0001_0001_0000,
        }
    }
}

impl Method {
    /// The bits of this method in a message type.
    pub open spec fn bits(self) -> u16
        recommends
            self != Self::Unknown,
    {
        0b0000_0000_0000_0001
    }

    /// The method of a message type.
    pub fn from_typ(typ: u16) -> (r: Self)
        ensures
            r == method_of(typ),
    {
        match typ & 0b0011_1110_1110_1111 {
            0b0000_0000_0000_0001 => Method::Binding,
            _ => Method::Unknown,
        }
    }

    /// The bits of this method in a message type.
    pub fn to_u16(self) -> (r: u16)
        requires
            self != Method::Unknown,
        ensures
            r == self.bits(),
    {
        0b0000_0000_0000_0001
    }
}

} // verus!
