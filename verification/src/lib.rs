//! STUN messages (RFC 5389) as ICE agents exchange them (RFC 8445).
//!
//! A message is read from a buffer by [`parse_message`], checked by
//! [`StunMessage::check_integrity`], answered by [`StunMessage::reply`] and written by
//! [`StunMessage::to_bytes`].

pub mod address;
pub mod attribute;
pub mod header;
pub mod laws;
pub mod message;
pub mod octets;
pub mod outcome;
pub mod outside;
pub mod records;
pub mod round_trip;
pub mod sha1;
pub mod text;
pub mod util;

pub use crate::attribute::Attribute;
pub use crate::message::{is_within_bounds, parse_message, StunMessage};
