# stun

Reads, checks, answers and writes STUN messages (RFC 5389) as ICE agents exchange them.

* `src/message.rs`: messages. `parse_message`, `StunMessage::check_integrity`,
  `StunMessage::reply`, `StunMessage::to_bytes`.
* `src/attribute.rs`: attributes, read and written.
* `src/header.rs`, `src/address.rs`, `src/text.rs`, `src/octets.rs`: what messages are made of.
* `src/sha1.rs`, `src/util.rs`: SHA-1 and HMAC-SHA1.
* `src/outside.rs`: the calls into other crates and what is taken on trust of them.
* `src/laws.rs`, `src/records.rs`, `src/round_trip.rs`: what holds of the operations taken together.
* `app/`: the library with the address types of the standard library.

`parse_message` is defined on buffers on which it stays within bounds; `is_within_bounds` tells
which these are.
