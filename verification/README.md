# stubborn

A small DNS message library, verified with Verus.

- `src/protocol/message/header.rs` — the 12-octet header: writing fields
  (`MessageHeader::add`) and reading them back (`get_message_header_value`),
  with laws on what a read returns after a write and on fields staying apart.
- `src/protocol/message/question.rs` — the question section.
- `src/protocol/rr.rs` — record types and classes, domain names (`Labels`),
  resource records and sections of records.
- `src/protocol/message/mod.rs` — whole messages (`DNSpacket`).
- `src/protocol/octets.rs` — big-endian integers on the wire.
- `src/packet.rs` — a fixed buffer of bits read one at a time (`bit_vec`).
- `app/main.rs` — sends a query over UDP and prints the parsed reply.

Every reader comes with a mathematical decoder (`parse_labels`,
`parse_question`, `parse_record`, `parse_records`, `parse_packet`) and every
writer with an encoder; the proof functions next to them show that reading back
what was written gives the same value, and that writing back what was read
(without name compression) gives the same octets.
