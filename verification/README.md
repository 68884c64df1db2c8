# raw_ether

A custom experimental protocol carried directly in Ethernet frames
(EtherType 0x88B6), written as a Verus library with its contracts proved.

Layout:

- `src/protocol.rs` — constants, message types, the 10-byte wire header
  (big-endian) and the additive checksum, with the header round-trip laws and
  the checksum's independence of byte order.
- `src/frame.rs` — building DATA and ACK frames and judging received frames;
  laws that every frame the sender builds passes the receiver's checks and
  that ACKs are never answered.
- `src/mac.rs` — parsing "AA:BB:CC:DD:EE:FF" text (with the law that an
  address's text parses back to it) and filling interface-name fields.
- `src/eth_driver.rs` — the `EthernetMac` driver contract, which models what
  a send or a receive does as a function of the driver's state, and a loopback
  driver that fulfils it with fixed buffers and no heap.
- `src/sender.rs`, `src/receiver.rs`, `src/firmware.rs` — sending DATA
  frames, polling with ACK replies, and the firmware's main-loop turn.
- `app/` — the Linux raw-socket sender and receiver, and a host run of the
  firmware loop.
- `tests/` — tests on concrete values.
