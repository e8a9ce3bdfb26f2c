# mcumgr_smp transport framing

Verified framing logic of the SMP (mcumgr) transports, written in Verus.

- `src/frame.rs` — reassembly of an unframed SMP frame read in chunks (UDP, BLE, byte streams).
- `src/serial.rs` — the serial console framing: packet (length, frame, CRC), Base64 lines with
  start and continuation markers; encoder, decoder and the round-trip law.
- `src/base64.rs`, `src/crc.rs` — strict Base64 and CRC-16/XMODEM with their specifications.
- `src/ble.rs` — the decisions of the BLE transport (characteristic lookup, packet size,
  device name match, scan rounds).
- `src/lib.rs` — the `SMPTransport` marker trait.
- `app/` — the async transports (serial port, UDP, BLE) and `CBORTransporter`, which run the
  I/O loops around the library.
