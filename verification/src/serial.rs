//! Framing of SMP frames on a serial line (the mcumgr console protocol).
//!
//! A frame travels as a packet: a 2-byte big-endian length (the frame's length plus 2), the frame,
//! and the CRC-16/XMODEM of the frame, big endian. The packet is written as Base64 text cut into
//! lines of at most [`MAX_LINE_LEN`] bytes. The first line starts with the bytes `0x06 0x09`, every
//! further line with `0x04 0x14`, and every line ends with a newline. A line never splits a group
//! of three packet bytes except at the packet's end, so each line's text is Base64 of its own.
//!
//! [`SerialEncoder`] produces the lines one at a time and [`SerialDecoder`] consumes them one at a
//! time; the caller moves the lines over the serial port. [`lemma_serial_roundtrip`] shows that
//! the decoder gives back, from the encoder's lines, exactly the frame that was encoded.
use vstd::prelude::*;
use crate::base64::{spec_b64_encode, spec_b64_decode, spec_b64_len, base64_encode, base64_decode, lemma_encode_len, lemma_decode_encode};
use crate::bytes::{append_bytes, copy_range};
use crate::crc::{spec_crc16, crc16};

verus! {

/// First byte of the marker that opens the first line of a packet.
pub const PKT_START_0: u8 = 0x06;
/// Second byte of the marker that opens the first line of a packet.
pub const PKT_START_1: u8 = 0x09;
/// First byte of the marker that opens each further line of a packet.
pub const DATA_START_0: u8 = 0x04;
/// Second byte of the marker that opens each further line of a packet.
pub const DATA_START_1: u8 = 0x14;
/// The byte that ends every line.
pub const NEWLINE: u8 = 0x0a;
/// The longest line, marker and newline included.
pub const MAX_LINE_LEN: usize = 127;
/// Packet bytes carried by one full line: 31 groups of three, 124 characters of Base64.
pub const LINE_CHUNK: usize = 93;

/// Why serial framing failed.
#[derive(PartialEq, Eq, Structural, Debug, Clone, Copy)]
pub enum SerialError {
    /// The frame is too long for the 16-bit length field of a packet.
    FrameTooLong,
    /// The output buffer cannot hold the next line.
    BufferTooSmall,
    /// A line does not start with the marker that its place in the packet calls for.
    InvalidMarker,
    /// The text of a line is not valid Base64.
    InvalidBase64,
    /// The packet has not been received in full.
    Incomplete,
    /// The packet's length field does not match the bytes received.
    InvalidLength,
    /// The checksum of the frame does not match the one received.
    CrcMismatch,
}

/// Two bytes, big endian, of a 16-bit value.
pub open spec fn spec_be16_bytes(n: nat) -> Seq<u8> {
    seq![(n / 256) as u8, (n % 256) as u8]
}

/// The value of two big-endian bytes.
pub open spec fn spec_be16(hi: u8, lo: u8) -> nat {
    (hi as nat) * 256 + (lo as nat)
}

/// The packet that carries `frame`: length field, frame, checksum.
pub open spec fn spec_packet(frame: Seq<u8>) -> Seq<u8> {
    spec_be16_bytes(frame.len() + 2) + frame + spec_be16_bytes(spec_crc16(frame) as nat)
}

/// The marker that opens the line starting at packet offset `pos`.
pub open spec fn spec_marker(first: bool) -> Seq<u8> {
    if first {
        seq![PKT_START_0, PKT_START_1]
    } else {
        seq![DATA_START_0, DATA_START_1]
    }
}

/// Where the line that starts at packet offset `pos` ends.
pub open spec fn spec_chunk_end(len: nat, pos: nat) -> nat {
    if pos + LINE_CHUNK <= len {
        pos + (LINE_CHUNK as nat)
    } else {
        len
    }
}

/// The line that carries the packet bytes from offset `pos` on.
pub open spec fn spec_line(packet: Seq<u8>, pos: nat) -> Seq<u8> {
    spec_marker(pos == 0) + spec_b64_encode(
        packet.subrange(pos as int, spec_chunk_end(packet.len(), pos) as int),
    ) + seq![NEWLINE]
}

/// The lines that carry the packet bytes from offset `pos` on.
pub open spec fn spec_lines(packet: Seq<u8>, pos: nat) -> Seq<Seq<u8>>
    decreases packet.len() - pos,
{
    if pos >= packet.len() {
        seq![]
    } else {
        seq![spec_line(packet, pos)] + spec_lines(packet, spec_chunk_end(packet.len(), pos))
    }
}

/// The lines that carry `frame` over a serial line.
pub open spec fn spec_encode_frame(frame: Seq<u8>) -> Seq<Seq<u8>> {
    spec_lines(spec_packet(frame), 0)
}

/// Where the Base64 text of a line ends: before the newline, if the line ends with one.
pub open spec fn spec_text_end(line: Seq<u8>) -> nat {
    if line.len() > 2 && line.last() == NEWLINE {
        (line.len() - 1) as nat
    } else {
        line.len()
    }
}

/// The packet bytes after reading one more line: `started` tells whether the packet's first
/// line has been read, `raw` holds the packet bytes decoded so far.
pub open spec fn spec_input_line(started: bool, raw: Seq<u8>, line: Seq<u8>) -> Result<
    Seq<u8>,
    SerialError,
> {
    if line.len() < 2 || line.take(2) != spec_marker(!started) {
        Err(SerialError::InvalidMarker)
    } else {
        match spec_b64_decode(line.subrange(2, spec_text_end(line) as int)) {
            Some(bytes) => Ok(raw + bytes),
            None => Err(SerialError::InvalidBase64),
        }
    }
}

/// The whole packet has arrived: at least as many bytes as its length field announces.
pub open spec fn spec_complete(raw: Seq<u8>) -> bool {
    raw.len() >= 2 && raw.len() >= 2 + spec_be16(raw[0], raw[1])
}

/// The frame that a complete packet carries, once its length and checksum are checked.
pub open spec fn spec_frame_payload(raw: Seq<u8>) -> Result<Seq<u8>, SerialError> {
    if !spec_complete(raw) {
        Err(SerialError::Incomplete)
    } else if raw.len() != 2 + spec_be16(raw[0], raw[1]) || raw.len() < 4 {
        Err(SerialError::InvalidLength)
    } else if spec_crc16(raw.subrange(2, raw.len() - 2)) as nat != spec_be16(
        raw[raw.len() - 2],
        raw[raw.len() - 1],
    ) {
        Err(SerialError::CrcMismatch)
    } else {
        Ok(raw.subrange(2, raw.len() - 2))
    }
}

/// Reads lines until the packet is complete, as a receiving loop does: the packet bytes and the
/// number of lines read, or the first error (`Incomplete` if the lines run out).
pub open spec fn spec_feed_lines(started: bool, raw: Seq<u8>, lines: Seq<Seq<u8>>) -> Result<
    (Seq<u8>, nat),
    SerialError,
>
    decreases lines.len(),
{
    if spec_complete(raw) {
        Ok((raw, 0))
    } else if lines.len() == 0 {
        Err(SerialError::Incomplete)
    } else {
        match spec_input_line(started, raw, lines[0]) {
            Err(e) => Err(e),
            Ok(next) => match spec_feed_lines(true, next, lines.drop_first()) {
                Ok((r, n)) => Ok((r, n + 1)),
                Err(e) => Err(e),
            },
        }
    }
}

// ---------------------------------------------------------------------------------------------
// Encoder

/// Produces the lines of one packet.
pub struct SerialEncoder {
    packet: Vec<u8>,
    pos: usize,
}

impl SerialEncoder {
    /// The packet being sent.
    pub closed spec fn packet(&self) -> Seq<u8> {
        self.packet@
    }

    /// Offset of the first packet byte not yet written.
    pub closed spec fn pos(&self) -> nat {
        self.pos as nat
    }

    pub closed spec fn wf(&self) -> bool {
        self.pos <= self.packet@.len()
    }

    /// An encoder for the packet that carries `frame`; `FrameTooLong` when the frame's length
    /// plus 2 does not fit the 16-bit length field.
    pub fn new(frame: &[u8]) -> (r: Result<Self, SerialError>)
        ensures
            frame@.len() + 2 > u16::MAX ==> r == Err::<Self, SerialError>(
                SerialError::FrameTooLong,
            ),
            frame@.len() + 2 <= u16::MAX ==> (r matches Ok(e) && e.wf() && e.packet()
                == spec_packet(frame@) && e.pos() == 0),
    {
        if frame.len() > 65533 {
            return Err(SerialError::FrameTooLong);
        }
        let n: u16 = (frame.len() + 2) as u16;
        let crc = crc16(frame);
        let mut packet: Vec<u8> = Vec::new();
        packet.push((n / 256) as u8);
        packet.push((n % 256) as u8);
        append_bytes(&mut packet, frame);
        packet.push((crc / 256) as u8);
        packet.push((crc % 256) as u8);
        assert(packet@ =~= spec_packet(frame@));
        Ok(SerialEncoder { packet, pos: 0 })
    }

    /// Every line has been written.
    pub fn is_complete(&self) -> (r: bool)
        ensures
            r == (self.pos() >= self.packet().len()),
    {
        self.pos >= self.packet.len()
    }

    /// Writes the next line into the start of `buf` and returns its length. Once every line has
    /// been written, it writes nothing and returns 0.
    pub fn write_line(&mut self, buf: &mut [u8]) -> (r: Result<usize, SerialError>)
        requires
            old(self).wf(),
        ensures
            final(self).wf(),
            final(self).packet() == old(self).packet(),
            final(buf)@.len() == old(buf)@.len(),
            old(self).pos() >= old(self).packet().len() ==> r == Ok::<usize, SerialError>(0)
                && final(self).pos() == old(self).pos() && final(buf)@ == old(buf)@,
            old(self).pos() < old(self).packet().len() ==> {
                let line = spec_line(old(self).packet(), old(self).pos());
                &&& line.len() <= MAX_LINE_LEN
                &&& old(buf)@.len() < line.len() ==> r == Err::<usize, SerialError>(
                    SerialError::BufferTooSmall,
                ) && final(self).pos() == old(self).pos() && final(buf)@ == old(buf)@
                &&& old(buf)@.len() >= line.len() ==> {
                    &&& r == Ok::<usize, SerialError>(line.len() as usize)
                    &&& final(buf)@.take(line.len() as int) == line
                    &&& final(buf)@.skip(line.len() as int) == old(buf)@.skip(line.len() as int)
                    &&& final(self).pos() == spec_chunk_end(old(self).packet().len(), old(self).pos())
                    &&& spec_lines(old(self).packet(), old(self).pos()) == seq![line] + spec_lines(
                        final(self).packet(),
                        final(self).pos(),
                    )
                }
            },
    {
        let len = self.packet.len();
        if self.pos >= len {
            return Ok(0);
        }
        let end = if len - self.pos >= LINE_CHUNK {
            self.pos + LINE_CHUNK
        } else {
            len
        };
        let chunk = copy_range(self.packet.as_slice(), self.pos, end);
        let text = base64_encode(chunk.as_slice());
        proof {
            lemma_encode_len(chunk@);
            assert(spec_b64_len(chunk@.len()) <= 124) by (nonlinear_arith)
                requires
                    chunk@.len() <= 93,
            ;
        }
        let line_len = text.len() + 3;
        if buf.len() < line_len {
            return Err(SerialError::BufferTooSmall);
        }
        let ghost old_buf = buf@;
        if self.pos == 0 {
            buf[0] = PKT_START_0;
            buf[1] = PKT_START_1;
        } else {
            buf[0] = DATA_START_0;
            buf[1] = DATA_START_1;
        }
        let mut i: usize = 0;
        while i < text.len()
            invariant
                i <= text@.len(),
                line_len == text@.len() + 3,
                buf@.len() == old_buf.len(),
                line_len <= buf@.len(),
                buf@.take(2) == spec_marker(self.pos == 0),
                buf@.subrange(2, 2 + i) == text@.take(i as int),
                forall|k: int| 2 + i <= k < buf@.len() ==> buf@[k] == old_buf[k],
            decreases text@.len() - i,
        {
            let ghost before = buf@;
            buf[2 + i] = text[i];
            assert(buf@.take(2) =~= before.take(2));
            assert(buf@.subrange(2, 2 + i + 1) =~= text@.take(i + 1));
            i = i + 1;
        }
        let ghost before = buf@;
        buf[2 + i] = NEWLINE;
        let ghost line = spec_line(self.packet@, self.pos as nat);
        assert(text@.take(text@.len() as int) =~= text@);
        assert(buf@.take(line_len as int) =~= line);
        assert(buf@.skip(line_len as int) =~= old_buf.skip(line_len as int));
        self.pos = end;
        Ok(line_len)
    }
}

// ---------------------------------------------------------------------------------------------
// Decoder

/// Collects the lines of one packet.
pub struct SerialDecoder {
    raw: Vec<u8>,
    started: bool,
}

impl SerialDecoder {
    /// The packet bytes decoded so far.
    pub closed spec fn raw(&self) -> Seq<u8> {
        self.raw@
    }

    /// The packet's first line has been read.
    pub closed spec fn started(&self) -> bool {
        self.started
    }

    /// A decoder that has read no line yet.
    pub fn new() -> (r: Self)
        ensures
            r.raw() == Seq::<u8>::empty(),
            !r.started(),
    {
        SerialDecoder { raw: Vec::new(), started: false }
    }

    /// The whole packet has arrived.
    pub fn is_complete(&self) -> (r: bool)
        ensures
            r == spec_complete(self.raw()),
    {
        let n = self.raw.len();
        n >= 2 && n - 2 >= (self.raw[0] as usize) * 256 + (self.raw[1] as usize)
    }

    /// Reads one line, with or without its newline. On an error the decoder is left unchanged.
    pub fn input_line(&mut self, line: &[u8]) -> (r: Result<(), SerialError>)
        ensures
            match spec_input_line(old(self).started(), old(self).raw(), line@) {
                Ok(next) => r is Ok && final(self).raw() == next && final(self).started(),
                Err(e) => r == Err::<(), SerialError>(e) && final(self).raw() == old(self).raw()
                    && final(self).started() == old(self).started(),
            },
    {
        let n = line.len();
        if n < 2 {
            return Err(SerialError::InvalidMarker);
        }
        let marker_ok = if self.started {
            line[0] == DATA_START_0 && line[1] == DATA_START_1
        } else {
            line[0] == PKT_START_0 && line[1] == PKT_START_1
        };
        assert(marker_ok == (line@.take(2) =~= spec_marker(!self.started)));
        if !marker_ok {
            return Err(SerialError::InvalidMarker);
        }
        let end = if n > 2 && line[n - 1] == NEWLINE {
            n - 1
        } else {
            n
        };
        let text = copy_range(line, 2, end);
        match base64_decode(text.as_slice()) {
            Some(bytes) => {
                append_bytes(&mut self.raw, bytes.as_slice());
                self.started = true;
                Ok(())
            },
            None => Err(SerialError::InvalidBase64),
        }
    }

    /// The frame that the packet carries, once its length and checksum are checked.
    pub fn into_frame_payload(self) -> (r: Result<Vec<u8>, SerialError>)
        ensures
            match spec_frame_payload(self.raw()) {
                Ok(frame) => r matches Ok(v) && v@ == frame,
                Err(e) => r == Err::<Vec<u8>, SerialError>(e),
            },
    {
        if !self.is_complete() {
            return Err(SerialError::Incomplete);
        }
        let n = self.raw.len();
        let declared = (self.raw[0] as usize) * 256 + (self.raw[1] as usize);
        if n - 2 != declared || n < 4 {
            return Err(SerialError::InvalidLength);
        }
        let frame = copy_range(self.raw.as_slice(), 2, n - 2);
        let crc = crc16(frame.as_slice());
        let received = (self.raw[n - 2] as u16) * 256 + (self.raw[n - 1] as u16);
        if crc != received {
            return Err(SerialError::CrcMismatch);
        }
        Ok(frame)
    }
}

// ---------------------------------------------------------------------------------------------
// Laws

proof fn lemma_be16_roundtrip(n: nat)
    requires
        n <= u16::MAX,
    ensures
        spec_be16(spec_be16_bytes(n)[0], spec_be16_bytes(n)[1]) == n,
{
}

proof fn lemma_be16_bytes_of(hi: u8, lo: u8)
    ensures
        spec_be16_bytes(spec_be16(hi, lo)) == seq![hi, lo],
{
    let n = spec_be16(hi, lo);
    assert(n / 256 == hi as nat && n % 256 == lo as nat) by (nonlinear_arith)
        requires
            n == (hi as nat) * 256 + (lo as nat),
            lo < 256,
    ;
    assert(spec_be16_bytes(n) =~= seq![hi, lo]);
}

/// A packet whose checksum bytes (big endian) differ from the CRC-16/XMODEM of the bytes between
/// the length field and the checksum is rejected with `CrcMismatch`, whatever its length, once its
/// length field matches the bytes received.
pub proof fn lemma_corrupted_checksum_rejected(raw: Seq<u8>)
    requires
        raw.len() >= 4,
        raw.len() == 2 + (raw[0] as nat) * 256 + (raw[1] as nat),
        spec_crc16(raw.subrange(2, raw.len() - 2)) as nat != (raw[raw.len() - 2] as nat) * 256
            + (raw[raw.len() - 1] as nat),
    ensures
        spec_frame_payload(raw) == Err::<Seq<u8>, SerialError>(SerialError::CrcMismatch),
{
}

/// The decoder accepts nothing but a true packet: whenever it yields a frame, the bytes received
/// are exactly the packet of that frame, that is, its length plus 2 and its CRC-16/XMODEM, both big
/// endian, around the frame.
pub proof fn lemma_accepted_is_packet(raw: Seq<u8>)
    ensures
        spec_frame_payload(raw) matches Ok(frame) ==> {
            &&& raw == spec_packet(frame)
            &&& (raw[0] as nat) * 256 + (raw[1] as nat) == frame.len() + 2
            &&& (raw[raw.len() - 2] as nat) * 256 + (raw[raw.len() - 1] as nat) == spec_crc16(
                frame,
            ) as nat
        },
{
    if let Ok(frame) = spec_frame_payload(raw) {
        let n = raw.len();
        lemma_be16_bytes_of(raw[0], raw[1]);
        lemma_be16_bytes_of(raw[n - 2], raw[n - 1]);
        assert(frame.len() + 2 == spec_be16(raw[0], raw[1]));
        assert(raw =~= seq![raw[0], raw[1]] + frame + seq![raw[n - 2], raw[n - 1]]);
    }
}

/// Every line of a packet fits in [`MAX_LINE_LEN`] bytes.
pub proof fn lemma_line_len(packet: Seq<u8>, pos: nat)
    requires
        pos < packet.len(),
    ensures
        spec_line(packet, pos).len() <= MAX_LINE_LEN,
        spec_line(packet, pos).len() >= 3,
{
    let chunk = packet.subrange(pos as int, spec_chunk_end(packet.len(), pos) as int);
    lemma_encode_len(chunk);
    assert(spec_b64_len(chunk.len()) <= 124) by (nonlinear_arith)
        requires
            chunk.len() <= 93,
    ;
}

/// The shape of the lines of a packet from offset `pos` on: each fits in [`MAX_LINE_LEN`] bytes,
/// ends with a newline, and opens with the packet-start marker exactly when it is the packet's
/// first line.
pub proof fn lemma_lines_shape(packet: Seq<u8>, pos: nat)
    ensures
        forall|i: int|
            0 <= i < spec_lines(packet, pos).len() ==> {
                let line = #[trigger] spec_lines(packet, pos)[i];
                &&& 3 <= line.len() <= MAX_LINE_LEN
                &&& line.last() == NEWLINE
                &&& line.take(2) == spec_marker(pos == 0 && i == 0)
            },
    decreases packet.len() - pos,
{
    if pos < packet.len() {
        let end = spec_chunk_end(packet.len(), pos);
        let lines = spec_lines(packet, pos);
        let rest = spec_lines(packet, end);
        lemma_lines_shape(packet, end);
        lemma_line_len(packet, pos);
        assert forall|i: int| 0 <= i < lines.len() implies {
            let line = #[trigger] lines[i];
            &&& 3 <= line.len() <= MAX_LINE_LEN
            &&& line.last() == NEWLINE
            &&& line.take(2) == spec_marker(pos == 0 && i == 0)
        } by {
            if i == 0 {
                assert(lines[0] == spec_line(packet, pos));
                assert(spec_line(packet, pos).take(2) =~= spec_marker(pos == 0));
            } else {
                assert(lines[i] == rest[i - 1]);
            }
        }
    }
}

/// Every line that carries `frame` has at most 127 bytes and ends with a newline (`0x0a`); the
/// first opens with `0x06 0x09` and every further one with `0x04 0x14`.
pub proof fn lemma_frame_lines_shape(frame: Seq<u8>)
    ensures
        spec_encode_frame(frame).len() > 0,
        forall|i: int|
            0 <= i < spec_encode_frame(frame).len() ==> {
                let line = #[trigger] spec_encode_frame(frame)[i];
                &&& 3 <= line.len() <= 127
                &&& line.last() == 0x0a
                &&& line[0] == (if i == 0 {
                    0x06u8
                } else {
                    0x04u8
                })
                &&& line[1] == (if i == 0 {
                    0x09u8
                } else {
                    0x14u8
                })
            },
{
    lemma_lines_shape(spec_packet(frame), 0);
    assert forall|i: int| 0 <= i < spec_encode_frame(frame).len() implies {
        let line = #[trigger] spec_encode_frame(frame)[i];
        &&& line[0] == (if i == 0 {
            0x06u8
        } else {
            0x04u8
        })
        &&& line[1] == (if i == 0 {
            0x09u8
        } else {
            0x14u8
        })
    } by {
        let line = spec_encode_frame(frame)[i];
        assert(line.take(2)[0] == line[0] && line.take(2)[1] == line[1]);
    }
}

/// The packet of a frame: 2 length bytes holding, big endian, the frame length plus 2; the frame;
/// 2 bytes holding, big endian, the CRC-16/XMODEM of the frame.
pub proof fn lemma_packet_layout(frame: Seq<u8>)
    requires
        frame.len() + 2 <= u16::MAX,
    ensures
        ({
            let p = spec_packet(frame);
            &&& p.len() == frame.len() + 4
            &&& (p[0] as nat) * 256 + (p[1] as nat) == frame.len() + 2
            &&& p.subrange(2, p.len() - 2) == frame
            &&& (p[p.len() - 2] as nat) * 256 + (p[p.len() - 1] as nat) == spec_crc16(frame) as nat
        }),
{
    let p = spec_packet(frame);
    lemma_be16_roundtrip(frame.len() + 2);
    lemma_be16_roundtrip(spec_crc16(frame) as nat);
    assert(p.subrange(2, p.len() - 2) =~= frame);
}

/// Reading the lines of a packet from offset `pos` on, into a decoder that holds the packet
/// bytes before `pos`, completes the packet exactly at the last line.
proof fn lemma_feed_packet_lines(packet: Seq<u8>, pos: nat)
    requires
        packet.len() >= 2,
        packet.len() == 2 + spec_be16(packet[0], packet[1]),
        pos <= packet.len(),
    ensures
        spec_feed_lines(pos > 0, packet.take(pos as int), spec_lines(packet, pos)) == Ok::<
            (Seq<u8>, nat),
            SerialError,
        >((packet, spec_lines(packet, pos).len())),
    decreases packet.len() - pos,
{
    let raw = packet.take(pos as int);
    if pos >= packet.len() {
        assert(raw =~= packet);
    } else {
        let end = spec_chunk_end(packet.len(), pos);
        let chunk = packet.subrange(pos as int, end as int);
        let line = spec_line(packet, pos);
        let lines = spec_lines(packet, pos);
        assert(!spec_complete(raw)) by {
            if raw.len() >= 2 {
                assert(raw[0] == packet[0] && raw[1] == packet[1]);
            }
        }
        lemma_line_len(packet, pos);
        lemma_decode_encode(chunk);
        let text = spec_b64_encode(chunk);
        assert(line.take(2) =~= spec_marker(pos == 0));
        assert(line.last() == NEWLINE);
        assert(spec_text_end(line) == line.len() - 1);
        assert(line.subrange(2, spec_text_end(line) as int) =~= text);
        assert(raw + chunk =~= packet.take(end as int));
        assert(spec_input_line(pos > 0, raw, line) == Ok::<Seq<u8>, SerialError>(
            packet.take(end as int),
        ));
        assert(lines[0] == line);
        assert(lines.drop_first() =~= spec_lines(packet, end));
        lemma_feed_packet_lines(packet, end);
    }
}

/// The receiving side gives back what the sending side framed: the lines that the encoder writes
/// for `frame`, read one by one into a fresh decoder, complete the packet exactly at the last line,
/// and the decoder then yields `frame`.
pub proof fn lemma_serial_roundtrip(frame: Seq<u8>)
    requires
        frame.len() + 2 <= u16::MAX,
    ensures
        spec_feed_lines(false, Seq::<u8>::empty(), spec_encode_frame(frame)) == Ok::<
            (Seq<u8>, nat),
            SerialError,
        >((spec_packet(frame), spec_encode_frame(frame).len())),
        spec_frame_payload(spec_packet(frame)) == Ok::<Seq<u8>, SerialError>(frame),
{
    let packet = spec_packet(frame);
    let n = frame.len() + 2;
    lemma_be16_roundtrip(n);
    lemma_be16_roundtrip(spec_crc16(frame) as nat);
    assert(packet.len() == frame.len() + 4);
    assert(packet[0] == spec_be16_bytes(n)[0] && packet[1] == spec_be16_bytes(n)[1]);
    assert(packet.take(0) =~= Seq::<u8>::empty());
    lemma_feed_packet_lines(packet, 0);
    assert(packet.subrange(2, packet.len() - 2) =~= frame);
    assert(packet[packet.len() - 2] == spec_be16_bytes(spec_crc16(frame) as nat)[0]);
    assert(packet[packet.len() - 1] == spec_be16_bytes(spec_crc16(frame) as nat)[1]);
}

} // verus!
