//! Reassembly of an SMP frame that arrives, without any framing of the transport, in chunks of
//! arbitrary size (UDP, BLE, or any byte stream).
//!
//! An SMP frame is an 8-byte header followed by the payload; bytes 2 and 3 of the header hold the
//! payload length, big endian. The receiver keeps every byte that was read and reports the frame
//! complete as soon as at least header plus declared payload have arrived. The transport loop
//! that performs the reads lives with the caller: it hands each chunk to [`FrameReceiver::receive`]
//! and acts on the [`ReceiveStatus`] it gets back.
use vstd::prelude::*;
use crate::bytes::append_bytes;

verus! {

/// Length of the fixed SMP header.
pub const SMP_HEADER_LEN: usize = 8;

/// The payload length that the header at the start of `frame` declares (bytes 2 and 3, big endian).
pub open spec fn spec_declared_len(frame: Seq<u8>) -> nat {
    (frame[2] as nat) * 256 + (frame[3] as nat)
}

/// The total frame length (header plus payload) that the header at the start of `frame` declares.
pub open spec fn spec_expected_len(frame: Seq<u8>) -> nat {
    spec_declared_len(frame) + (SMP_HEADER_LEN as nat)
}

/// The bytes hold the length field, and header plus declared payload stays within 16 bits,
/// the width in which the length check is computed.
pub open spec fn header_usable(frame: Seq<u8>) -> bool {
    frame.len() >= 4 && spec_expected_len(frame) <= u16::MAX
}

/// Whether `bytes` can start a frame: they hold the length field, and header plus declared
/// payload fits in 16 bits.
pub fn has_usable_header(bytes: &[u8]) -> (r: bool)
    ensures
        r == header_usable(bytes@),
{
    bytes.len() >= 4 && (bytes[2] as u32) * 256 + (bytes[3] as u32) + 8 <= 65535
}

/// What the receiver reports after a chunk.
#[derive(PartialEq, Eq, Structural, Debug, Clone, Copy)]
pub enum ReceiveStatus {
    /// Fewer bytes than the header declares have arrived: read again.
    Incomplete,
    /// The whole frame has arrived.
    Complete,
    /// A read returned no bytes before the frame was complete.
    UnexpectedEof,
}

/// Status of a buffer that holds at least the length field.
pub open spec fn spec_status(received: Seq<u8>) -> ReceiveStatus {
    if received.len() < spec_expected_len(received) {
        ReceiveStatus::Incomplete
    } else {
        ReceiveStatus::Complete
    }
}

/// One step of reassembly: the bytes kept and the status after `chunk` was read into a receiver
/// that holds `received`. An empty read after the first one is an unexpected end of stream and
/// keeps nothing new.
pub open spec fn spec_receive(received: Seq<u8>, chunk: Seq<u8>) -> (Seq<u8>, ReceiveStatus) {
    if received.len() > 0 && chunk.len() == 0 {
        (received, ReceiveStatus::UnexpectedEof)
    } else {
        (received + chunk, spec_status(received + chunk))
    }
}

/// Feeds `chunks` in order, stopping at the first status that is not `Incomplete`.
pub open spec fn spec_feed(received: Seq<u8>, chunks: Seq<Seq<u8>>) -> (Seq<u8>, ReceiveStatus)
    decreases chunks.len(),
{
    if chunks.len() == 0 {
        (received, ReceiveStatus::Incomplete)
    } else {
        let (next, status) = spec_receive(received, chunks[0]);
        if status == ReceiveStatus::Incomplete {
            spec_feed(next, chunks.drop_first())
        } else {
            (next, status)
        }
    }
}

/// Collects the chunks of one SMP frame.
pub struct FrameReceiver {
    received: Vec<u8>,
}

impl View for FrameReceiver {
    type V = Seq<u8>;

    closed spec fn view(&self) -> Seq<u8> {
        self.received@
    }
}

impl FrameReceiver {
    /// Nothing read yet, or the first read brought a usable length field.
    pub open spec fn wf(&self) -> bool {
        self@.len() == 0 || header_usable(self@)
    }

    /// A receiver that has read nothing yet.
    pub fn new() -> (r: Self)
        ensures
            r@ == Seq::<u8>::empty(),
            r.wf(),
    {
        FrameReceiver { received: Vec::new() }
    }

    /// Hands the bytes of one read to the receiver.
    ///
    /// The first read must bring at least the first four header bytes, with a declared length
    /// that leaves room for the header in 16 bits.
    pub fn receive(&mut self, chunk: &[u8]) -> (status: ReceiveStatus)
        requires
            old(self).wf(),
            old(self)@.len() == 0 ==> header_usable(chunk@),
        ensures
            final(self).wf(),
            (final(self)@, status) == spec_receive(old(self)@, chunk@),
            // bytes that were kept are never lost or reordered
            final(self)@.take(old(self)@.len() as int) == old(self)@,
            // the first read fixes the declared length
            old(self)@.len() > 0 ==> spec_expected_len(final(self)@) == spec_expected_len(
                old(self)@,
            ),
    {
        if self.received.len() > 0 && chunk.len() == 0 {
            return ReceiveStatus::UnexpectedEof;
        }
        let ghost old_received = self.received@;
        append_bytes(&mut self.received, chunk);
        assert(self.received@.take(old_received.len() as int) =~= old_received);
        assert(self.received@[2] == if old_received.len() > 0 {
            old_received[2]
        } else {
            chunk@[2]
        });
        assert(self.received@[3] == if old_received.len() > 0 {
            old_received[3]
        } else {
            chunk@[3]
        });
        let len: u16 = (self.received[2] as u16) * 256 + (self.received[3] as u16);
        if self.received.len() < (len + 8) as usize {
            ReceiveStatus::Incomplete
        } else {
            ReceiveStatus::Complete
        }
    }

    /// The bytes read so far.
    pub fn received(&self) -> (r: &[u8])
        ensures
            r@ == self@,
    {
        self.received.as_slice()
    }

    /// The frame: every byte that was read.
    pub fn into_frame(self) -> (r: Vec<u8>)
        ensures
            r@ == self@,
    {
        self.received
    }
}

/// The frame length a header calls for is the 8-byte header plus the payload length written
/// big endian in bytes 2 and 3: `8 + 256 * b[2] + b[3]`, for every header.
pub proof fn lemma_expected_len(frame: Seq<u8>)
    requires
        frame.len() >= 4,
    ensures
        spec_expected_len(frame) == 8 + 256 * (frame[2] as int) + (frame[3] as int),
        header_usable(frame) <==> 256 * (frame[2] as int) + (frame[3] as int) <= 65527,
{
}

/// Reassembly keeps reading exactly while fewer bytes have arrived than the header declares:
/// after a non-empty read (or the first one) the receiver holds everything read and the status is
/// `Incomplete` when fewer than `8 + 256 * b[2] + b[3]` bytes are held, and `Complete`
/// otherwise; an empty read after the first one is an unexpected end and keeps what was held.
pub proof fn lemma_receive_waits_for_declared_len(received: Seq<u8>, chunk: Seq<u8>)
    requires
        received.len() == 0 ==> header_usable(chunk),
        received.len() > 0 ==> header_usable(received),
    ensures
        received.len() > 0 && chunk.len() == 0 ==> spec_receive(received, chunk) == (
            received,
            ReceiveStatus::UnexpectedEof,
        ),
        !(received.len() > 0 && chunk.len() == 0) ==> ({
            let all = received + chunk;
            let declared = 8 + 256 * (all[2] as int) + (all[3] as int);
            &&& spec_receive(received, chunk).0 == all
            &&& (spec_receive(received, chunk).1 == ReceiveStatus::Incomplete <==> all.len()
                < declared)
            &&& (spec_receive(received, chunk).1 == ReceiveStatus::Complete <==> all.len()
                >= declared)
        }),
{
}

/// However a complete frame is cut into reads (each read bringing at least one byte, the first
/// one at least the length field), reassembly reports it complete at its last byte and keeps
/// exactly the frame.
pub proof fn lemma_any_split_reassembles(frame: Seq<u8>, chunks: Seq<Seq<u8>>)
    requires
        header_usable(frame),
        frame.len() == spec_expected_len(frame),
        chunks.flatten() == frame,
        chunks.len() > 0,
        chunks[0].len() >= 4,
        forall|i: int| 0 <= i < chunks.len() ==> #[trigger] chunks[i].len() > 0,
    ensures
        spec_feed(Seq::<u8>::empty(), chunks) == (frame, ReceiveStatus::Complete),
{
    assert(Seq::<u8>::empty() + chunks[0] =~= chunks[0]);
    assert(frame =~= chunks[0] + chunks.drop_first().flatten());
    lemma_feed_rest(frame, Seq::<u8>::empty(), chunks);
}

proof fn lemma_feed_rest(frame: Seq<u8>, received: Seq<u8>, chunks: Seq<Seq<u8>>)
    requires
        header_usable(frame),
        frame.len() == spec_expected_len(frame),
        received + chunks.flatten() == frame,
        chunks.len() > 0,
        received.len() + chunks[0].len() >= 4,
        forall|i: int| 0 <= i < chunks.len() ==> #[trigger] chunks[i].len() > 0,
    ensures
        spec_feed(received, chunks) == (frame, ReceiveStatus::Complete),
    decreases chunks.len(),
{
    let rest = chunks.drop_first();
    let next = received + chunks[0];
    assert(chunks.flatten() == chunks[0] + rest.flatten());
    assert(next + rest.flatten() =~= frame);
    assert(next[2] == frame[2] && next[3] == frame[3]);
    assert(spec_expected_len(next) == spec_expected_len(frame));
    if next.len() < spec_expected_len(next) {
        if rest.len() == 0 {
            assert(next =~= frame);
        }
        assert(rest[0] == chunks[1]);
        assert forall|i: int| 0 <= i < rest.len() implies #[trigger] rest[i].len() > 0 by {
            assert(rest[i] == chunks[i + 1]);
        }
        lemma_feed_rest(frame, next, rest);
    } else {
        assert(next.len() <= frame.len());
        assert(next =~= frame);
    }
}

} // verus!
