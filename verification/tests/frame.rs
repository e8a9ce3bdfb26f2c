use mcumgr_smp::frame::{FrameReceiver, ReceiveStatus, SMP_HEADER_LEN};

/// A reset request, sequence number 7: header (8 bytes) and CBOR payload `{"force": 0}`.
const RESET_FRAME: [u8; 16] = [
    0x0, 0x0, 0x0, 0x8, 0x0, 0x0, 0x7, 0x0, 0xa1, 0x65, 0x66, 0x6f, 0x72, 0x63, 0x65, 0x0,
];

fn receive_in_chunks(bytes: &[u8], chunk_size: usize) -> (Vec<u8>, ReceiveStatus, usize) {
    let mut receiver = FrameReceiver::new();
    let mut status = ReceiveStatus::Incomplete;
    let mut reads = 0;
    for chunk in bytes.chunks(chunk_size) {
        reads += 1;
        status = receiver.receive(chunk);
        if status != ReceiveStatus::Incomplete {
            break;
        }
    }
    (receiver.into_frame(), status, reads)
}

#[test]
fn read_frame() {
    let (frame, status, reads) = receive_in_chunks(&RESET_FRAME, usize::MAX);
    assert_eq!(status, ReceiveStatus::Complete);
    assert_eq!(frame, RESET_FRAME.to_vec());
    assert_eq!(reads, 1);

    // chunk_size = 4
    let (frame, status, reads) = receive_in_chunks(&RESET_FRAME, 4);
    assert_eq!(status, ReceiveStatus::Complete);
    assert_eq!(frame, RESET_FRAME.to_vec());
    assert_eq!(reads, 4);
}

#[test]
fn frame_every_chunk_size_reassembles() {
    for size in 4..=RESET_FRAME.len() {
        let (frame, status, _) = receive_in_chunks(&RESET_FRAME, size);
        assert_eq!(status, ReceiveStatus::Complete);
        assert_eq!(frame, RESET_FRAME.to_vec());
    }
}

#[test]
fn frame_incomplete_then_eof() {
    let mut receiver = FrameReceiver::new();
    assert_eq!(receiver.receive(&RESET_FRAME[..10]), ReceiveStatus::Incomplete);
    assert_eq!(receiver.receive(&[]), ReceiveStatus::UnexpectedEof);
    assert_eq!(receiver.received(), &RESET_FRAME[..10]);
}

#[test]
fn frame_extra_bytes_are_kept() {
    let mut bytes = RESET_FRAME.to_vec();
    bytes.extend_from_slice(&[0xaa, 0xbb]);
    let mut receiver = FrameReceiver::new();
    assert_eq!(receiver.receive(&bytes), ReceiveStatus::Complete);
    assert_eq!(receiver.into_frame(), bytes);
}

#[test]
fn frame_declared_length_is_big_endian() {
    // declared payload 0x0102 = 258 bytes, header 8: 266 bytes in all
    let mut bytes = vec![0u8; 266];
    bytes[2] = 0x01;
    bytes[3] = 0x02;
    let mut receiver = FrameReceiver::new();
    assert_eq!(receiver.receive(&bytes[..265]), ReceiveStatus::Incomplete);
    assert_eq!(receiver.receive(&bytes[265..]), ReceiveStatus::Complete);
    assert_eq!(receiver.received().len(), 258 + SMP_HEADER_LEN);
}

#[test]
fn frame_header_only_is_complete_for_empty_payload() {
    let header = [1u8, 0, 0, 0, 0, 0, 3, 4];
    let mut receiver = FrameReceiver::new();
    assert_eq!(receiver.receive(&header[..4]), ReceiveStatus::Incomplete);
    assert_eq!(receiver.receive(&header[4..]), ReceiveStatus::Complete);
}
