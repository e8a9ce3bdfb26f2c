use mcumgr_smp::serial::{SerialDecoder, SerialEncoder, SerialError, MAX_LINE_LEN};

const RESET_FRAME: [u8; 16] = [
    0x0, 0x0, 0x0, 0x8, 0x0, 0x0, 0x7, 0x0, 0xa1, 0x65, 0x66, 0x6f, 0x72, 0x63, 0x65, 0x0,
];

const RESET_SERIAL: [u8; 31] = [
    6, 9, 65, 66, 73, 65, 65, 65, 65, 73, 65, 65, 65, 72, 65, 75, 70, 108, 90, 109, 57, 121, 89,
    50, 85, 65, 75, 119, 73, 61, 10,
];

fn encode_lines(frame: &[u8]) -> Vec<Vec<u8>> {
    let mut encoder = SerialEncoder::new(frame).unwrap();
    let mut buf = vec![0u8; 128];
    let mut lines = Vec::new();
    while !encoder.is_complete() {
        let len = encoder.write_line(&mut buf).unwrap();
        lines.push(buf[..len].to_vec());
    }
    lines
}

fn decode_lines(lines: &[Vec<u8>]) -> (Result<Vec<u8>, SerialError>, usize) {
    let mut decoder = SerialDecoder::new();
    let mut used = 0;
    for line in lines {
        if decoder.is_complete() {
            break;
        }
        if let Err(e) = decoder.input_line(line) {
            return (Err(e), used);
        }
        used += 1;
    }
    (decoder.into_frame_payload(), used)
}

#[test]
fn read_serial_frame() {
    let mut decoder = SerialDecoder::new();
    assert!(!decoder.is_complete());
    decoder.input_line(&RESET_SERIAL).unwrap();
    assert!(decoder.is_complete());
    let frame = decoder.into_frame_payload();
    assert!(frame.is_ok());
    assert_eq!(frame.unwrap(), RESET_FRAME.to_vec());
}

#[test]
fn write_serial_frame() {
    let lines = encode_lines(&RESET_FRAME);
    assert_eq!(lines.len(), 1);
    assert_eq!(lines[0], RESET_SERIAL.to_vec());
}

#[test]
fn serial_long_frame_uses_continuation_lines() {
    let frame: Vec<u8> = (0..300u32).map(|i| (i * 7 % 251) as u8).collect();
    let lines = encode_lines(&frame);
    // packet of 304 bytes: 93 + 93 + 93 + 25
    assert_eq!(lines.len(), 4);
    assert_eq!(&lines[0][..2], &[0x06, 0x09]);
    for line in &lines[1..] {
        assert_eq!(&line[..2], &[0x04, 0x14]);
    }
    for line in &lines {
        assert!(line.len() <= MAX_LINE_LEN);
        assert_eq!(*line.last().unwrap(), b'\n');
    }
    assert_eq!(lines[0].len(), MAX_LINE_LEN);
    let (decoded, used) = decode_lines(&lines);
    assert_eq!(decoded.unwrap(), frame);
    assert_eq!(used, 4);
}

#[test]
fn serial_roundtrip_various_lengths() {
    for n in [0usize, 1, 2, 3, 89, 90, 91, 92, 93, 181, 182, 183, 1000] {
        let frame: Vec<u8> = (0..n).map(|i| (i * 13 + 5) as u8).collect();
        let lines = encode_lines(&frame);
        let (decoded, used) = decode_lines(&lines);
        assert_eq!(decoded.unwrap(), frame);
        assert_eq!(used, lines.len());
    }
}

#[test]
fn serial_buffer_too_small() {
    let mut encoder = SerialEncoder::new(&RESET_FRAME).unwrap();
    let mut buf = vec![0u8; 30];
    assert_eq!(encoder.write_line(&mut buf), Err(SerialError::BufferTooSmall));
    assert!(!encoder.is_complete());
    let mut buf = vec![0u8; 31];
    assert_eq!(encoder.write_line(&mut buf), Ok(31));
    assert!(encoder.is_complete());
    assert_eq!(encoder.write_line(&mut buf), Ok(0));
}

#[test]
fn serial_wrong_start_marker() {
    let mut decoder = SerialDecoder::new();
    let mut line = RESET_SERIAL.to_vec();
    line[0] = 0x04;
    line[1] = 0x14;
    assert_eq!(decoder.input_line(&line), Err(SerialError::InvalidMarker));
    assert_eq!(decoder.input_line(&[]), Err(SerialError::InvalidMarker));
    // the decoder is unchanged and still accepts the real first line
    assert_eq!(decoder.input_line(&RESET_SERIAL), Ok(()));
    // a second packet start is not a continuation line
    assert_eq!(decoder.input_line(&RESET_SERIAL), Err(SerialError::InvalidMarker));
}

#[test]
fn serial_invalid_base64() {
    let mut decoder = SerialDecoder::new();
    let mut line = RESET_SERIAL.to_vec();
    line[5] = b'*';
    assert_eq!(decoder.input_line(&line), Err(SerialError::InvalidBase64));
}

#[test]
fn serial_crc_mismatch() {
    let mut decoder = SerialDecoder::new();
    // "ABIAAAAIAAAHAKFlZm9yY2UAKwM=" carries checksum 0x2b03 in place of 0x2b02
    let mut line = RESET_SERIAL.to_vec();
    line[28] = b'M';
    decoder.input_line(&line).unwrap();
    assert!(decoder.is_complete());
    assert_eq!(decoder.into_frame_payload(), Err(SerialError::CrcMismatch));
}

#[test]
fn serial_incomplete_and_bad_length() {
    let decoder = SerialDecoder::new();
    assert_eq!(decoder.into_frame_payload(), Err(SerialError::Incomplete));

    // length field 1 with one data byte: shorter than a checksum
    let mut decoder = SerialDecoder::new();
    decoder.input_line(b"\x06\x09AAEA\n").unwrap();
    assert!(decoder.is_complete());
    assert_eq!(decoder.into_frame_payload(), Err(SerialError::InvalidLength));

    // length field 2 but three bytes after it
    let mut decoder = SerialDecoder::new();
    decoder.input_line(b"\x06\x09AAIAAAA=\n").unwrap();
    assert!(decoder.is_complete());
    assert_eq!(decoder.into_frame_payload(), Err(SerialError::InvalidLength));
}

#[test]
fn serial_line_without_newline_is_accepted() {
    let mut decoder = SerialDecoder::new();
    decoder.input_line(&RESET_SERIAL[..30]).unwrap();
    assert_eq!(decoder.into_frame_payload().unwrap(), RESET_FRAME.to_vec());
}

#[test]
fn serial_frame_too_long() {
    let frame = vec![0u8; 65534];
    assert!(matches!(SerialEncoder::new(&frame), Err(SerialError::FrameTooLong)));
    let frame = vec![0u8; 65533];
    let lines = encode_lines(&frame);
    let (decoded, used) = decode_lines(&lines);
    assert_eq!(decoded.unwrap(), frame);
    assert_eq!(used, lines.len());
}
