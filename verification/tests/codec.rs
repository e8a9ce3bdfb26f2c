use mcumgr_smp::base64::{base64_decode, base64_encode};
use mcumgr_smp::crc::crc16;

#[test]
fn crc16_xmodem_values() {
    let frame = [
        0x0u8, 0x0, 0x0, 0x8, 0x0, 0x0, 0x7, 0x0, 0xa1, 0x65, 0x66, 0x6f, 0x72, 0x63, 0x65, 0x0,
    ];
    assert_eq!(crc16(&frame), 0x2b02);
    assert_eq!(crc16(b"123456789"), 0x31c3);
    assert_eq!(crc16(&[]), 0);
}

#[test]
fn base64_rfc4648_vectors() {
    let cases: [(&[u8], &[u8]); 7] = [
        (b"", b""),
        (b"f", b"Zg=="),
        (b"fo", b"Zm8="),
        (b"foo", b"Zm9v"),
        (b"foob", b"Zm9vYg=="),
        (b"fooba", b"Zm9vYmE="),
        (b"foobar", b"Zm9vYmFy"),
    ];
    for (plain, text) in cases {
        assert_eq!(base64_encode(plain), text.to_vec());
        assert_eq!(base64_decode(text), Some(plain.to_vec()));
    }
    assert_eq!(base64_encode(&[0xfb, 0xff, 0xbf]), b"+/+/".to_vec());
    assert_eq!(base64_decode(b"+/+/"), Some(vec![0xfb, 0xff, 0xbf]));
}

#[test]
fn base64_rejects_malformed_text() {
    assert_eq!(base64_decode(b"Zm9"), None);
    assert_eq!(base64_decode(b"Zm=v"), None);
    assert_eq!(base64_decode(b"Zg==Zg=="), None);
    assert_eq!(base64_decode(b"Zh=="), None);
    assert_eq!(base64_decode(b"Zm9=").is_some(), false);
    assert_eq!(base64_decode(b"Zm!v"), None);
}

#[test]
fn base64_roundtrip_all_bytes() {
    let data: Vec<u8> = (0..=255u8).collect();
    for n in 0..data.len() {
        let text = base64_encode(&data[..n]);
        assert_eq!(text.len(), 4 * ((n + 2) / 3));
        assert_eq!(base64_decode(&text), Some(data[..n].to_vec()));
    }
}
