use taodb::crc::{check_frame, decode_tolerant, decode_with_crc, encode_with_crc, frame_with, CrcError};
use taodb::text::hex_text;

#[test]
fn crc_roundtrip() {
    let data = b"hello world";
    let encoded = encode_with_crc(data);
    assert_eq!(encoded.len(), data.len() + 4);
    let decoded = decode_with_crc(&encoded).unwrap();
    assert_eq!(decoded, data);
}

#[test]
fn old_format_no_crc() {
    let data = b"old format data";
    let decoded = decode_tolerant(data);
    assert_eq!(decoded, data);
}

#[test]
fn short_data_rejected() {
    let data = b"hi";
    assert!(decode_with_crc(data).is_err());
}

#[test]
fn crc_mismatch_detected() {
    let data = b"some data";
    let mut encoded = encode_with_crc(data);
    encoded[0] ^= 0xFF;
    assert!(decode_with_crc(&encoded).is_err());
}

#[test]
fn tolerant_handles_corruption() {
    let data = b"some data";
    let mut encoded = encode_with_crc(data);
    encoded[0] ^= 0xFF;
    let decoded = decode_tolerant(&encoded);
    assert!(!decoded.is_empty());
}

#[test]
fn crc_tail_is_the_ieee_checksum() {
    let encoded = encode_with_crc(b"hello world");
    assert_eq!(&encoded[..11], b"hello world");
    assert_eq!(&encoded[11..], &0x0d4a_1185_u32.to_le_bytes());
    assert_eq!(encode_with_crc(b""), vec![0, 0, 0, 0]);
}

#[test]
fn crc_error_reports_both_checksums() {
    let mut encoded = encode_with_crc(b"some data");
    encoded[0] ^= 0xFF;
    let err = decode_with_crc(&encoded).unwrap_err();
    assert_eq!(err.stored.to_le_bytes().to_vec(), encoded[9..].to_vec());
    assert_ne!(err.stored, err.computed);
    let short = decode_with_crc(b"hi").unwrap_err();
    assert_eq!((short.stored, short.computed), (0, 0));
}

#[test]
fn crc_error_message_shows_both_checksums() {
    let e = CrcError { stored: 0x0d4a_1185, computed: 0xab };
    assert_eq!(e.message(), "CRC mismatch: stored=0x0d4a1185 computed=0x000000ab");
    let zero = CrcError { stored: 0, computed: u32::MAX };
    assert_eq!(zero.message(), format!("CRC mismatch: stored=0x{:08x} computed=0x{:08x}", 0, u32::MAX));
}

#[test]
fn hex_text_pads_to_the_width() {
    assert_eq!(hex_text(0, 16), "0000000000000000");
    assert_eq!(hex_text(u64::MAX, 16), "ffffffffffffffff");
    assert_eq!(hex_text(0xdead_beef, 8), "deadbeef");
    assert_eq!(hex_text(0x1a, 1), "a");
    for x in [0_u64, 1, 255, 0x1234_5678_9abc_def0, u64::MAX] {
        assert_eq!(hex_text(x, 16), format!("{:016x}", x));
    }
}

#[test]
fn frames_are_checked_against_the_given_checksum() {
    assert_eq!(frame_with(b"ab", 0x0102_0304), vec![b'a', b'b', 4, 3, 2, 1]);
    let raw = [b'a', b'b', b'c', b'd', 1, 0, 0, 0];
    assert_eq!(check_frame(&raw, 1).unwrap(), b"abcd".to_vec());
    assert_eq!(check_frame(&raw, 2).unwrap_err(), CrcError { stored: 1, computed: 2 });
    assert_eq!(check_frame(&[9, 0, 0, 0], 9).unwrap(), Vec::<u8>::new());
}
