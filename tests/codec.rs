use storage_core::codec::{
    encode_record, read_record, verify_payload, RecordHeader, CURRENT_VERSION,
    FLAG_HAS_VECTOR, HEADER_SIZE, MAGIC, RECORD_TYPE_ACTIVE, RECORD_TYPE_DELETED,
};
use storage_core::errors::RecordHeaderError;

fn stored_crc(frame: &[u8]) -> u32 {
    u32::from_le_bytes(frame[24..28].try_into().unwrap())
}

#[test]
fn frame_checksum_is_crc32_of_payload() {
    assert_eq!(stored_crc(&encode_record(RECORD_TYPE_ACTIVE, b"123456789", false)), 0xCBF4_3926);
    assert_eq!(stored_crc(&encode_record(RECORD_TYPE_ACTIVE, b"hello", false)), 0x3610_A686);
    assert_eq!(stored_crc(&encode_record(RECORD_TYPE_ACTIVE, b"", false)), 0);
}

#[test]
fn encoded_frame_layout() {
    let payload = b"hello".to_vec();
    let frame = encode_record(RECORD_TYPE_ACTIVE, &payload, true);
    assert_eq!(frame.len(), 32 + 5);
    assert_eq!(&frame[0..4], &MAGIC.to_le_bytes());
    assert_eq!(frame[4], CURRENT_VERSION);
    assert_eq!(frame[5], RECORD_TYPE_ACTIVE);
    assert_eq!(u16::from_le_bytes([frame[6], frame[7]]), FLAG_HAS_VECTOR);
    assert_eq!(u64::from_le_bytes(frame[8..16].try_into().unwrap()), 37);
    assert_eq!(stored_crc(&frame), 0x3610_A686);
    assert_eq!(&frame[28..32], &[0, 0, 0, 0]);
    assert_eq!(&frame[32..], b"hello");
}

#[test]
fn encoded_frame_without_vector_has_no_flags() {
    let frame = encode_record(RECORD_TYPE_DELETED, b"x", false);
    assert_eq!(u16::from_le_bytes([frame[6], frame[7]]), 0);
    assert_eq!(frame[5], RECORD_TYPE_DELETED);
}

#[test]
fn codec_round_trip_decodes_what_was_encoded() {
    let payload = b"{\"id\":\"1\",\"name\":\"a\"}".to_vec();
    let frame = encode_record(RECORD_TYPE_ACTIVE, &payload, false);
    let (header, data) = read_record(&frame, 0).unwrap();
    assert_eq!(data, payload);
    assert_eq!(header.magic, MAGIC);
    assert_eq!(header.record_type, RECORD_TYPE_ACTIVE);
    assert_eq!(header.length, HEADER_SIZE + payload.len() as u64);
    assert_eq!(header.crc32, stored_crc(&frame));
}

#[test]
fn frame_read_at_an_offset() {
    let mut log = encode_record(RECORD_TYPE_ACTIVE, b"first", false);
    let second_at = log.len() as u64;
    log.extend(encode_record(RECORD_TYPE_DELETED, b"second", false));
    let (h, p) = read_record(&log, second_at).unwrap();
    assert_eq!(h.record_type, RECORD_TYPE_DELETED);
    assert_eq!(p, b"second".to_vec());
}

#[test]
fn header_write_then_read() {
    let mut header = RecordHeader::new(RECORD_TYPE_ACTIVE, 10);
    header.crc32 = 0x1234_5678;
    header.set_flag(0x0001);
    header.set_flag(FLAG_HAS_VECTOR);
    let mut buf = Vec::new();
    header.write(&mut buf);
    assert_eq!(buf.len(), 32);
    let back = RecordHeader::read(&buf).unwrap();
    assert_eq!(back, header);
    assert_eq!(back.flags, 0x0011);
    assert_eq!(back.data_size(), 10);
}

#[test]
fn version_rejection() {
    let mut log = encode_record(RECORD_TYPE_ACTIVE, b"good", false);
    let bad_at = log.len();
    let mut bad = encode_record(RECORD_TYPE_ACTIVE, b"newer", false);
    bad[4] = 255;
    log.extend(bad);
    let third_at = log.len() as u64;
    log.extend(encode_record(RECORD_TYPE_ACTIVE, b"also good", false));
    assert_eq!(
        read_record(&log, bad_at as u64),
        Err(RecordHeaderError::UnsupportedVersion { version: 255 })
    );
    assert_eq!(read_record(&log, 0).unwrap().1, b"good".to_vec());
    assert_eq!(read_record(&log, third_at).unwrap().1, b"also good".to_vec());
}

#[test]
fn invalid_magic_is_reported() {
    let mut frame = encode_record(RECORD_TYPE_ACTIVE, b"m", false);
    frame[0] = 0;
    let magic = u32::from_le_bytes(frame[0..4].try_into().unwrap());
    assert_eq!(read_record(&frame, 0), Err(RecordHeaderError::InvalidMagic { magic }));
}

#[test]
fn short_header_and_short_payload_are_truncated() {
    let frame = encode_record(RECORD_TYPE_ACTIVE, b"payload", false);
    assert_eq!(read_record(&frame[..20], 0), Err(RecordHeaderError::Truncated { offset: 0 }));
    assert_eq!(
        read_record(&frame[..frame.len() - 1], 0),
        Err(RecordHeaderError::Truncated { offset: 0 })
    );
    assert_eq!(
        read_record(&frame, frame.len() as u64),
        Err(RecordHeaderError::Truncated { offset: frame.len() as u64 })
    );
}

#[test]
fn length_below_header_is_invalid() {
    let mut frame = encode_record(RECORD_TYPE_ACTIVE, b"", false);
    frame[8..16].copy_from_slice(&8u64.to_le_bytes());
    assert_eq!(read_record(&frame, 0), Err(RecordHeaderError::InvalidLength { length: 8 }));
}

#[test]
fn corrupted_payload_is_detected() {
    let mut frame = encode_record(RECORD_TYPE_ACTIVE, b"abc", false);
    let expected = 0x3524_41C2;
    let last = frame.len() - 1;
    frame[last] = b'd';
    let actual = 0xAB40_D461;
    assert_eq!(
        read_record(&frame, 0),
        Err(RecordHeaderError::CorruptedData { offset: 0, expected, actual })
    );
    let header = RecordHeader::read(&frame).unwrap();
    assert_eq!(
        verify_payload(&header, b"abd", 64),
        Err(RecordHeaderError::CorruptedData { offset: 64, expected, actual })
    );
    assert_eq!(verify_payload(&header, b"abc", 64), Ok(()));
}
