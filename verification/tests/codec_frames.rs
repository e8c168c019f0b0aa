use portwatch::checksum::{crc16_ccitt, crc32_iso, parity8, verify_crc16, verify_crc32};
use portwatch::codec::{decode_payload, decode_rle, decode_window, encode_seed_literal, CodecMode, ReassemblyBuffer};
use portwatch::dictionary::StringDictionary;
use portwatch::error::ErrorKind;
use portwatch::frame::{build_frame, build_stream, parse_stream_frames, FrameKind};

#[test]
fn crc32_check_value() {
    assert_eq!(crc32_iso(b"123456789"), 0xCBF4_3926);
    assert!(verify_crc32(b"123456789", 0xCBF4_3926));
    assert!(!verify_crc32(b"123456789", 0));
}

#[test]
fn crc16_check_value() {
    assert_eq!(crc16_ccitt(b"123456789"), 0x29B1);
    assert!(verify_crc16(b"123456789", 0x29B1));
}

#[test]
fn parity_of_bytes() {
    assert_eq!(parity8(&[0x0f, 0xf0, 0x01]), 0xfe);
    assert_eq!(parity8(&[]), 0);
}

#[test]
fn rle_round_trip_of_seed_literals() {
    let data: Vec<u8> = (0..100u32).map(|i| (i * 7 % 251) as u8).collect();
    let encoded = encode_seed_literal(&data);
    assert_eq!(encoded.len(), data.len() + 4);
    assert_eq!(encoded[0], 31);
    let (decoded, stats) = decode_rle(&encoded).unwrap();
    assert_eq!(decoded, data);
    assert_eq!(stats.output_bytes, 100);
    assert_eq!(stats.literals, 100);
}

#[test]
fn rle_repeat_run() {
    let (decoded, stats) = decode_rle(&[0x82, 0xaa, 0x01, 1, 2]).unwrap();
    assert_eq!(decoded, vec![0xaa, 0xaa, 0xaa, 0xaa, 0xaa, 1, 2]);
    assert_eq!(stats.repeats, 1);
    assert_eq!(stats.literals, 2);
}

#[test]
fn rle_truncated_literal_is_eof() {
    let err = decode_rle(&[0x03, 1, 2]).unwrap_err();
    assert_eq!(err.kind, ErrorKind::UnexpectedEof);
}

#[test]
fn window_literal_and_backref() {
    // two literal bytes, then copy 3 bytes from distance 2
    let (decoded, stats) = decode_window(&[0x01, b'a', b'b', 0x40, 0x01, 0x00]).unwrap();
    assert_eq!(decoded, b"ababa".to_vec());
    assert_eq!(stats.backrefs, 1);
}

#[test]
fn window_backref_too_far_is_error() {
    let err = decode_window(&[0x00, b'a', 0x40, 0x05, 0x00]).unwrap_err();
    assert_eq!(err.kind, ErrorKind::CompressionError);
}

#[test]
fn payload_modes() {
    let dict = StringDictionary::new();
    assert_eq!(CodecMode::from_flags(0), CodecMode::Raw);
    assert_eq!(CodecMode::from_flags(1), CodecMode::Rle);
    let (raw, stats) = decode_payload(&[9, 8, 7], 0, &dict).unwrap();
    assert_eq!(raw, vec![9, 8, 7]);
    assert_eq!(stats.output_bytes, 3);
    let (rle, _) = decode_payload(&[0x80, 5], 1, &dict).unwrap();
    assert_eq!(rle, vec![5, 5, 5]);
}

#[test]
fn reassembly_in_any_order() {
    let mut buffer = ReassemblyBuffer::new(3);
    assert!(!buffer.complete());
    buffer.insert(2, vec![5, 6]).unwrap();
    buffer.insert(0, vec![1, 2]).unwrap();
    assert!(!buffer.complete());
    buffer.insert(1, vec![3, 4]).unwrap();
    assert!(buffer.complete());
    assert_eq!(buffer.assemble().unwrap(), vec![1, 2, 3, 4, 5, 6]);
}

#[test]
fn reassembly_rejects_index_past_parts() {
    let mut buffer = ReassemblyBuffer::new(2);
    let err = buffer.insert(2, vec![1]).unwrap_err();
    assert_eq!(err.kind, ErrorKind::InvalidValue);
    assert_eq!(err.offset, 2);
    let incomplete = ReassemblyBuffer::new(1);
    assert_eq!(incomplete.assemble().unwrap_err().kind, ErrorKind::MissingSection);
}

#[test]
fn frame_layout() {
    let frame = build_frame(0x03, 0x00, 7, &[1, 2, 3]);
    assert_eq!(frame.len(), 14 + 3);
    assert_eq!(frame[0], 0x03);
    assert_eq!(frame[1], 0x80);
    assert_eq!(&frame[2..6], &7u32.to_le_bytes());
    assert_eq!(&frame[6..10], &3u32.to_le_bytes());
    assert_eq!(&frame[10..14], &crc32_iso(&[1, 2, 3]).to_le_bytes());
}

#[test]
fn stream_round_trip() {
    let frames = vec![build_frame(0x03, 0x00, 1, &[1, 2]), build_frame(0x07, 0x02, 2, &[])];
    let stream = build_stream(&frames);
    let (header, parsed) = parse_stream_frames(&stream).unwrap();
    assert_eq!(header.version, 1);
    assert_eq!(header.stream_id, 1);
    assert_eq!(header.declared_frames, 2);
    assert_eq!(parsed.len(), 2);
    assert_eq!(parsed[0].kind, FrameKind::Records);
    assert_eq!(parsed[0].sequence, 1);
    assert_eq!(parsed[0].payload, &[1, 2]);
    assert_eq!(parsed[0].offset, 12);
    assert_eq!(parsed[1].kind, FrameKind::Heartbeat);
    assert_eq!(parsed[1].flags, 0x82);
    assert_eq!(parsed[1].offset, 12 + 16);
}

#[test]
fn stream_bad_magic() {
    let err = parse_stream_frames(b"XXXX\x01\x00").unwrap_err();
    assert_eq!(err.kind, ErrorKind::InvalidMagic);
}

#[test]
fn frame_checksum_mismatch() {
    let mut frame = build_frame(0x03, 0x00, 1, &[1, 2]);
    let last = frame.len() - 1;
    frame[last] ^= 0xff;
    let stream = build_stream(&[frame]);
    let err = parse_stream_frames(&stream).unwrap_err();
    assert_eq!(err.kind, ErrorKind::InvalidChecksum);
    assert_eq!(err.offset, 12);
}
