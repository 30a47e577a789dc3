use logging_system::checksum;
use logging_system::decode_record;
use logging_system::encode_frame;
use logging_system::encode_record;
use logging_system::DecodeError;
use logging_system::Record;

fn rec(id: u64, tag: &str) -> Record {
    Record { id, tag: tag.to_string() }
}

/// The MessagePack encoding of a `u32` in its most compact form,
/// written out by hand for comparison against the library.
fn msgpack_u32(v: u32) -> Vec<u8> {
    if v < 128 {
        vec![v as u8]
    } else if v < 256 {
        vec![0xcc, v as u8]
    } else if v < 65536 {
        vec![0xcd, (v >> 8) as u8, v as u8]
    } else {
        vec![0xce, (v >> 24) as u8, (v >> 16) as u8, (v >> 8) as u8, v as u8]
    }
}

#[test]
fn payload_encoding_exact_bytes() {
    // A two-element array: positive fixint 1, fixstr "a".
    let payload = encode_record(&rec(1, "a"));
    assert_eq!(payload, vec![0x92, 0x01, 0xa1, 0x61]);
}

#[test]
fn payload_encoding_wider_integers() {
    // Positive fixint boundary: 127 stays one byte, 128 gains a marker.
    assert_eq!(encode_record(&rec(127, "")), vec![0x92, 0x7f, 0xa0]);
    assert_eq!(encode_record(&rec(128, "")), vec![0x92, 0xcc, 0x80, 0xa0]);
}

#[test]
fn checksum_known_check_value() {
    // The standard CRC-32 (IEEE) check value for "123456789".
    let data: Vec<u8> = b"123456789".to_vec();
    assert_eq!(checksum(&data), 0xCBF43926);
}

#[test]
fn checksum_agrees_with_crc32fast() {
    let data: Vec<u8> = vec![0x92, 0x01, 0xa1, 0x61];
    assert_eq!(checksum(&data), crc32fast::hash(&data));
}

#[test]
fn frame_is_payload_then_encoded_digest() {
    let r = rec(42, "answer");
    let payload = encode_record(&r);
    let frame = encode_frame(&r);
    assert_eq!(&frame[..payload.len()], &payload[..]);
    let digest = crc32fast::hash(&payload);
    assert_eq!(&frame[payload.len()..], &msgpack_u32(digest)[..]);
}

#[test]
fn decode_record_reads_exactly_one_value() {
    let r1 = rec(1, "a");
    let r2 = rec(2, "b");
    let mut bytes = encode_record(&r1);
    let first_len = bytes.len();
    bytes.extend_from_slice(&encode_record(&r2));
    let (got1, next) = decode_record(&bytes, 0).expect("first record");
    assert_eq!(got1, r1);
    assert_eq!(next, first_len);
    let (got2, after) = decode_record(&bytes, next).expect("second record");
    assert_eq!(got2, r2);
    assert_eq!(after, bytes.len());
}

#[test]
fn decode_record_reports_end_of_data() {
    let bytes: Vec<u8> = Vec::new();
    assert_eq!(decode_record(&bytes, 0), Err(DecodeError::EndOfData));
}

#[test]
fn decode_record_reports_malformed() {
    // 0xc1 is the one marker MessagePack never uses.
    let bytes = vec![0xc1u8];
    assert_eq!(decode_record(&bytes, 0), Err(DecodeError::Malformed));
}

#[test]
fn decode_record_torn_inside_value() {
    let whole = encode_record(&rec(1, "abc"));
    let torn = whole[..whole.len() - 1].to_vec();
    assert!(decode_record(&torn, 0).is_err());
}
