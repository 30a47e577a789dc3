use logging_system::encode_frame;
use logging_system::read_log;
use logging_system::ReadEnd;
use logging_system::Record;

fn rec(id: u64, tag: &str) -> Record {
    Record { id, tag: tag.to_string() }
}

fn log_of(records: &[Record]) -> Vec<u8> {
    let mut bytes: Vec<u8> = Vec::new();
    for r in records {
        bytes.extend_from_slice(&encode_frame(r));
    }
    bytes
}

#[test]
fn round_trip_single_record() {
    let r = rec(1, "a");
    let bytes = encode_frame(&r);
    let (records, end) = read_log(&bytes);
    assert_eq!(records, vec![rec(1, "a")]);
    assert_eq!(end, ReadEnd::EndOfData);
}

#[test]
fn round_trip_empty_tag_and_large_id() {
    let r = rec(u64::MAX, "");
    let bytes = encode_frame(&r);
    let (records, end) = read_log(&bytes);
    assert_eq!(records, vec![rec(u64::MAX, "")]);
    assert_eq!(end, ReadEnd::EndOfData);
}

#[test]
fn order_preserved_over_many_appends() {
    let input = vec![
        rec(10, "alpha"),
        rec(11, "beta"),
        rec(12, "gamma"),
        rec(13, ""),
        rec(14, "a longer tag with spaces"),
    ];
    let bytes = log_of(&input);
    let (records, end) = read_log(&bytes);
    assert_eq!(records, input);
    assert_eq!(end, ReadEnd::EndOfData);
}

#[test]
fn empty_file_reads_as_empty_sequence() {
    let bytes: Vec<u8> = Vec::new();
    let (records, end) = read_log(&bytes);
    assert!(records.is_empty());
    assert_eq!(end, ReadEnd::EndOfData);
}

#[test]
fn torn_tail_at_every_offset_yields_prior_records() {
    let r1 = rec(1, "a");
    let r2 = rec(2, "b");
    let r3 = rec(3, "c");
    let whole = log_of(&[r1.clone(), r2.clone(), r3.clone()]);
    let two = log_of(&[r1.clone(), r2.clone()]);
    let frame3_len = whole.len() - two.len();
    let payload3_len = logging_system::encode_record(&r3).len();
    for cut in 0..frame3_len {
        let torn = whole[..two.len() + cut].to_vec();
        let (records, end) = read_log(&torn);
        assert_eq!(records, vec![r1.clone(), r2.clone()]);
        assert_ne!(end, ReadEnd::Mismatch);
        if cut == 0 {
            assert_eq!(end, ReadEnd::EndOfData);
        }
        if cut >= payload3_len {
            assert_eq!(end, ReadEnd::MissingChecksum);
        }
    }
}

#[test]
fn single_bit_flip_in_payload_yields_no_record() {
    let r = rec(1, "a");
    let frame = encode_frame(&r);
    let payload_len = logging_system::encode_record(&r).len();
    for bit in 0..payload_len * 8 {
        let mut corrupt = frame.clone();
        corrupt[bit / 8] ^= 1u8 << (bit % 8);
        let (records, _end) = read_log(&corrupt);
        assert!(records.is_empty(), "bit {bit} produced {records:?}");
    }
}

#[test]
fn reads_are_idempotent() {
    let bytes = log_of(&[rec(7, "seven"), rec(8, "eight")]);
    let first = read_log(&bytes);
    let second = read_log(&bytes);
    assert_eq!(first.0, second.0);
    assert_eq!(first.1, second.1);
}

#[test]
fn concrete_scenario_three_records_then_truncate() {
    let r1 = rec(1, "a");
    let r2 = rec(2, "b");
    let r3 = rec(3, "c");
    let bytes = log_of(&[r1.clone(), r2.clone(), r3.clone()]);
    let (records, end) = read_log(&bytes);
    assert_eq!(records, vec![r1.clone(), r2.clone(), r3.clone()]);
    assert_eq!(end, ReadEnd::EndOfData);

    let truncated = bytes[..bytes.len() - 2].to_vec();
    let (records, end) = read_log(&truncated);
    assert_eq!(records, vec![r1, r2]);
    assert_ne!(end, ReadEnd::Mismatch);
}

#[test]
fn missing_checksum_ends_the_walk() {
    let r = rec(5, "five");
    let payload = logging_system::encode_record(&r);
    let (records, end) = read_log(&payload);
    assert!(records.is_empty());
    assert_eq!(end, ReadEnd::MissingChecksum);
}

#[test]
fn stored_checksum_corruption_reports_mismatch() {
    let r = rec(6, "six");
    let frame = encode_frame(&r);
    let payload_len = logging_system::encode_record(&r).len();
    let mut corrupt = frame.clone();
    let last = corrupt.len() - 1;
    assert!(last >= payload_len);
    corrupt[last] ^= 0x01;
    let (records, end) = read_log(&corrupt);
    assert!(records.is_empty());
    assert_eq!(end, ReadEnd::Mismatch);
}

#[test]
fn foreign_bytes_report_malformed() {
    let bytes = vec![0xc1u8];
    let (records, end) = read_log(&bytes);
    assert!(records.is_empty());
    assert_eq!(end, ReadEnd::Malformed);
}

#[test]
fn corruption_after_valid_frames_keeps_them() {
    let r1 = rec(1, "a");
    let r2 = rec(2, "b");
    let mut bytes = log_of(&[r1.clone(), r2.clone()]);
    bytes.push(0xc1);
    let (records, end) = read_log(&bytes);
    assert_eq!(records, vec![r1, r2]);
    assert_eq!(end, ReadEnd::Malformed);
}
