use bitcask::errors::Errors;
use bitcask::log_record::{decode_header, decode_log_record, LogRecord, LogRecordType};

fn record(key: &[u8], value: &[u8], rec_type: LogRecordType) -> LogRecord {
    LogRecord { key: key.to_vec(), value: value.to_vec(), rec_type }
}

#[test]
fn encode_normal_record_bytes() {
    let r = record(b"a", b"1", LogRecordType::NORMAL);
    assert_eq!(r.encode(), vec![1, 1, 1, 97, 49, 35, 137, 4, 111]);
}

#[test]
fn encode_tombstone_bytes() {
    let r = record(b"a", b"", LogRecordType::DELETED);
    assert_eq!(r.encode(), vec![2, 1, 0, 97, 110, 44, 58, 176]);
}

#[test]
fn encode_two_byte_length_field() {
    let value = vec![b'x'; 200];
    let r = record(b"k", &value, LogRecordType::NORMAL);
    let enc = r.encode();
    assert_eq!(enc.len(), 209);
    assert_eq!(&enc[..5], &[1, 1, 200, 1, 107]);
}

#[test]
fn round_trip_with_trailing_bytes() {
    let r = record(b"key-a", b"value-a", LogRecordType::NORMAL);
    let enc = r.encode();
    let mut buf = enc.clone();
    buf.extend_from_slice(&[9, 9, 9]);
    let (d, n) = decode_log_record(&buf).unwrap();
    assert_eq!(n, enc.len());
    assert_eq!(d.key, b"key-a".to_vec());
    assert_eq!(d.value, b"value-a".to_vec());
    assert_eq!(d.rec_type, LogRecordType::NORMAL);
}

#[test]
fn round_trip_tombstone_empty_value() {
    let r = record(b"gone", b"", LogRecordType::DELETED);
    let enc = r.encode();
    let (d, n) = decode_log_record(&enc).unwrap();
    assert_eq!(n, enc.len());
    assert_eq!(d.key, b"gone".to_vec());
    assert!(d.value.is_empty());
    assert_eq!(d.rec_type, LogRecordType::DELETED);
}

#[test]
fn decode_empty_is_end_of_log() {
    assert!(matches!(decode_log_record(&[]), Err(Errors::ReadDataFileEOF)));
}

#[test]
fn decode_short_tail_is_end_of_log() {
    let enc = record(b"abc", b"def", LogRecordType::NORMAL).encode();
    for cut in 0..3 {
        assert!(matches!(decode_log_record(&enc[..cut]), Err(Errors::ReadDataFileEOF)));
    }
    // fewer bytes than a header are the end of the log, whatever they hold
    assert!(matches!(decode_log_record(&[9, 9]), Err(Errors::ReadDataFileEOF)));
}

#[test]
fn decode_cut_record_is_corruption() {
    let enc = record(b"abc", b"def", LogRecordType::NORMAL).encode();
    for cut in 3..enc.len() {
        assert!(matches!(decode_log_record(&enc[..cut]), Err(Errors::IncompleteLogRecord)));
    }
}

#[test]
fn decode_cut_length_field_is_malformed() {
    assert!(matches!(decode_log_record(&[1, 0x80, 0x80]), Err(Errors::MalformedLogRecord)));
}

#[test]
fn decode_bad_checksum_is_corruption() {
    let mut enc = record(b"abc", b"def", LogRecordType::NORMAL).encode();
    let last = enc.len() - 1;
    enc[last] ^= 0xff;
    assert!(matches!(decode_log_record(&enc), Err(Errors::InvalidLogRecordCrc)));
    let mut enc2 = record(b"abc", b"def", LogRecordType::NORMAL).encode();
    enc2[4] = b'X';
    assert!(matches!(decode_log_record(&enc2), Err(Errors::InvalidLogRecordCrc)));
}

#[test]
fn decode_unknown_type_is_malformed() {
    assert!(matches!(decode_log_record(&[9, 1, 1, 97, 49, 0, 0, 0, 0]), Err(Errors::MalformedLogRecord)));
}

#[test]
fn decode_overlong_length_is_malformed() {
    let mut buf = vec![1u8];
    buf.extend_from_slice(&[0x80; 10]);
    buf.push(1);
    assert!(matches!(decode_log_record(&buf), Err(Errors::MalformedLogRecord)));
}

#[test]
fn header_reports_lengths_and_size() {
    let enc = record(b"k", &vec![b'x'; 200], LogRecordType::NORMAL).encode();
    let (t, k, v, h) = decode_header(&enc).unwrap();
    assert_eq!(t, LogRecordType::NORMAL);
    assert_eq!((k, v, h), (1, 200, 4));
}
