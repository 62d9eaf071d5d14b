use bitcask::data_file::{
    create_data_file_name, parse_data_file_name, parse_record, parse_record_header, read_record_at,
};
use bitcask::decimal::{parse_decimal, zero_padded_decimal};
use bitcask::errors::Errors;
use bitcask::log_record::{decode_log_record_pos, LogRecord, LogRecordPos, LogRecordType};
use bitcask::seq_key::{get_record_sequence_number_with_key, parse_record_sequence_number_with_key};
use bitcask::varint::{decode_varint, encode_varint, varint_size};

#[test]
fn test_log_record_encode() {
    let record = LogRecord {
        key: "hello".into(),
        value: "world".into(),
        rec_type: LogRecordType::Normal,
    };
    let encoded = record.encode();
    assert!(encoded.len() > 5);
    assert_eq!(561450126, record.get_crc());

    let record = LogRecord {
        key: "abc".into(),
        value: "123".into(),
        rec_type: LogRecordType::Normal,
    };
    let encoded = record.encode();
    assert!(encoded.len() > 5);
    assert_eq!(819267436, record.get_crc());
}

#[test]
fn record_layout_is_type_lengths_key_value_crc() {
    let record = LogRecord { key: b"hello".to_vec(), value: b"world".to_vec(), rec_type: LogRecordType::Normal };
    let encoded = record.encode();
    assert_eq!(encoded.len(), 1 + 1 + 1 + 5 + 5 + 4);
    assert_eq!(&encoded[..3], &[1u8, 5, 5]);
    assert_eq!(&encoded[3..8], b"hello");
    assert_eq!(&encoded[8..13], b"world");
    assert_eq!(&encoded[13..], &561450126u32.to_be_bytes());
    assert_eq!(record.encoded_length(), encoded.len() as u64);
}

#[test]
fn crc_differs_with_content() {
    let a = LogRecord { key: b"k".to_vec(), value: b"v".to_vec(), rec_type: LogRecordType::Normal };
    let b = LogRecord { key: b"k".to_vec(), value: b"v".to_vec(), rec_type: LogRecordType::Deleted };
    assert_ne!(a.get_crc(), b.get_crc());
    assert_eq!(a.get_crc(), crc32fast::hash(&[1u8, 1, 1, b'k', b'v']));
}

#[test]
fn varint_round_trip_and_sizes() {
    for n in [0u64, 1, 127, 128, 300, 16383, 16384, u32::MAX as u64, u64::MAX] {
        let mut buf = Vec::new();
        encode_varint(n, &mut buf);
        assert_eq!(buf.len(), varint_size(n));
        buf.push(0xff);
        assert_eq!(decode_varint(&buf, 0), Some((n, buf.len() - 1)));
    }
    let mut buf = Vec::new();
    encode_varint(300, &mut buf);
    assert_eq!(buf, vec![0xac, 0x02]);
    assert_eq!(varint_size(u32::MAX as u64), 5);
    assert_eq!(decode_varint(&[0x80, 0x80], 0), None);
    assert_eq!(decode_varint(&[0xff; 11], 0), None);
}

#[test]
fn record_reads_back_from_file_bytes() {
    let first = LogRecord { key: b"hello".to_vec(), value: b"world".to_vec(), rec_type: LogRecordType::Normal };
    let second = LogRecord { key: b"abc".to_vec(), value: b"123".to_vec(), rec_type: LogRecordType::Deleted };
    let mut file = first.encode();
    file.extend_from_slice(&second.encode());
    let r1 = read_record_at(&file, 0).unwrap();
    assert_eq!(r1.record.key, b"hello");
    assert_eq!(r1.record.value, b"world");
    assert_eq!(r1.record.rec_type, LogRecordType::Normal);
    assert_eq!(r1.size, 17);
    let r2 = read_record_at(&file, r1.size).unwrap();
    assert_eq!(r2.record.key, b"abc");
    assert_eq!(r2.record.value, b"123");
    assert_eq!(r2.record.rec_type, LogRecordType::Deleted);
    assert_eq!(read_record_at(&file, r1.size + r2.size).unwrap_err(), Errors::ReadDataFileEof);
}

#[test]
fn corrupt_record_is_reported() {
    let record = LogRecord { key: b"key".to_vec(), value: b"value".to_vec(), rec_type: LogRecordType::Normal };
    let mut file = record.encode();
    file[5] ^= 0x01;
    assert_eq!(read_record_at(&file, 0).unwrap_err(), Errors::InvalidLogRecordCrc);
    let mut file = record.encode();
    file[0] = 9;
    assert_eq!(read_record_at(&file, 0).unwrap_err(), Errors::InvalidLogRecordCrc);
}

#[test]
fn torn_tail_ends_the_file() {
    let record = LogRecord { key: b"key".to_vec(), value: b"value".to_vec(), rec_type: LogRecordType::Normal };
    let full = record.encode();
    for cut in 1..full.len() {
        let file = full[..cut].to_vec();
        assert_eq!(read_record_at(&file, 0).unwrap_err(), Errors::ReadDataFileEof);
    }
}

#[test]
fn header_then_body_parse() {
    let record = LogRecord { key: b"abc".to_vec(), value: b"123".to_vec(), rec_type: LogRecordType::Normal };
    let bytes = record.encode();
    let mut window = bytes.clone();
    window.resize(11, 0);
    let h = parse_record_header(&window[..11]).unwrap();
    assert_eq!((h.rec_type, h.key_len, h.value_len, h.header_size), (1, 3, 3, 3));
    let rr = parse_record(&h, &bytes[3..]).unwrap();
    assert_eq!(rr.record.key, b"abc");
    assert_eq!(rr.size, bytes.len() as u64);
    assert_eq!(parse_record_header(&[0u8; 11]).unwrap_err(), Errors::ReadDataFileEof);
}

#[test]
fn position_round_trip() {
    let pos = LogRecordPos { file_id: 7, offset: 123456 };
    let bytes = pos.encode();
    assert_eq!(bytes, vec![7, 0xc0, 0xc4, 0x07]);
    assert_eq!(decode_log_record_pos(&bytes), Some(pos));
    assert_eq!(decode_log_record_pos(&[]), None);
    let mut long = bytes.clone();
    long.push(1);
    assert_eq!(decode_log_record_pos(&long), None);
}

#[test]
fn sequence_prefixed_keys() {
    let k = get_record_sequence_number_with_key(b"key", 300);
    assert_eq!(k, vec![0xac, 0x02, b'k', b'e', b'y']);
    assert_eq!(parse_record_sequence_number_with_key(&k), Some((300, b"key".to_vec())));
    let k0 = get_record_sequence_number_with_key(b"k", 0);
    assert_eq!(k0, vec![0, b'k']);
    assert_eq!(parse_record_sequence_number_with_key(&[0x80]), None);
}

#[test]
fn data_file_names() {
    assert_eq!(create_data_file_name(0), b"000000000.data".to_vec());
    assert_eq!(create_data_file_name(12), b"000000012.data".to_vec());
    assert_eq!(create_data_file_name(4294967295), b"4294967295.data".to_vec());
    assert_eq!(parse_data_file_name(b"000000012.data"), Ok(Some(12)));
    assert_eq!(parse_data_file_name(b"hint-index"), Ok(None));
    assert_eq!(parse_data_file_name(b"file-lock"), Ok(None));
    assert_eq!(parse_data_file_name(b"abc.data"), Err(Errors::FailedToParseFileId));
    assert_eq!(parse_data_file_name(b"99999999999.data"), Err(Errors::FailedToParseFileId));
}

#[test]
fn decimal_digits() {
    assert_eq!(zero_padded_decimal(42, 5), b"00042".to_vec());
    assert_eq!(zero_padded_decimal(123456, 3), b"123456".to_vec());
    assert_eq!(parse_decimal(b"0042"), Some(42));
    assert_eq!(parse_decimal(b"18446744073709551615"), Some(u64::MAX));
    assert_eq!(parse_decimal(b"18446744073709551616"), None);
    assert_eq!(parse_decimal(b""), None);
    assert_eq!(parse_decimal(b"1a"), None);
}
