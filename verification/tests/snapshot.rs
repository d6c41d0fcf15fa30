use rust_redis::error::DecodeError;
use rust_redis::rdb::RdLength;
use rust_redis::rdb::RdbParser;
use rust_redis::rdb::RdbString;
use rust_redis::rdb::RdbValue;
use rust_redis::rdb::Record;
use rust_redis::rdb::SortedSetEntry;

fn header() -> Vec<u8> {
    b"REDIS0011".to_vec()
}

fn string(text: &[u8]) -> Vec<u8> {
    let mut out = vec![text.len() as u8];
    out.extend_from_slice(text);
    out
}

fn record(key: &[u8], value: &[u8]) -> Vec<u8> {
    let mut out = vec![0u8];
    out.extend(string(key));
    out.extend(string(value));
    out
}

fn eof() -> Vec<u8> {
    vec![0xFF, 0, 0, 0, 0, 0, 0, 0, 0]
}

fn sample() -> Vec<u8> {
    let mut buf = header();
    buf.extend([0xFE, 0x00]);
    buf.extend(record(b"foo", b"bar"));
    buf.extend(eof());
    buf
}

#[test]
fn snapshot_with_one_record() {
    let mut parser = RdbParser::new(sample());
    let rdb = parser.parse().unwrap();
    assert_eq!(rdb.header.magic, "REDIS");
    assert_eq!(rdb.header.version, "0011");
    assert_eq!(rdb.checksum, 0);
    assert_eq!(rdb.events.len(), 1);
    let event = &rdb.events[0];
    assert_eq!(event.db_index, 0);
    assert_eq!(event.key, "foo");
    assert_eq!(event.value, "bar");
    assert_eq!(event.expires_at, None);
}

#[test]
fn expiry_in_milliseconds_goes_to_the_next_record_only() {
    let mut buf = header();
    buf.push(0xFC);
    buf.extend(1_700_000_000_123u64.to_le_bytes());
    buf.extend(record(b"a", b"1"));
    buf.extend(record(b"b", b"2"));
    buf.extend(eof());
    let rdb = RdbParser::new(buf).parse().unwrap();
    assert_eq!(rdb.events.len(), 2);
    assert_eq!(rdb.events[0].key, "a");
    assert_eq!(rdb.events[0].expires_at, Some(1_700_000_000_123));
    assert_eq!(rdb.events[1].key, "b");
    assert_eq!(rdb.events[1].expires_at, None);
}

#[test]
fn expiry_in_seconds_is_converted_to_milliseconds() {
    let mut buf = header();
    buf.push(0xFD);
    buf.extend(1_700_000_000u32.to_le_bytes());
    buf.extend(record(b"a", b"1"));
    buf.extend(eof());
    let rdb = RdbParser::new(buf).parse().unwrap();
    assert_eq!(rdb.events[0].expires_at, Some(1_700_000_000_000));
}

#[test]
fn every_truncation_is_reported_as_truncated() {
    let mut whole = header();
    whole.extend([0xFA]);
    whole.extend(string(b"redis-ver"));
    whole.extend(string(b"7.2.0"));
    whole.extend([0xFE, 0x00, 0xFB, 0x02, 0x01]);
    whole.push(0xFC);
    whole.extend(42u64.to_le_bytes());
    whole.extend(record(b"foo", b"bar"));
    whole.extend([0x00]);
    whole.extend(string(b"n"));
    whole.extend([0xC1, 0x39, 0x30]);
    whole.extend(eof());
    assert!(RdbParser::new(whole.clone()).parse().is_ok());
    for cut in 0..whole.len() {
        let mut parser = RdbParser::new(whole[..cut].to_vec());
        match parser.parse() {
            Err(e) => assert_eq!(e, DecodeError::Truncated, "cut at {}", cut),
            Ok(_) => panic!("a snapshot cut at {} was accepted", cut),
        }
    }
}

#[test]
fn unknown_value_type_is_refused() {
    for tag in [1u8, 2, 3, 4, 5, 9, 14, 200, 0xF9] {
        let mut buf = header();
        buf.push(tag);
        buf.extend(string(b"key"));
        buf.extend(string(b"value"));
        buf.extend(eof());
        let r = RdbParser::new(buf).parse();
        assert_eq!(r.unwrap_err(), DecodeError::UnsupportedValueType(tag));
    }
}

#[test]
fn unknown_value_type_with_cut_key_is_truncated() {
    let mut buf = header();
    buf.push(5);
    assert_eq!(RdbParser::new(buf).parse().unwrap_err(), DecodeError::Truncated);
}

#[test]
fn bad_magic_is_refused() {
    let mut buf = b"RDBIS0011".to_vec();
    buf.extend(eof());
    assert_eq!(RdbParser::new(buf).parse().unwrap_err(), DecodeError::BadMagic);
}

#[test]
fn version_must_be_text() {
    let mut buf = b"REDIS".to_vec();
    buf.extend([0xFF, 0xFE, 0x30, 0x31]);
    buf.extend(eof());
    assert_eq!(RdbParser::new(buf).parse().unwrap_err(), DecodeError::InvalidUtf8);
}

#[test]
fn compressed_string_is_refused() {
    let mut buf = header();
    buf.push(0);
    buf.extend(string(b"key"));
    buf.extend([0xC3, 0x01, 0x01, 0x61]);
    buf.extend(eof());
    assert_eq!(RdbParser::new(buf).parse().unwrap_err(), DecodeError::UnsupportedCompression);
}

#[test]
fn unknown_length_marker_is_corrupt() {
    let mut parser = RdbParser::new(vec![0xC4]);
    assert_eq!(parser.read_length().unwrap_err(), DecodeError::Corrupt);
}

#[test]
fn marker_in_place_of_database_index_is_corrupt() {
    let mut buf = header();
    buf.extend([0xFE, 0xC0, 0x01]);
    buf.extend(eof());
    assert_eq!(RdbParser::new(buf).parse().unwrap_err(), DecodeError::Corrupt);
}

#[test]
fn set_checksum_is_refused() {
    let mut buf = header();
    buf.extend([0xFF, 1, 2, 3, 4, 5, 6, 7, 8]);
    assert_eq!(RdbParser::new(buf).parse().unwrap_err(), DecodeError::UnsupportedChecksum);
}

#[test]
fn length_forms() {
    let mut p = RdbParser::new(vec![0x2A]);
    assert_eq!(p.read_length().unwrap(), RdLength::Len(42));
    let mut p = RdbParser::new(vec![0x41, 0x02]);
    assert_eq!(p.read_length().unwrap(), RdLength::Len(258));
    let mut p = RdbParser::new(vec![0x7F, 0xFF]);
    assert_eq!(p.read_length().unwrap(), RdLength::Len(16383));
    let mut p = RdbParser::new(vec![0x80, 0x01, 0x02, 0x03, 0x04]);
    assert_eq!(p.read_length().unwrap(), RdLength::Len(0x01020304));
    let mut p = RdbParser::new(vec![0xC0]);
    assert_eq!(p.read_length().unwrap(), RdLength::Integer(1));
    let mut p = RdbParser::new(vec![0xC1]);
    assert_eq!(p.read_length().unwrap(), RdLength::Integer(2));
    let mut p = RdbParser::new(vec![0xC2]);
    assert_eq!(p.read_length().unwrap(), RdLength::Integer(4));
    let mut p = RdbParser::new(vec![0xC3]);
    assert_eq!(p.read_length().unwrap(), RdLength::LZF);
}

#[test]
fn integer_strings_are_decimal_text() {
    let cases: Vec<(Vec<u8>, &str)> = vec![
        (vec![0xC0, 0x7B], "123"),
        (vec![0xC0, 0xFF], "-1"),
        (vec![0xC0, 0x80], "-128"),
        (vec![0xC1, 0x39, 0x30], "12345"),
        (vec![0xC1, 0x00, 0x80], "-32768"),
        (vec![0xC2, 0x15, 0xCD, 0x5B, 0x07], "123456789"),
        (vec![0xC2, 0x00, 0x00, 0x00, 0x80], "-2147483648"),
        (vec![0xC2, 0xFF, 0xFF, 0xFF, 0x7F], "2147483647"),
        (vec![0xC0, 0x00], "0"),
    ];
    for (bytes, text) in cases {
        let mut p = RdbParser::new(bytes);
        let s = p.read_string().unwrap();
        assert!(matches!(s, RdbString::Integer(_)));
        assert_eq!(s.to_string(), text);
    }
}

#[test]
fn a_failed_read_leaves_the_cursor() {
    let mut p = RdbParser::new(vec![0x05, b'a', b'b']);
    assert_eq!(p.read_string().unwrap_err(), DecodeError::Truncated);
    assert_eq!(p.read_byte().unwrap(), 0x05);
    assert_eq!(p.read_bytes(2).unwrap(), b"ab");
    assert_eq!(p.read_byte().unwrap_err(), DecodeError::Truncated);
}

#[test]
fn metadata_is_kept_and_last_value_stands() {
    let mut buf = header();
    buf.push(0xFA);
    buf.extend(string(b"redis-ver"));
    buf.extend(string(b"7.2.0"));
    buf.push(0xFA);
    buf.extend(string(b"redis-bits"));
    buf.extend([0xC0, 0x40]);
    buf.push(0xFA);
    buf.extend(string(b"redis-ver"));
    buf.extend(string(b"7.4.1"));
    buf.extend(eof());
    let rdb = RdbParser::new(buf).parse().unwrap();
    assert_eq!(rdb.metadata.len(), 3);
    assert_eq!(rdb.metadata.get("redis-ver"), Some("7.4.1".to_string()));
    assert_eq!(rdb.metadata.get("redis-bits"), Some("64".to_string()));
    assert_eq!(rdb.metadata.get("absent"), None);
    assert!(rdb.events.is_empty());
}

#[test]
fn database_index_applies_to_later_records() {
    let mut buf = header();
    buf.extend(record(b"a", b"1"));
    buf.extend([0xFE, 0x03]);
    buf.extend(record(b"b", b"2"));
    buf.extend([0xFE, 0x41, 0x00]);
    buf.extend(record(b"c", b"3"));
    buf.extend(eof());
    let rdb = RdbParser::new(buf).parse().unwrap();
    let dbs: Vec<usize> = rdb.events.iter().map(|e| e.db_index).collect();
    assert_eq!(dbs, vec![0, 3, 256]);
}

#[test]
fn bytes_after_the_end_marker_are_left() {
    let mut buf = sample();
    let end = buf.len();
    buf.extend(b"trailing");
    let mut parser = RdbParser::new(buf);
    assert!(parser.parse().is_ok());
    assert_eq!(parser.read_bytes(8).unwrap(), b"trailing");
    let _ = end;
}

#[test]
fn ill_formed_text_is_replaced() {
    let mut buf = header();
    buf.extend(record(b"k\xFFey", b"v"));
    buf.extend(eof());
    let rdb = RdbParser::new(buf).parse().unwrap();
    assert_eq!(rdb.events[0].key, "k\u{FFFD}ey");
}

#[test]
fn records_one_by_one() {
    let mut buf = vec![0xFB, 0x02, 0x01, 0xFE, 0x07];
    buf.extend(record(b"k", b"v"));
    buf.extend(eof());
    let mut p = RdbParser::new(buf);
    assert!(matches!(p.read_record().unwrap(), Record::ResizeDb(2, 1)));
    assert!(matches!(p.read_record().unwrap(), Record::SelectDb(7)));
    match p.read_record().unwrap() {
        Record::Value(key, value) => {
            assert_eq!(key.to_string(), "k");
            assert_eq!(value.to_string(), "v");
        }
        other => panic!("unexpected record {:?}", other),
    }
    assert!(matches!(p.read_record().unwrap(), Record::Eof(0)));
    assert_eq!(p.read_record().unwrap_err(), DecodeError::Truncated);
}

#[test]
fn values_as_text() {
    let list = RdbValue::List(vec!["a".to_string(), "b".to_string(), "c".to_string()]);
    assert_eq!(list.to_string(), "a,b,c");
    let set = RdbValue::UnorderedSet(vec!["x".to_string()]);
    assert_eq!(set.to_string(), "x");
    let empty = RdbValue::List(vec![]);
    assert_eq!(empty.to_string(), "");
    let sorted = RdbValue::SortedSet(vec![
        SortedSetEntry { member: "m".to_string(), score: "1.5".to_string() },
        SortedSetEntry { member: "n".to_string(), score: "2".to_string() },
    ]);
    assert_eq!(sorted.to_string(), "m:1.5,n:2");
    let hash = RdbValue::Hash(vec![
        ("f".to_string(), "1".to_string()),
        ("g".to_string(), "2".to_string()),
    ]);
    assert_eq!(hash.to_string(), "f:1,g:2");
    assert_eq!(RdbString::LZF(vec![]).to_string(), "LZF");
    assert_eq!(RdbValue::String(RdbString::String(b"s".to_vec())).to_string(), "s");
}
