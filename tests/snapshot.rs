use redis_lite::database::{AuxValue, RDBParser, RdbError};
use redis_lite::loader::{load_snapshot, populate_storage_at};
use redis_lite::storage::Storage;

fn hex(s: &str) -> Vec<u8> {
    (0..s.len()).step_by(2).map(|i| u8::from_str_radix(&s[i..i + 2], 16).unwrap()).collect()
}

const SAMPLE: &str = "524544495330303130fa0972656469732d76657206372e302e3130fa0a72656469732d62697473c040fa056374696d65c2d5bbcc66fa08757365642d6d656dc2d0171100fa08616f662d62617365c000fe00fb0201fc86de7dad91010000000362617a037a61670003666f6f03626172ff20b3abf967cff893";

fn two_plain_entries() -> Vec<u8> {
    let mut d = b"REDIS0011".to_vec();
    d.extend_from_slice(&[0xFE, 0x00, 0xFB, 0x02, 0x00]);
    d.extend_from_slice(&[0x00, 3, b'b', b'a', b'z', 3, b'z', b'a', b'g']);
    d.extend_from_slice(&[0x00, 3, b'f', b'o', b'o', 3, b'b', b'a', b'r']);
    d.push(0xFF);
    d.extend_from_slice(&[1, 2, 3, 4, 5, 6, 7, 8]);
    d
}

fn p() -> RDBParser {
    RDBParser::new(Vec::new())
}

#[test]
fn decode_two_plain_entries() {
    let mut parser = RDBParser::new(two_plain_entries());
    assert!(parser.parse().is_ok());
    assert_eq!(parser.rdb_version(), 11);
    assert_eq!(
        parser.entries().clone(),
        vec![(b"baz".to_vec(), b"zag".to_vec()), (b"foo".to_vec(), b"bar".to_vec())]
    );
    assert!(parser.expiry_entries().is_empty());
}

#[test]
fn decode_sample_file() {
    let mut parser = RDBParser::new(hex(SAMPLE));
    assert!(parser.parse().is_ok());
    assert_eq!(parser.rdb_version(), 10);
    assert_eq!(parser.entries().clone(), vec![(b"foo".to_vec(), b"bar".to_vec())]);
    assert_eq!(
        parser.expiry_entries().clone(),
        vec![(b"baz".to_vec(), b"zag".to_vec(), 1725192593030u64)]
    );
    assert!(matches!(parser.aux_field("redis-ver"), Some(AuxValue::String(s)) if s == "7.0.10"));
    assert!(matches!(parser.aux_field("redis-bits"), Some(AuxValue::Integer(64))));
    assert!(matches!(parser.aux_field("ctime"), Some(AuxValue::Integer(1724693461))));
    assert!(matches!(parser.aux_field("used-mem"), Some(AuxValue::Integer(1120208))));
    assert!(matches!(parser.aux_field("aof-base"), Some(AuxValue::Integer(0))));
    assert!(parser.aux_field("missing").is_none());
    assert_eq!(parser.aux_fields().len(), 5);
}

#[test]
fn bad_magic_fails() {
    let mut parser = RDBParser::new(b"RADIS0011\xff".to_vec());
    assert_eq!(parser.parse(), Err(RdbError::BadMagic));
    assert!(parser.entries().is_empty());
}

#[test]
fn bad_version_fails() {
    assert_eq!(p().parse_rdb_version(b"REDIS00x1"), Err(RdbError::BadVersion));
    assert_eq!(p().parse_rdb_version(b"REDIS0011"), Ok(11));
    assert_eq!(p().parse_rdb_version(b"REDIS+011"), Ok(11));
    assert_eq!(p().parse_rdb_version(b"REDIS"), Err(RdbError::Truncated));
}

#[test]
fn length_code_boundaries() {
    assert_eq!(p().decode_length(&[63]), Ok((1, 63)));
    assert_eq!(p().decode_length(&[64, 0xAB]), Ok((2, 0xAB)));
    assert_eq!(p().decode_length(&[0x7F, 0xFF]), Ok((2, 0x3FFF)));
    assert_eq!(p().decode_length(&[64]), Err(RdbError::Truncated));
    assert_eq!(p().decode_length(&[0x80, 0x01, 0x02, 0x03]), Ok((4, 0x010203)));
    assert_eq!(p().decode_length(&[0xC5]), Ok((1, 5)));
    assert_eq!(p().decode_length(&[254, 1, 0, 0, 0]), Ok((5, 1)));
    assert_eq!(p().decode_length(&[254, 0xFF, 0xFF, 0xFF, 0xFF]), Ok((5, 0xFFFF_FFFF)));
    assert_eq!(p().decode_length(&[254, 1, 0, 0]), Err(RdbError::Truncated));
    assert_eq!(p().decode_length(&[255]), Err(RdbError::InvalidLength));
    assert_eq!(p().decode_length(&[255, 1, 2, 3, 4, 5]), Err(RdbError::InvalidLength));
    assert_eq!(p().decode_length(&[]), Err(RdbError::Truncated));
}

#[test]
fn integer_codes() {
    assert_eq!(p().decode_integer(&[0xC0, 0xFF]), Ok((2, 255)));
    assert_eq!(p().decode_integer(&[0xC1, 0xFE, 0xFF]), Ok((3, -2)));
    assert_eq!(p().decode_integer(&[0xC2, 0x00, 0x00, 0x00, 0x80]), Ok((5, i32::MIN as i64)));
    assert_eq!(p().decode_integer(&[0xC3, 0xFF, 0xFF, 0xFF, 0xFF, 0xFF, 0xFF, 0xFF, 0x7F]), Ok((9, i64::MAX)));
    assert_eq!(p().decode_integer(&[0xC3, 0, 0, 0, 0, 0, 0, 0, 0x80]), Ok((9, i64::MIN)));
    assert_eq!(p().decode_integer(&[0xC5]), Ok((1, 5)));
    assert_eq!(p().decode_integer(&[0xC1, 0x01]), Err(RdbError::Truncated));
    assert_eq!(p().decode_integer(&[0x10]), Err(RdbError::InvalidInteger(0x10)));
}

#[test]
fn value_types() {
    let parser = p();
    let list = [2u8, 1, b'a', 2, b'b', b'c'];
    let mut i = 0;
    assert_eq!(parser.decode_value(&list, 1, &mut i), Ok(b"a,bc".to_vec()));
    assert_eq!(i, 6);
    let hash = [1u8, 1, b'f', 1, b'v'];
    let mut i = 0;
    assert_eq!(parser.decode_value(&hash, 4, &mut i), Ok(b"f:v".to_vec()));
    let zset = [1u8, 1, b'm', 3];
    let mut i = 0;
    assert_eq!(parser.decode_value(&zset, 3, &mut i), Ok(vec![b'm', b':', 3, 0, 0, 0, 0, 0, 0, 0]));
    let int = [0xC1u8, 0xFF, 0xFF];
    let mut i = 0;
    assert_eq!(parser.decode_value(&int, 10, &mut i), Ok(vec![0xFF; 8]));
    assert_eq!(i, 3);
    let raw = [7u8];
    let mut i = 0;
    assert_eq!(parser.decode_value(&raw, 250, &mut i), Ok(vec![7]));
    let mut i = 1;
    assert_eq!(parser.decode_value(&raw, 55, &mut i), Err(RdbError::Truncated));
    let mut i = 0;
    assert_eq!(parser.decode_value(&raw, 7, &mut i), Err(RdbError::UnknownValueType(7)));
    let empty_list = [0u8];
    let mut i = 0;
    assert_eq!(parser.decode_value(&empty_list, 2, &mut i), Ok(Vec::new()));
}

#[test]
fn truncated_string_fails() {
    let mut i = 0;
    assert_eq!(p().decode_value(&[5, b'a'], 0, &mut i), Err(RdbError::Truncated));
}

#[test]
fn entries_stop_at_end_marker() {
    let data = [0x00u8, 1, b'k', 1, b'v', 0xFF, 0x00, 1, b'x', 1, b'y'];
    let (plain, timed) = p().process_entries(&data).unwrap();
    assert_eq!(plain, vec![(b"k".to_vec(), b"v".to_vec())]);
    assert!(timed.is_empty());
}

#[test]
fn seconds_expiry_in_milliseconds() {
    let data = [0xFDu8, 0x10, 0, 0, 0, 0x00, 1, b'k', 1, b'v'];
    let (plain, timed) = p().process_entries(&data).unwrap();
    assert!(plain.is_empty());
    assert_eq!(timed, vec![(b"k".to_vec(), b"v".to_vec(), 16_000u64)]);
}

#[test]
fn truncated_expiry_fails() {
    assert_eq!(p().process_entries(&[0xFC, 1, 2, 3]), Err(RdbError::Truncated));
}

#[test]
fn non_utf8_aux_key_fails() {
    let mut d = b"REDIS0011".to_vec();
    d.extend_from_slice(&[0xFA, 1, 0xFF, 0xC0, 1, 0xFF]);
    assert_eq!(RDBParser::new(d.clone()).parse(), Err(RdbError::InvalidUtf8Key));
    assert_eq!(p().parse_auxiliary_fields(&d).err(), Some(RdbError::InvalidUtf8Key));
}

#[test]
fn aux_string_keeps_bytes_as_chars() {
    let mut d = b"REDIS0011".to_vec();
    d.extend_from_slice(&[0xFA, 1, b'k', 2, 0xE9, b'a', 0xFA, 1, b'j', 1, b'b', 0xFA, 1, b'j', 1, b'c', 0xFF]);
    let (fields, next) = p().parse_auxiliary_fields(&d).unwrap();
    assert_eq!(next, d.len() - 1);
    assert_eq!(fields.len(), 2);
    let mut parser = RDBParser::new(d);
    parser.parse().unwrap();
    assert!(matches!(parser.aux_field("k"), Some(AuxValue::String(s)) if s == "\u{e9}a"));
    assert!(matches!(parser.aux_field("j"), Some(AuxValue::String(s)) if s == "c"));
}

#[test]
fn stringify_is_lossy() {
    assert_eq!(RDBParser::stringify(b"abc"), "abc");
    assert_eq!(RDBParser::stringify(&[b'a', 0xFF]), "a\u{FFFD}");
}

#[test]
fn populate_loads_plain_and_expiring_entries() {
    let mut storage = Storage::new();
    let unix_now: u128 = 1725192590_000_000_000;
    let mut parser = RDBParser::new(hex(SAMPLE));
    parser.parse().unwrap();
    populate_storage_at(&mut storage, &parser, unix_now, 0);
    assert_eq!(storage.get_at("foo", u128::MAX), Some("bar".to_string()));
    assert_eq!(storage.get_at("baz", 2_999_999_999), Some("zag".to_string()));
    assert_eq!(storage.get_at("baz", 3_000_000_000), None);
}

#[test]
fn populate_sets_expired_entries_already_expired() {
    let mut storage = Storage::new();
    let parser = load_snapshot(&mut storage, hex(SAMPLE)).unwrap();
    assert_eq!(parser.rdb_version(), 10);
    assert_eq!(storage.get("baz"), None);
    assert_eq!(storage.get("foo"), Some("bar".to_string()));
}

#[test]
fn populate_failure_stores_nothing() {
    let mut storage = Storage::new();
    let mut bad = two_plain_entries();
    bad.truncate(20);
    assert_eq!(load_snapshot(&mut storage, bad).err(), Some(RdbError::Truncated));
    assert!(storage.keys("*").is_empty());
}
