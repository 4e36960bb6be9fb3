use splicer::config_provider::{parse_table, table, ConfigProvider};
use splicer::config_values::ConfigValues;
use splicer::wire_format::{
    deserialize_table, read_u32_le, serialize_table, ConfigTable, CAPACITY, LEN_PREFIX_BYTES,
    MAGIC_BYTES, MAGIC_LEN,
};

fn values(pairs: &[(&str, &str)]) -> ConfigValues {
    let mut values = ConfigValues::new();
    for (key, value) in pairs {
        values.insert(key.to_string(), value.to_string());
    }
    values
}

/// A full buffer around `payload`.
fn blob_of(payload: &[u8]) -> Vec<u8> {
    let mut blob = MAGIC_BYTES.to_vec();
    blob.extend_from_slice(&(payload.len() as u32).to_le_bytes());
    blob.extend_from_slice(payload);
    blob.resize(CAPACITY, 0xaa);
    blob
}

fn lookup(table: &ConfigTable, key: &str) -> Option<String> {
    table.get(key).cloned()
}

#[test]
fn the_sentinel_is_a_wrapped_tag() {
    assert_eq!(&MAGIC_BYTES, b"\x00\xefSPLICER_BUILTIN_CONFIG_V1\xef\x00");
    assert_eq!(MAGIC_BYTES.len(), MAGIC_LEN);
    assert_eq!(CAPACITY, 16384);
    assert_eq!(LEN_PREFIX_BYTES, 4);
}

#[test]
fn tables_have_the_documented_bytes() {
    let payload = serialize_table(&values(&[("b", "yes"), ("a", "ü")]));
    assert_eq!(
        payload,
        b"\x02\0\0\0\x01\0\0\0a\x02\0\0\0\xc3\xbc\x01\0\0\0b\x03\0\0\0yes"
    );
    assert_eq!(serialize_table(&ConfigValues::new()), [0, 0, 0, 0]);
}

#[test]
fn insertion_order_leaves_no_trace() {
    let one = values(&[("greeting", "hi"), ("Zeta", "1"), ("green", "2"), ("é", "3")]);
    let other = values(&[
        ("é", "3"),
        ("green", "old"),
        ("Zeta", "1"),
        ("greeting", "hi"),
        ("green", "2"),
    ]);
    assert_eq!(one.len(), 4);
    assert_eq!(serialize_table(&one), serialize_table(&other));
    let keys: Vec<&str> = (0..one.len()).map(|i| one.entry(i).0).collect();
    assert_eq!(keys, ["Zeta", "green", "greeting", "é"]);
}

#[test]
fn a_key_sorts_before_its_extensions() {
    let v = values(&[("ab", "2"), ("a", "1"), ("", "0"), ("abc", "3")]);
    let keys: Vec<&str> = (0..v.len()).map(|i| v.entry(i).0).collect();
    assert_eq!(keys, ["", "a", "ab", "abc"]);
}

#[test]
fn tables_round_trip() {
    let payload = serialize_table(&values(&[("greeting", "hello"), ("empty", ""), ("", "ø")]));
    let table = deserialize_table(&payload);
    assert_eq!(table.len(), 3);
    assert_eq!(lookup(&table, "greeting").as_deref(), Some("hello"));
    assert_eq!(lookup(&table, "empty").as_deref(), Some(""));
    assert_eq!(lookup(&table, "").as_deref(), Some("ø"));
    assert_eq!(lookup(&table, "other"), None);
}

#[test]
fn bytes_after_the_table_do_not_matter() {
    let mut payload = serialize_table(&values(&[("k", "v")]));
    payload.extend_from_slice(b"\xff\xff\xff\xff\xff");
    let table = deserialize_table(&payload);
    assert_eq!(table.len(), 1);
    assert_eq!(lookup(&table, "k").as_deref(), Some("v"));
}

#[test]
fn the_later_of_two_equal_keys_wins() {
    let payload = b"\x02\0\0\0\x01\0\0\0k\x01\0\0\0a\x01\0\0\0k\x01\0\0\0b";
    let table = deserialize_table(payload);
    assert_eq!(table.len(), 1);
    assert_eq!(lookup(&table, "k").as_deref(), Some("b"));
}

#[test]
fn a_table_cut_off_anywhere_is_empty() {
    let payload = serialize_table(&values(&[("a", "1"), ("b", "2")]));
    for end in 0..payload.len() {
        assert_eq!(deserialize_table(&payload[..end]).len(), 0, "cut at {end}");
    }
}

#[test]
fn malformed_framing_gives_an_empty_table() {
    // A key length that reaches past the end, after a sound entry.
    let bad_length = b"\x02\0\0\0\x01\0\0\0a\x01\0\0\x001\xff\xff\xff\xffb\x01\0\0\x002";
    assert_eq!(deserialize_table(bad_length).len(), 0);
    // A key, and a value, that are not utf-8, after a sound entry.
    let bad_key = b"\x02\0\0\0\x01\0\0\0a\x01\0\0\x001\x01\0\0\0\xff\x01\0\0\x002";
    assert_eq!(deserialize_table(bad_key).len(), 0);
    let bad_value = b"\x02\0\0\0\x01\0\0\0a\x01\0\0\x001\x01\0\0\0b\x01\0\0\0\xff";
    assert_eq!(deserialize_table(bad_value).len(), 0);
    // Fewer entries than counted.
    let bad_count = b"\x03\0\0\0\x01\0\0\0a\x01\0\0\x001";
    assert_eq!(deserialize_table(bad_count).len(), 0);
    assert_eq!(deserialize_table(b"").len(), 0);
}

#[test]
fn words_are_read_within_bounds() {
    let buf = [0xaa, 1, 2, 3, 4];
    assert_eq!(read_u32_le(&buf, 1), Some(0x0403_0201));
    assert_eq!(read_u32_le(&buf, 2), None);
    assert_eq!(read_u32_le(&buf, 5), None);
    assert_eq!(read_u32_le(&buf, usize::MAX), None);
    assert_eq!(read_u32_le(&[], 0), None);
}

#[test]
fn an_unpatched_blob_serves_nothing() {
    let blob = blob_of(b"");
    let mut cached = None;
    assert_eq!(ConfigProvider::get(&mut cached, &blob, "greeting".to_string()), None);
    assert!(cached.is_some());
    assert_eq!(parse_table(&blob).len(), 0);
}

#[test]
fn a_patched_blob_serves_its_values() {
    let blob = blob_of(&serialize_table(&values(&[("greeting", "wired-up-greeting")])));
    let mut cached = None;
    let get = |cached: &mut Option<ConfigTable>, key: &str| {
        ConfigProvider::get(cached, &blob, key.to_string())
    };
    assert_eq!(get(&mut cached, "greeting").as_deref(), Some("wired-up-greeting"));
    assert_eq!(get(&mut cached, "other"), None);
    assert_eq!(get(&mut cached, "greeting").as_deref(), Some("wired-up-greeting"));
}

#[test]
fn the_table_is_parsed_once() {
    let first = blob_of(&serialize_table(&values(&[("k", "first")])));
    let second = blob_of(&serialize_table(&values(&[("k", "second")])));
    let mut cached = None;
    assert_eq!(table(&mut cached, &first).len(), 1);
    assert_eq!(
        ConfigProvider::get(&mut cached, &second, "k".to_string()).as_deref(),
        Some("first")
    );
}

#[test]
fn a_length_header_past_the_end_means_no_table() {
    let mut blob = blob_of(&serialize_table(&values(&[("k", "v")])));
    let header = MAGIC_LEN..MAGIC_LEN + LEN_PREFIX_BYTES;
    let room = (CAPACITY - MAGIC_LEN - LEN_PREFIX_BYTES) as u32;
    blob[header.clone()].copy_from_slice(&room.to_le_bytes());
    assert_eq!(parse_table(&blob).len(), 1);
    blob[header.clone()].copy_from_slice(&(room + 1).to_le_bytes());
    assert_eq!(parse_table(&blob).len(), 0);
    blob[header].copy_from_slice(&u32::MAX.to_le_bytes());
    assert_eq!(parse_table(&blob).len(), 0);
    assert_eq!(parse_table(&blob[..MAGIC_LEN]).len(), 0);
}
