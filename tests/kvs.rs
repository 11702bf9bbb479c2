use kvs::{decode, encode, Command, KvError, KvStore, LogFile, COMPACT_THRESHOLD};

fn text(bytes: &[u8]) -> String {
    String::from_utf8(bytes.to_vec()).expect("convert string failed")
}

#[test]
fn test_serialize() {
    let set_cmd = Command::Put("key".to_string(), "value".to_string());
    let rm_cmd = Command::Rm("key".to_string());
    let json_data = text(&encode(&set_cmd));
    assert_eq!(json_data, r#"{"cmd":"Set","params":["key","value"]}"#);
    let json_data = text(&encode(&rm_cmd));
    assert_eq!(json_data, r#"{"cmd":"Rm","params":"key"}"#);
}

#[test]
fn test_read_until() {
    let mut data = b"{\"cmd\":\"Set\",\"params\":[\"key\",\"value\"]}".to_vec();
    data.push(b'\n');
    data.extend_from_slice(b"{\"cmd\":\"Set\",\"params\":[\"key2\",\"value2\"]}");
    data.push(b'\n');
    data.extend_from_slice(b"{\"cmd\":\"Rm\",\"params\":\"key\"}");
    let mut log_file = LogFile::from_bytes(data);
    let buf = log_file.read_until(b'\n');
    let n = buf.len();
    assert_eq!(n, 39);
    assert_eq!(
        "{\"cmd\":\"Set\",\"params\":[\"key\",\"value\"]}\n",
        text(&buf[0..n])
    );

    let buf = log_file.read_until(b'\n');
    let n = buf.len();
    assert_eq!(n, 41);
    assert_eq!(
        "{\"cmd\":\"Set\",\"params\":[\"key2\",\"value2\"]}\n",
        text(&buf[0..n])
    );
}

#[test]
fn read_until_last_record_has_no_delimiter() {
    let mut log_file = LogFile::from_bytes(b"ab\ncd".to_vec());
    assert_eq!(log_file.read_until(b'\n'), b"ab\n".to_vec());
    assert_eq!(log_file.current_offset(), 3);
    assert_eq!(log_file.read_until(b'\n'), b"cd".to_vec());
    assert_eq!(log_file.read_until(b'\n'), Vec::<u8>::new());
}

#[test]
fn read_until_delimiter_on_chunk_boundary() {
    let mut log_file = LogFile::from_bytes(b"abcdefgh\nijklmnop\nq".to_vec());
    assert_eq!(log_file.read_until(b'\n'), b"abcdefgh\n".to_vec());
    assert_eq!(log_file.read_until(b'\n'), b"ijklmnop\n".to_vec());
    assert_eq!(log_file.read_until(b'\n'), b"q".to_vec());
    assert_eq!(log_file.read_from(9, b'\n'), b"ijklmnop\n".to_vec());

    let mut log_file = LogFile::from_bytes(b"abcdefg\nxyz".to_vec());
    assert_eq!(log_file.read_until(b'\n'), b"abcdefg\n".to_vec());
    assert_eq!(log_file.current_offset(), 8);
    assert_eq!(log_file.read_until(b'\n'), b"xyz".to_vec());
}

#[test]
fn append_writes_delimiter_only_between_records() {
    let mut log_file = LogFile::new();
    assert_eq!(log_file.append(b"one"), 3);
    assert_eq!(log_file.current_offset(), 3);
    assert_eq!(log_file.append(b"two"), 4);
    assert_eq!(log_file.as_bytes(), b"one\ntwo");
    assert_eq!(log_file.current_offset() - 3, 4);
    assert_eq!(log_file.read_from(4, b'\n'), b"two".to_vec());
}

#[test]
fn log_compact_keeps_retained_records_in_order() {
    let mut log_file = LogFile::from_bytes(b"aa\nbbb\ncc\ndddd".to_vec());
    let offs = log_file.compact(&vec![3, 10]).expect("compact failed");
    assert_eq!(offs, vec![0, 4]);
    assert_eq!(log_file.as_bytes(), b"bbb\ndddd");
}

#[test]
fn scenario_set_get_remove() {
    let mut store = KvStore::open(Vec::new()).unwrap();
    assert_eq!(store.set("key".to_owned(), "value".to_owned()), Ok(()));
    assert_eq!(store.get("key".to_owned()), Ok(Some("value".to_owned())));
    assert_eq!(store.remove("key".to_owned()), Ok(()));
    assert_eq!(store.get("key".to_owned()), Ok(None));
    let before = store.log_bytes().to_vec();
    let err = store.remove("key".to_owned()).unwrap_err();
    assert_eq!(err, KvError::KeyNotFound);
    assert_eq!(err.message(), "Key not found");
    assert_eq!(store.log_bytes(), &before[..]);
}

#[test]
fn get_after_set() {
    let mut store = KvStore::open(Vec::new()).unwrap();
    store.set("a".to_owned(), "1".to_owned()).unwrap();
    store.set("b".to_owned(), "2".to_owned()).unwrap();
    assert_eq!(store.get("a".to_owned()), Ok(Some("1".to_owned())));
    assert_eq!(store.get("b".to_owned()), Ok(Some("2".to_owned())));
    assert_eq!(store.get("c".to_owned()), Ok(None));
}

#[test]
fn overwrite_keeps_latest_value() {
    let mut store = KvStore::open(Vec::new()).unwrap();
    store.set("k".to_owned(), "v1".to_owned()).unwrap();
    store.set("k".to_owned(), "v2".to_owned()).unwrap();
    assert_eq!(store.get("k".to_owned()), Ok(Some("v2".to_owned())));
    assert_eq!(
        store.log_bytes(),
        &b"{\"cmd\":\"Set\",\"params\":[\"k\",\"v1\"]}\n{\"cmd\":\"Set\",\"params\":[\"k\",\"v2\"]}"[..]
    );
}

#[test]
fn reopen_restores_contents() {
    let mut store = KvStore::open(Vec::new()).unwrap();
    store.set("k1".to_owned(), "v1".to_owned()).unwrap();
    store.set("k2".to_owned(), "v2".to_owned()).unwrap();
    store.set("k1".to_owned(), "v3".to_owned()).unwrap();
    store.remove("k2".to_owned()).unwrap();
    let bytes = store.log_bytes().to_vec();
    let mut again = KvStore::open(bytes).unwrap();
    assert_eq!(again.get("k1".to_owned()), Ok(Some("v3".to_owned())));
    assert_eq!(again.get("k2".to_owned()), Ok(None));
    assert_eq!(again.remove("k2".to_owned()), Err(KvError::KeyNotFound));
}

#[test]
fn open_skips_blank_lines_and_trailing_delimiter() {
    let data = b"{\"cmd\":\"Set\",\"params\":[\"a\",\"1\"]}\n\n{\"cmd\":\"Set\",\"params\":[\"b\",\"2\"]}\n".to_vec();
    let mut store = KvStore::open(data).unwrap();
    assert_eq!(store.get("a".to_owned()), Ok(Some("1".to_owned())));
    assert_eq!(store.get("b".to_owned()), Ok(Some("2".to_owned())));
}

#[test]
fn open_rejects_undecodable_record() {
    let data = b"{\"cmd\":\"Set\",\"params\":[\"a\",\"1\"]}\nnot a record".to_vec();
    assert_eq!(KvStore::open(data).err(), Some(KvError::Decode));
}

#[test]
fn open_rejects_remove_without_set() {
    let data = b"{\"cmd\":\"Rm\",\"params\":\"a\"}".to_vec();
    assert_eq!(KvStore::open(data).err(), Some(KvError::Corrupt));
}

#[test]
fn values_with_special_bytes_round_trip() {
    let value = "quote \" backslash \\ newline \n tab \t cr \r bell \u{7} nul \u{0} é ✓".to_owned();
    let mut store = KvStore::open(Vec::new()).unwrap();
    store.set("odd key\n".to_owned(), value.clone()).unwrap();
    assert!(!store.log_bytes().contains(&b'\n'));
    assert_eq!(store.get("odd key\n".to_owned()), Ok(Some(value.clone())));
    let mut again = KvStore::open(store.log_bytes().to_vec()).unwrap();
    assert_eq!(again.get("odd key\n".to_owned()), Ok(Some(value)));
}

#[test]
fn records_are_json() {
    let value = "a \"b\" \\ c\n\u{1} é".to_owned();
    let rec = encode(&Command::Put("k".to_owned(), value.clone()));
    let json: serde_json::Value = serde_json::from_slice(&rec).unwrap();
    assert_eq!(json["cmd"], serde_json::Value::String("Set".to_owned()));
    assert_eq!(json["params"][0], serde_json::Value::String("k".to_owned()));
    assert_eq!(json["params"][1], serde_json::Value::String(value.clone()));
    let expected = format!(
        "{{\"cmd\":\"Set\",\"params\":[{},{}]}}",
        serde_json::to_string("k").unwrap(),
        serde_json::to_string(&value).unwrap()
    );
    assert_eq!(text(&rec), expected);
}

#[test]
fn decode_accepts_json_escapes() {
    let rec = br#"{"cmd":"Set","params":["a\/b","xA\u000a\"y"]}"#;
    assert_eq!(
        decode(rec),
        Some(Command::Put("a/b".to_owned(), "xA\n\"y".to_owned()))
    );
    assert_eq!(decode(br#"{"cmd":"Rm","params":"a"}"#), Some(Command::Rm("a".to_owned())));
    assert_eq!(decode(br#"{"cmd":"Rm","params":"a"} "#), None);
    assert_eq!(decode(br#"{"cmd":"Rm","params":"a\q"}"#), None);
    assert_eq!(decode(b""), None);
}

#[test]
fn compaction_preserves_contents() {
    let mut store = KvStore::open(Vec::new()).unwrap();
    let big = "x".repeat(100_000);
    store.set("keep".to_owned(), "kept".to_owned()).unwrap();
    store.set("gone".to_owned(), "soon".to_owned()).unwrap();
    store.remove("gone".to_owned()).unwrap();
    let mut n = 0;
    while store.rewrites() == 0 {
        store.set("big".to_owned(), format!("{}{}", big, n)).unwrap();
        n += 1;
        assert!(n < 1000);
    }
    assert!(store.log_bytes().len() < COMPACT_THRESHOLD);
    assert!(store.log_bytes().len() < 2 * 100_100);
    assert_eq!(store.get("keep".to_owned()), Ok(Some("kept".to_owned())));
    assert_eq!(store.get("gone".to_owned()), Ok(None));
    assert_eq!(store.get("big".to_owned()), Ok(Some(format!("{}{}", big, n - 1))));
    store.set("after".to_owned(), "works".to_owned()).unwrap();
    assert_eq!(store.get("after".to_owned()), Ok(Some("works".to_owned())));
    assert_eq!(store.remove("keep".to_owned()), Ok(()));
    assert_eq!(store.get("keep".to_owned()), Ok(None));
    let mut again = KvStore::open(store.log_bytes().to_vec()).unwrap();
    assert_eq!(again.get("after".to_owned()), Ok(Some("works".to_owned())));
    assert_eq!(again.get("big".to_owned()), Ok(Some(format!("{}{}", big, n - 1))));
}

#[test]
fn explicit_compaction_shrinks_log_with_dead_records() {
    let mut store = KvStore::open(Vec::new()).unwrap();
    store.set("a".to_owned(), "1".to_owned()).unwrap();
    store.set("a".to_owned(), "2".to_owned()).unwrap();
    store.set("b".to_owned(), "3".to_owned()).unwrap();
    store.remove("b".to_owned()).unwrap();
    let before = store.log_bytes().len();
    let bytes = store.log_bytes().to_vec();
    assert!(!store.log_compact());
    assert_eq!(store.rewrites(), 0);
    assert_eq!(store.log_bytes(), &bytes[..]);
    assert!(store.compact());
    assert_eq!(store.rewrites(), 1);
    assert!(store.log_bytes().len() < before);
    assert_eq!(store.log_bytes(), &b"{\"cmd\":\"Set\",\"params\":[\"a\",\"2\"]}"[..]);
    assert_eq!(store.get("a".to_owned()), Ok(Some("2".to_owned())));
    assert_eq!(store.get("b".to_owned()), Ok(None));
}

#[test]
fn compacting_twice_changes_nothing() {
    let mut store = KvStore::open(Vec::new()).unwrap();
    store.set("a".to_owned(), "1".to_owned()).unwrap();
    store.set("b".to_owned(), "2".to_owned()).unwrap();
    store.set("a".to_owned(), "3".to_owned()).unwrap();
    assert!(store.compact());
    let once = store.log_bytes().to_vec();
    assert!(store.compact());
    assert_eq!(store.log_bytes(), &once[..]);
    assert_eq!(store.get("a".to_owned()), Ok(Some("3".to_owned())));
    assert_eq!(store.get("b".to_owned()), Ok(Some("2".to_owned())));
}

#[test]
fn error_messages() {
    assert_eq!(KvError::KeyNotFound.message(), "Key not found");
    assert_eq!(KvError::Decode.message(), "log record does not decode");
    assert_eq!(KvError::Corrupt.message(), "log removes a key that was never set");
    assert_eq!(KvError::TooLarge.message(), "log too large");
}
