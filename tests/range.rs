use lmdb_kv::codec::{encode_value, FormatError, Value};
use lmdb_kv::range::{
    key_less, range_output, read_batch, request_is_empty, BatchError, Entry, RangeRequest,
    RawEntry, ReadError,
};

fn raw(key: &str, v: u64) -> RawEntry {
    RawEntry { key: key.as_bytes().to_vec(), value: encode_value(&Value::Unsigned64(v)) }
}

fn req(start: &str, end: &str, reverse: bool) -> RangeRequest {
    RangeRequest { start: start.as_bytes().to_vec(), end: end.as_bytes().to_vec(), reverse }
}

fn keys(entries: &[Entry]) -> Vec<Vec<u8>> {
    entries.iter().map(|e| e.key.clone()).collect()
}

#[test]
fn byte_order_is_lexicographic() {
    assert!(key_less(b"a", b"b"));
    assert!(key_less(b"a", b"ab"));
    assert!(key_less(b"", b"a"));
    assert!(!key_less(b"b", b"ab"));
    assert!(!key_less(b"ab", b"ab"));
    assert!(key_less(&[0x7f], &[0x80]));
}

#[test]
fn forward_range_b_to_d() {
    let out = range_output(&req("b", "d", false), &vec![raw("b", 2), raw("c", 3)]).unwrap();
    assert_eq!(keys(&out), vec![b"b".to_vec(), b"c".to_vec()]);
    assert_eq!(out[0].value, Value::Unsigned64(2));
    assert_eq!(out[1].value, Value::Unsigned64(3));
    assert_eq!(out[0].versionstamp, vec![0u8; 10]);
}

#[test]
fn reverse_range_b_to_d() {
    let out = range_output(&req("b", "d", true), &vec![raw("c", 3), raw("b", 2)]).unwrap();
    assert_eq!(keys(&out), vec![b"c".to_vec(), b"b".to_vec()]);
}

#[test]
fn key_outside_the_range_is_refused() {
    let r = range_output(&req("b", "d", false), &vec![raw("b", 2), raw("d", 4)]);
    assert_eq!(r, Err(ReadError::OutOfRange { index: 1 }));
    let r = range_output(&req("b", "d", false), &vec![raw("a", 1)]);
    assert_eq!(r, Err(ReadError::OutOfRange { index: 0 }));
}

#[test]
fn scan_in_the_wrong_direction_is_refused() {
    let r = range_output(&req("b", "d", false), &vec![raw("c", 3), raw("b", 2)]);
    assert_eq!(r, Err(ReadError::OutOfOrder { index: 1 }));
    let r = range_output(&req("b", "d", true), &vec![raw("b", 2), raw("c", 3)]);
    assert_eq!(r, Err(ReadError::OutOfOrder { index: 1 }));
}

#[test]
fn malformed_value_fails_the_read() {
    let bad = RawEntry { key: b"c".to_vec(), value: vec![0, 1, 2, 3] };
    let r = range_output(&req("b", "d", false), &vec![raw("b", 2), bad]);
    assert_eq!(r, Err(ReadError::Format { index: 1, error: FormatError::BadU64Width(3) }));
}

#[test]
fn empty_range_yields_nothing() {
    let r = req("b", "b", false);
    assert!(request_is_empty(&r));
    assert!(!request_is_empty(&req("b", "c", false)));
    let out = range_output(&r, &vec![raw("a", 1), raw("b", 2), raw("c", 3)]).unwrap();
    assert!(out.is_empty());
    let out = range_output(&req("d", "b", true), &vec![raw("c", 3)]).unwrap();
    assert!(out.is_empty());
}

#[test]
fn batch_keeps_request_order() {
    let requests = vec![req("b", "d", false), req("a", "b", true), req("c", "c", false)];
    let scans = vec![vec![raw("b", 2), raw("c", 3)], vec![raw("a", 1)], vec![]];
    let out = read_batch(&requests, &scans).unwrap();
    assert_eq!(out.len(), 3);
    assert_eq!(keys(&out[0]), vec![b"b".to_vec(), b"c".to_vec()]);
    assert_eq!(keys(&out[1]), vec![b"a".to_vec()]);
    assert!(out[2].is_empty());
}

#[test]
fn batch_reports_the_failing_request() {
    let requests = vec![req("a", "b", false), req("b", "d", false)];
    let bad = RawEntry { key: b"c".to_vec(), value: vec![] };
    let scans = vec![vec![raw("a", 1)], vec![raw("b", 2), bad]];
    let r = read_batch(&requests, &scans);
    assert_eq!(
        r,
        Err(BatchError { request: 1, error: ReadError::Format { index: 1, error: FormatError::Empty } })
    );
}
