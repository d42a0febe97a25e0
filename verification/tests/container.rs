use yomikata::framing::decode_records;

fn record(title: &str, body: &str) -> Vec<u8> {
    let mut out = Vec::new();
    out.extend_from_slice(&(title.len() as u64).to_le_bytes());
    out.extend_from_slice(title.as_bytes());
    out.extend_from_slice(&(body.len() as u64).to_le_bytes());
    out.extend_from_slice(body.as_bytes());
    out
}

#[test]
fn decode_two_records() {
    let mut bytes = record("alpha", "body one");
    bytes.extend(record("beta", ""));
    let records = decode_records(&bytes);
    assert_eq!(records.len(), 2);
    assert_eq!(records[0].0, b"alpha".to_vec());
    assert_eq!(records[0].1, b"body one".to_vec());
    assert_eq!(records[1].0, b"beta".to_vec());
    assert_eq!(records[1].1, b"".to_vec());
}

#[test]
fn decode_empty_input() {
    assert!(decode_records(&Vec::new()).is_empty());
}

#[test]
fn decode_drops_truncated_trailing_record() {
    let mut bytes = record("alpha", "body");
    let mut partial = record("beta", "more");
    partial.truncate(partial.len() - 2);
    bytes.extend(partial);
    let records = decode_records(&bytes);
    assert_eq!(records.len(), 1);
    assert_eq!(records[0].0, b"alpha".to_vec());
}

#[test]
fn decode_stops_at_oversized_length() {
    let mut bytes = Vec::new();
    bytes.extend_from_slice(&u64::MAX.to_le_bytes());
    bytes.extend_from_slice(b"xyz");
    assert!(decode_records(&bytes).is_empty());
}
