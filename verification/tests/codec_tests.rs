use std::str::FromStr;

use persisted_dht::DecodeError;
use persisted_dht::DiscoveryRecord;
use persisted_dht::codec::decode;
use persisted_dht::codec::encode;

type Enr = enr::Enr<enr::k256::ecdsa::SigningKey>;

const FIXTURE: &str = "enr:-IS4QHCYrYZbAKWCBRlAy5zzaDZXJBGkcnh4MHcBFZntXNFrdvJjX04jRzjzCBOonrkTfj499SZuOh8R33Ls8RRcy5wBgmlkgnY0gmlwhH8AAAGJc2VjcDI1NmsxoQPKY0yuDUmstAHYpMa2_oxVtw0RW_QAdpzBQA8yWM0xOIN1ZHCCdl8";

fn rec(bytes: Vec<u8>) -> DiscoveryRecord {
    DiscoveryRecord::from_bytes(bytes).expect("well-formed RLP item")
}

#[test]
fn test_encode_empty_is_minimal() {
    let empty: Vec<DiscoveryRecord> = Vec::new();
    assert_eq!(encode(&empty), vec![0xc0]);
}

#[test]
fn test_decode_empty_inputs() {
    assert_eq!(decode(&[]).unwrap(), Vec::new());
    assert_eq!(decode(&[0xc0]).unwrap(), Vec::new());
}

#[test]
fn test_round_trip_one_record() {
    let records = vec![rec(vec![0x01])];
    let blob = encode(&records);
    assert_eq!(blob, vec![0xc1, 0x01]);
    assert_eq!(decode(&blob).unwrap(), records);
}

#[test]
fn test_round_trip_two_records() {
    let records = vec![rec(vec![0x01]), rec(vec![0x82, 0xab, 0xcd])];
    let blob = encode(&records);
    assert_eq!(blob, vec![0xc4, 0x01, 0x82, 0xab, 0xcd]);
    assert_eq!(decode(&blob).unwrap(), records);
}

#[test]
fn test_round_trip_many_records_long_header() {
    let mut records = Vec::new();
    for _ in 0..60 {
        records.push(rec(vec![0x07]));
    }
    let blob = encode(&records);
    // 60 one-byte items force the long list form: 0xf8, then the
    // payload length 60, then the payload itself.
    assert_eq!(blob[0], 0xf8);
    assert_eq!(blob[1], 60);
    assert_eq!(blob.len(), 62);
    assert_eq!(decode(&blob).unwrap(), records);
}

#[test]
fn test_round_trip_real_discovery_record() {
    let enr = Enr::from_str(FIXTURE).unwrap();
    let record = rec(alloy_rlp::encode(&enr));
    let records = vec![record.clone()];
    let blob = encode(&records);
    let decoded = decode(&blob).unwrap();
    assert_eq!(decoded, records);
    let roundtripped: Enr =
        alloy_rlp::Decodable::decode(&mut decoded[0].bytes().as_slice()).unwrap();
    assert_eq!(roundtripped, enr);
}

#[test]
fn test_from_bytes_rejects_malformed_items() {
    assert!(DiscoveryRecord::from_bytes(vec![]).is_none());
    // Trailing byte after a complete item.
    assert!(DiscoveryRecord::from_bytes(vec![0x01, 0x02]).is_none());
    // A one-byte string below 0x80 must be inlined.
    assert!(DiscoveryRecord::from_bytes(vec![0x81, 0x05]).is_none());
    // Truncated string payload.
    assert!(DiscoveryRecord::from_bytes(vec![0x83, 0x01]).is_none());
}

#[test]
fn test_decode_rejects_string_input() {
    assert_eq!(decode(&[0x42]).unwrap_err(), DecodeError::UnexpectedString);
    assert_eq!(decode(&[0x00]).unwrap_err(), DecodeError::UnexpectedString);
}

#[test]
fn test_decode_rejects_truncated_list() {
    assert_eq!(decode(&[0xc2, 0x01]).unwrap_err(), DecodeError::InputTooShort);
}

#[test]
fn test_decode_rejects_trailing_bytes() {
    assert_eq!(decode(&[0xc0, 0x00]).unwrap_err(), DecodeError::UnexpectedLength);
}

#[test]
fn test_decode_rejects_non_canonical_item() {
    assert_eq!(
        decode(&[0xc2, 0x81, 0x05]).unwrap_err(),
        DecodeError::NonCanonicalSingleByte
    );
}

#[test]
fn test_decode_rejects_non_canonical_list_size() {
    assert_eq!(
        decode(&[0xf8, 0x01, 0x00]).unwrap_err(),
        DecodeError::NonCanonicalSize
    );
}

#[test]
fn test_decode_rejects_leading_zero_size() {
    let mut blob = vec![0xf9, 0x00, 0x38];
    for _ in 0..56 {
        blob.push(0x01);
    }
    assert_eq!(decode(&blob).unwrap_err(), DecodeError::LeadingZero);
}

#[test]
fn test_decode_rejects_corrupted_record_blob() {
    let enr = Enr::from_str(FIXTURE).unwrap();
    let records = vec![rec(alloy_rlp::encode(&enr))];
    let blob = encode(&records);
    // Truncating anywhere inside the list leaves a malformed blob.
    let truncated = &blob[..blob.len() - 1];
    assert!(decode(truncated).is_err());
}

#[test]
fn test_decode_error_description() {
    let err = decode(&[0x42]).unwrap_err();
    assert_eq!(err.describe(), "expected a list, got a string");
}
