use blockless_car::cid::{
    empty_pb_cid, pb_cid, raw_cid, Cid, BLAKE2B256_CODEC, DAG_CBOR, DAG_PB, RAW, SHA2_256,
};
use blockless_car::error::CarError;
use blockless_car::stream::ByteCursor;
use cid::multihash::{Code, MultihashDigest};

#[test]
fn raw_cid_matches_the_hash_of_the_bytes() {
    let c = raw_cid(b"hello");
    let expected = cid::Cid::new_v1(0x55, Code::Blake2b256.digest(b"hello"));
    assert_eq!(c.version(), 1);
    assert_eq!(c.codec(), RAW);
    assert_eq!(c.hash_code(), BLAKE2B256_CODEC);
    assert_eq!(c.digest().as_slice(), expected.hash().digest());
    assert_eq!(c.to_bytes(), expected.to_bytes());
}

#[test]
fn pb_cid_matches_the_hash_of_the_bytes() {
    let c = pb_cid(b"node");
    let expected = cid::Cid::new_v1(0x70, Code::Blake2b256.digest(b"node"));
    assert_eq!(c.codec(), DAG_PB);
    assert_eq!(c.to_bytes(), expected.to_bytes());
    assert_ne!(c, pb_cid(b"other"));
}

#[test]
fn empty_pb_cid_is_the_cid_of_no_bytes() {
    assert_eq!(empty_pb_cid(), pb_cid(&[]));
    assert_eq!(empty_pb_cid().to_bytes().len(), 38);
}

#[test]
fn cid_bytes_have_version_codec_hash() {
    let c = Cid::new_v1(DAG_CBOR, SHA2_256, vec![7u8; 32]).unwrap();
    let mut expected = vec![0x01, 0x71, 0x12, 0x20];
    expected.extend_from_slice(&[7u8; 32]);
    assert_eq!(c.to_bytes(), expected);
}

#[test]
fn cid_v0_bytes_are_the_hash_alone() {
    let c = Cid::new_v0(vec![9u8; 32]).unwrap();
    let mut expected = vec![0x12, 0x20];
    expected.extend_from_slice(&[9u8; 32]);
    assert_eq!(c.to_bytes(), expected);
    assert_eq!(c.version(), 0);
    assert_eq!(c.codec(), DAG_PB);
}

#[test]
fn new_v1_refuses_long_digests() {
    assert!(Cid::new_v1(RAW, 0, vec![0u8; 65]).is_none());
    assert!(Cid::new_v1(RAW, 0, vec![0u8; 64]).is_some());
    assert!(Cid::new_v0(vec![0u8; 31]).is_none());
}

#[test]
fn read_bytes_reads_back_what_to_bytes_wrote() {
    let c = raw_cid(b"abc");
    let mut bytes = c.to_bytes();
    bytes.extend_from_slice(b"tail");
    let mut stream = ByteCursor::new(bytes);
    let back = Cid::read_bytes(&mut stream).unwrap();
    assert_eq!(back, c);
    assert_eq!(stream.stream_position(), 38);
}

#[test]
fn read_bytes_reads_version_0() {
    let c = Cid::new_v0(vec![3u8; 32]).unwrap();
    let mut stream = ByteCursor::new(c.to_bytes());
    assert_eq!(Cid::read_bytes(&mut stream).unwrap(), c);
    assert_eq!(stream.stream_position(), 34);
}

#[test]
fn read_bytes_rejects_malformed_identifiers() {
    let mut stream = ByteCursor::new(vec![0x05, 0x55, 0x12, 0x00]);
    assert!(matches!(Cid::read_bytes(&mut stream), Err(CarError::Parsing(_))));
    let mut short = ByteCursor::new(vec![0x01, 0x55, 0x12, 0x20, 1, 2, 3]);
    assert!(matches!(Cid::read_bytes(&mut short), Err(CarError::Parsing(_))));
    let mut empty = ByteCursor::new(vec![]);
    assert!(matches!(Cid::read_bytes(&mut empty), Err(CarError::Parsing(_))));
}

#[test]
fn to_string_is_the_text_of_the_identifier() {
    let c = raw_cid(b"hello");
    let expected = cid::Cid::new_v1(0x55, Code::Blake2b256.digest(b"hello")).to_string();
    assert_eq!(c.to_string(), expected);
    assert!(c.to_string().starts_with('b'));
    let v0 = Cid::new_v0(vec![1u8; 32]).unwrap();
    assert!(v0.to_string().starts_with("Qm"));
}

#[test]
fn placeholder_has_no_digest() {
    let c = Cid::placeholder();
    assert_eq!(c.to_bytes(), vec![0x01, 0x00, 0x00, 0x00]);
}

#[test]
fn equality_is_by_parts() {
    let a = Cid::new_v1(RAW, SHA2_256, vec![1, 2, 3]).unwrap();
    let b = Cid::new_v1(RAW, SHA2_256, vec![1, 2, 3]).unwrap();
    let c = Cid::new_v1(RAW, SHA2_256, vec![1, 2, 4]).unwrap();
    let d = Cid::new_v1(DAG_PB, SHA2_256, vec![1, 2, 3]).unwrap();
    assert_eq!(a, b);
    assert_eq!(a.clone(), a);
    assert_ne!(a, c);
    assert_ne!(a, d);
}

#[test]
fn read_bytes_rejects_numbers_that_are_longer_than_needed() {
    let mut bytes = vec![0x81, 0x00, 0x55, 0x12, 0x20];
    bytes.extend_from_slice(&[0u8; 32]);
    let mut stream = ByteCursor::new(bytes);
    assert!(matches!(Cid::read_bytes(&mut stream), Err(CarError::Parsing(_))));
}

#[test]
fn read_bytes_reads_version_0_behind_its_version_and_codec() {
    let mut bytes = vec![0x00, 0x70, 0x12, 0x20];
    bytes.extend_from_slice(&[5u8; 32]);
    let mut stream = ByteCursor::new(bytes);
    assert_eq!(Cid::read_bytes(&mut stream).unwrap(), Cid::new_v0(vec![5u8; 32]).unwrap());
    assert_eq!(stream.stream_position(), 36);
    let mut odd = ByteCursor::new(vec![0x00, 0x70, 0x12, 0x03, 1, 2, 3]);
    let short = Cid::read_bytes(&mut odd).unwrap();
    assert_eq!(short.version(), 0);
    assert_eq!(short.digest().as_slice(), &[1, 2, 3]);
    assert_eq!(short.to_bytes(), vec![0x12, 0x03, 1, 2, 3]);
    let mut other = ByteCursor::new(vec![0x00, 0x55, 0x12, 0x03, 1, 2, 3]);
    assert!(matches!(Cid::read_bytes(&mut other), Err(CarError::Parsing(_))));
}

#[test]
fn read_bytes_takes_numbers_of_ten_bytes() {
    let mut bytes = vec![0x01];
    bytes.extend_from_slice(&[0xff; 9]);
    bytes.push(0x01);
    bytes.extend_from_slice(&[0x12, 0x01, 0xaa]);
    let mut stream = ByteCursor::new(bytes);
    let c = Cid::read_bytes(&mut stream).unwrap();
    assert_eq!(c.codec(), u64::MAX);
    assert_eq!(c.digest().as_slice(), &[0xaa]);
    let mut back = c.to_bytes();
    assert_eq!(back.len(), 14);
    back.push(0);
    assert_eq!(Cid::read_bytes(&mut ByteCursor::new(back)).unwrap(), c);
}

#[test]
fn matches_holds_bytes_against_the_digest() {
    let c = raw_cid(b"hello");
    assert!(c.matches(b"hello"));
    assert!(!c.matches(b"hellp"));
    let sha = Cid::new_v1(RAW, SHA2_256, Code::Sha2_256.digest(b"x").digest().to_vec()).unwrap();
    assert!(sha.matches(b"x"));
    assert!(!sha.matches(b"y"));
    let unknown = Cid::new_v1(RAW, 0x7777, vec![1, 2, 3]).unwrap();
    assert!(!unknown.matches(b"x"));
}
