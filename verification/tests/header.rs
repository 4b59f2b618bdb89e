use blockless_car::cid::{Cid, BLAKE2B256_CODEC, DAG_CBOR, RAW};
use blockless_car::error::CarError;
use blockless_car::header::{CarHeader, CarHeaderV1};
use cid::multihash::{Code, MultihashDigest};

fn cbor_cid(data: &[u8]) -> Cid {
    let digest = Code::Blake2b256.digest(data);
    Cid::new_v1(DAG_CBOR, BLAKE2B256_CODEC, digest.digest().to_vec()).unwrap()
}

#[test]
fn test_head_v1() {
    let cid = cbor_cid(b"test");
    let header = CarHeaderV1::new(vec![cid]);
    let bytes = CarHeader::V1(header.clone()).encode().unwrap();
    assert_eq!(CarHeader::decode(&bytes).unwrap(), CarHeader::V1(header));
}

#[test]
fn header_bytes_are_the_cbor_map_of_roots_and_version() {
    let cid = cbor_cid(b"test");
    let cid_bytes = cid.to_bytes();
    let bytes = CarHeader::new_v1(vec![cid]).encode().unwrap();
    let mut expected = vec![0xa2, 0x65];
    expected.extend_from_slice(b"roots");
    expected.extend_from_slice(&[0x81, 0xd8, 0x2a, 0x58, 0x27, 0x00]);
    expected.extend_from_slice(&cid_bytes);
    expected.push(0x67);
    expected.extend_from_slice(b"version");
    expected.push(0x01);
    assert_eq!(bytes, expected);
}

#[test]
fn header_with_two_roots_round_trips() {
    let header = CarHeader::new_v1(vec![cbor_cid(b"a"), cbor_cid(b"b")]);
    let bytes = header.encode().unwrap();
    let back = CarHeader::decode(&bytes).unwrap();
    assert_eq!(back, header);
    assert_eq!(back.roots(), vec![cbor_cid(b"a"), cbor_cid(b"b")]);
}

#[test]
fn decode_rejects_empty_roots_as_parsing() {
    let bytes = CarHeader::new_v1(vec![]).encode().unwrap();
    match CarHeader::decode(&bytes) {
        Err(CarError::Parsing(text)) => assert_eq!(text, "car roots is empty"),
        other => panic!("unexpected: {:?}", other),
    }
}

#[test]
fn decode_rejects_other_version_as_invalid_file() {
    let header = CarHeader::V1(CarHeaderV1 { roots: vec![cbor_cid(b"test")], version: 2 });
    let bytes = header.encode().unwrap();
    assert!(matches!(CarHeader::decode(&bytes), Err(CarError::InvalidFile(_))));
}

#[test]
fn decode_rejects_bytes_that_are_no_map() {
    assert!(matches!(CarHeader::decode(&[0x01]), Err(CarError::Parsing(_))));
    assert!(matches!(CarHeader::decode(&[]), Err(CarError::Parsing(_))));
}

#[test]
fn a_root_of_fewer_than_23_bytes_is_written_but_not_read_back() {
    let short = Cid::new_v1(RAW, 0, vec![1, 2, 3]).unwrap();
    assert_eq!(short.to_bytes().len(), 7);
    let bytes = CarHeader::new_v1(vec![short]).encode().unwrap();
    assert!(matches!(CarHeader::decode(&bytes), Err(CarError::Parsing(_))));
    let edge = Cid::new_v1(RAW, 0, vec![0; 19]).unwrap();
    assert_eq!(edge.to_bytes().len(), 23);
    let header = CarHeader::new_v1(vec![edge]);
    let bytes = header.encode().unwrap();
    assert_eq!(CarHeader::decode(&bytes).unwrap(), header);
    let below = Cid::new_v1(RAW, 0, vec![0; 18]).unwrap();
    let bytes = CarHeader::new_v1(vec![below]).encode().unwrap();
    assert!(CarHeader::decode(&bytes).is_err());
}
