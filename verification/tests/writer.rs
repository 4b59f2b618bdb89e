use blockless_car::cid::{Cid, BLAKE2B256_CODEC, DAG_CBOR};
use blockless_car::error::CarError;
use blockless_car::header::{CarHeader, CarHeaderV1};
use blockless_car::reader::CarReaderV1;
use blockless_car::stream::ByteCursor;
use blockless_car::writer::CarWriterV1;
use cid::multihash::{Code, MultihashDigest};

fn cbor_cid(data: &[u8]) -> Cid {
    let digest = Code::Blake2b256.digest(data);
    Cid::new_v1(DAG_CBOR, BLAKE2B256_CODEC, digest.digest().to_vec()).unwrap()
}

#[test]
fn test_writer_read_v1() {
    let cid_test1 = cbor_cid(b"test");
    let cid_test2 = cbor_cid(b"test2");
    let header = CarHeader::V1(CarHeaderV1::new(vec![cid_test2.clone()]));
    let mut writer = CarWriterV1::new(ByteCursor::new(Vec::new()), header);
    writer.write(cid_test1, b"test1").unwrap();
    writer.write(cid_test2.clone(), b"test2").unwrap();
    writer.flush().unwrap();
    let buffer = writer.into_inner().into_inner();
    let car_reader = CarReaderV1::new(ByteCursor::new(buffer)).unwrap();
    assert_eq!(vec![cid_test2], car_reader.header().roots());
    assert_eq!(car_reader.sections().len(), 2);
}

#[test]
fn written_section_reads_back() {
    let cid = cbor_cid(b"payload");
    let header = CarHeader::new_v1(vec![cid.clone()]);
    let mut writer = CarWriterV1::new(ByteCursor::new(Vec::new()), header);
    writer.write(cid.clone(), b"payload").unwrap();
    let buffer = writer.into_inner().into_inner();
    let mut reader = CarReaderV1::new(ByteCursor::new(buffer)).unwrap();
    assert_eq!(reader.read_section_data(&cid).unwrap(), b"payload".to_vec());
}

#[test]
fn section_layout_is_length_identifier_block() {
    let cid = cbor_cid(b"x");
    let header = CarHeader::new_v1(vec![cid.clone()]);
    let head = header.encode().unwrap();
    let mut writer = CarWriterV1::new(ByteCursor::new(Vec::new()), header);
    writer.write(cid.clone(), &[1, 2, 3]).unwrap();
    let buffer = writer.into_inner().into_inner();
    let mut expected = vec![head.len() as u8];
    expected.extend_from_slice(&head);
    expected.push(38 + 3);
    expected.extend_from_slice(&cid.to_bytes());
    expected.extend_from_slice(&[1, 2, 3]);
    assert_eq!(cid.to_bytes().len(), 38);
    assert_eq!(buffer, expected);
}

#[test]
fn unknown_cid_is_invalid_section() {
    let cid = cbor_cid(b"present");
    let header = CarHeader::new_v1(vec![cid.clone()]);
    let mut writer = CarWriterV1::new(ByteCursor::new(Vec::new()), header);
    writer.write(cid, b"present").unwrap();
    let buffer = writer.into_inner().into_inner();
    let mut reader = CarReaderV1::new(ByteCursor::new(buffer)).unwrap();
    match reader.read_section_data(&cbor_cid(b"absent")) {
        Err(CarError::InvalidSection(text)) => assert_eq!(text, "cid not exist"),
        other => panic!("unexpected: {:?}", other),
    }
}

#[test]
fn rewrite_header_needs_the_same_number_of_roots() {
    let a = cbor_cid(b"a");
    let b = cbor_cid(b"b");
    let mut writer = CarWriterV1::new(ByteCursor::new(Vec::new()), CarHeader::new_v1(vec![a.clone()]));
    writer.write(a.clone(), b"a").unwrap();
    let two = CarHeader::new_v1(vec![a.clone(), b.clone()]);
    assert!(matches!(writer.rewrite_header(two), Err(CarError::InvalidSection(_))));
    writer.rewrite_header(CarHeader::new_v1(vec![b.clone()])).unwrap();
    let buffer = writer.into_inner().into_inner();
    let mut reader = CarReaderV1::new(ByteCursor::new(buffer)).unwrap();
    assert_eq!(reader.header().roots(), vec![b]);
    assert_eq!(reader.read_section_data(&a).unwrap(), b"a".to_vec());
}

#[test]
fn later_section_wins_for_a_repeated_identifier() {
    let a = cbor_cid(b"a");
    let mut writer = CarWriterV1::new(ByteCursor::new(Vec::new()), CarHeader::new_v1(vec![a.clone()]));
    writer.write(a.clone(), b"first").unwrap();
    writer.write(a.clone(), b"second").unwrap();
    let buffer = writer.into_inner().into_inner();
    let mut reader = CarReaderV1::new(ByteCursor::new(buffer)).unwrap();
    assert_eq!(reader.sections().len(), 1);
    assert_eq!(reader.read_section_data(&a).unwrap(), b"second".to_vec());
}
