use blockless_car::cid::{raw_cid, Cid, BLAKE2B256_CODEC, DAG_CBOR};
use blockless_car::error::{CarError, IoErrorKind};
use blockless_car::header::CarHeader;
use blockless_car::ipld::TreeValue;
use blockless_car::reader::{new_v1, read_block, read_section, CarReaderV1, MAX_ALLOWED_SECTION_SIZE};
use blockless_car::stream::ByteCursor;
use blockless_car::writer::CarWriterV1;
use cid::multihash::{Code, MultihashDigest};

fn cbor_cid(data: &[u8]) -> Cid {
    let digest = Code::Blake2b256.digest(data);
    Cid::new_v1(DAG_CBOR, BLAKE2B256_CODEC, digest.digest().to_vec()).unwrap()
}

fn varint(mut n: u64) -> Vec<u8> {
    let mut out = Vec::new();
    while n >= 0x80 {
        out.push((n as u8 & 0x7f) | 0x80);
        n >>= 7;
    }
    out.push(n as u8);
    out
}

fn head_of(root: &Cid) -> Vec<u8> {
    let head = CarHeader::new_v1(vec![root.clone()]).encode().unwrap();
    let mut out = varint(head.len() as u64);
    out.extend_from_slice(&head);
    out
}

#[test]
fn read_block_reads_a_length_then_that_many_bytes() {
    let mut s = ByteCursor::new(vec![3, 10, 11, 12, 99]);
    assert_eq!(read_block(&mut s).unwrap(), Some(vec![10, 11, 12]));
    assert_eq!(s.stream_position(), 4);
}

#[test]
fn read_block_at_the_end_is_none() {
    let mut s = ByteCursor::new(vec![]);
    assert_eq!(read_block(&mut s).unwrap(), None);
}

#[test]
fn read_block_of_a_short_stream_is_unexpected_eof() {
    let mut s = ByteCursor::new(vec![5, 1, 2]);
    assert!(matches!(read_block(&mut s), Err(CarError::IO(IoErrorKind::UnexpectedEof))));
}

#[test]
fn read_block_of_an_unterminated_prefix_is_invalid_data() {
    let mut s = ByteCursor::new(vec![0xff; 12]);
    assert!(matches!(read_block(&mut s), Err(CarError::IO(IoErrorKind::InvalidData))));
}

#[test]
fn read_block_refuses_more_than_32_mib() {
    assert_eq!(MAX_ALLOWED_SECTION_SIZE, 32 << 20);
    let mut bytes = varint((32 << 20) + 1);
    bytes.extend_from_slice(&[0; 8]);
    let mut s = ByteCursor::new(bytes);
    match read_block(&mut s) {
        Err(CarError::TooLargeSection(l)) => assert_eq!(l, (32 << 20) + 1),
        other => panic!("unexpected: {:?}", other),
    }
    assert_eq!(s.stream_position(), 4);
}

#[test]
fn read_block_accepts_exactly_32_mib() {
    let mut bytes = varint(32 << 20);
    bytes.resize(bytes.len() + (32 << 20), 7);
    let mut s = ByteCursor::new(bytes);
    assert_eq!(read_block(&mut s).unwrap().unwrap().len(), 32 << 20);
}

#[test]
fn read_section_gives_the_place_of_the_block() {
    let cid = raw_cid(b"block");
    let mut bytes = varint(38 + 5);
    bytes.extend_from_slice(&cid.to_bytes());
    bytes.extend_from_slice(b"block");
    let mut s = ByteCursor::new(bytes);
    let section = read_section(&mut s).unwrap().unwrap();
    assert_eq!(section.cid(), cid);
    assert_eq!(section.pos(), 39);
    assert_eq!(section.len(), 5);
    assert_eq!(s.stream_position(), 44);
    assert_eq!(section.read_data(&mut s).unwrap(), b"block".to_vec());
    assert!(read_section(&mut s).unwrap().is_none());
}

#[test]
fn read_section_at_the_end_is_none() {
    let mut s = ByteCursor::new(vec![1, 2, 3]);
    s.seek_from_start(3);
    assert!(read_section(&mut s).unwrap().is_none());
}

#[test]
fn read_section_refuses_more_than_32_mib() {
    let mut bytes = varint((32 << 20) + 1);
    bytes.extend_from_slice(&raw_cid(b"x").to_bytes());
    let mut s = ByteCursor::new(bytes);
    match read_section(&mut s) {
        Err(CarError::TooLargeSection(l)) => assert_eq!(l, (32 << 20) + 1),
        other => panic!("unexpected: {:?}", other.is_ok()),
    }
    assert_eq!(s.stream_position(), 4);
}

#[test]
fn read_section_rejects_a_malformed_identifier() {
    let mut s = ByteCursor::new(vec![4, 0x09, 0x55, 0x00, 0x00]);
    assert!(matches!(read_section(&mut s), Err(CarError::Parsing(_))));
}

#[test]
fn read_section_rejects_a_length_shorter_than_the_identifier() {
    let mut bytes = varint(10);
    bytes.extend_from_slice(&raw_cid(b"x").to_bytes());
    let mut s = ByteCursor::new(bytes);
    assert!(matches!(read_section(&mut s), Err(CarError::Parsing(_))));
}

#[test]
fn a_section_may_announce_more_than_the_stream_holds() {
    let root = cbor_cid(b"root");
    let cid = raw_cid(b"long");
    let mut bytes = head_of(&root);
    bytes.extend_from_slice(&varint(38 + 100));
    bytes.extend_from_slice(&cid.to_bytes());
    bytes.extend_from_slice(b"long");
    let mut reader = CarReaderV1::new(ByteCursor::new(bytes)).unwrap();
    assert_eq!(reader.sections().len(), 1);
    assert!(matches!(
        reader.read_section_data(&cid),
        Err(CarError::IO(IoErrorKind::UnexpectedEof))
    ));
}

#[test]
fn opening_without_a_header_is_a_parsing_error() {
    match new_v1(ByteCursor::new(vec![])) {
        Err(CarError::Parsing(text)) => assert_eq!(text, "Invalid Header"),
        _ => panic!("expected a parsing error"),
    }
}

#[test]
fn opening_a_too_large_header_fails() {
    let bytes = varint((32 << 20) + 5);
    assert!(matches!(new_v1(ByteCursor::new(bytes)), Err(CarError::TooLargeSection(_))));
}

#[test]
fn ipld_decodes_by_the_codec_of_the_identifier() {
    let raw = raw_cid(b"bytes");
    let cbor_bytes = vec![0x82, 0x01, 0x63, b'a', b'b', b'c'];
    let cbor = cbor_cid(&cbor_bytes);
    let mut writer = CarWriterV1::new(ByteCursor::new(Vec::new()), CarHeader::new_v1(vec![raw.clone()]));
    writer.write(raw.clone(), b"bytes").unwrap();
    writer.write(cbor.clone(), &cbor_bytes).unwrap();
    let unknown = Cid::new_v1(0x0129, BLAKE2B256_CODEC, vec![0; 32]).unwrap();
    writer.write(unknown.clone(), b"{}").unwrap();
    let mut stream = writer.into_inner();
    stream.rewind();
    let mut reader = CarReaderV1::new(stream).unwrap();
    assert_eq!(reader.ipld(&raw).unwrap(), TreeValue::Bytes(b"bytes".to_vec()));
    assert_eq!(
        reader.ipld(&cbor).unwrap(),
        TreeValue::List(vec![TreeValue::Integer(1), TreeValue::String("abc".to_string())])
    );
    assert!(matches!(reader.ipld(&unknown), Err(CarError::Parsing(_))));
    assert!(matches!(reader.ipld(&cbor_cid(b"absent")), Err(CarError::InvalidSection(_))));
}

#[test]
fn the_reader_starts_at_the_position_of_the_stream() {
    let root = cbor_cid(b"root");
    let mut bytes = vec![0xee, 0xee];
    bytes.extend_from_slice(&head_of(&root));
    let mut stream = ByteCursor::new(bytes);
    stream.seek_from_start(2);
    let reader = CarReaderV1::new(stream).unwrap();
    assert_eq!(reader.header().roots(), vec![root]);
    assert_eq!(reader.sections().len(), 0);
}

#[test]
fn the_stream_stands_behind_what_was_read() {
    let mut short = ByteCursor::new(vec![5, 1, 2]);
    assert!(read_block(&mut short).is_err());
    assert_eq!(short.stream_position(), 3);
    let mut cut = ByteCursor::new(vec![0x80, 0x80]);
    assert_eq!(read_block(&mut cut).unwrap(), None);
    assert_eq!(cut.stream_position(), 2);
    let mut endless = ByteCursor::new(vec![0xff; 20]);
    assert!(read_section(&mut endless).is_err());
    assert_eq!(endless.stream_position(), 11);
    let mut beyond = ByteCursor::new(vec![1, 2]);
    beyond.seek_from_start(7);
    assert!(read_section(&mut beyond).unwrap().is_none());
    assert_eq!(beyond.stream_position(), 7);
}

#[test]
fn a_block_that_does_not_hash_to_its_identifier_is_not_decoded() {
    let cid = raw_cid(b"right");
    let mut writer = CarWriterV1::new(ByteCursor::new(Vec::new()), CarHeader::new_v1(vec![cid.clone()]));
    writer.write(cid.clone(), b"wrong").unwrap();
    let mut stream = writer.into_inner();
    stream.rewind();
    let mut reader = CarReaderV1::new(stream).unwrap();
    assert_eq!(reader.read_section_data(&cid).unwrap(), b"wrong".to_vec());
    assert!(matches!(reader.ipld(&cid), Err(CarError::Parsing(_))));
}

#[test]
fn reading_the_bytes_of_a_section_leaves_the_stream_behind_them() {
    let mut stream = ByteCursor::new(b"0123456789".to_vec());
    let section = blockless_car::section::Section::new(raw_cid(b"345"), 3, 3);
    assert_eq!(section.read_data(&mut stream).unwrap(), b"345".to_vec());
    assert_eq!(stream.stream_position(), 6);
    let beyond = blockless_car::section::Section::new(raw_cid(b"x"), 8, 5);
    match beyond.read_data(&mut stream) {
        Err(CarError::IO(IoErrorKind::UnexpectedEof)) => {},
        other => panic!("{:?}", other),
    }
    assert_eq!(stream.stream_position(), 10);
}

#[test]
fn reading_a_header_leaves_the_stream_behind_its_block() {
    let root = raw_cid(b"root");
    let mut bytes = head_of(&root);
    let head_len = bytes.len() as u64;
    bytes.extend_from_slice(b"rest");
    let mut stream = ByteCursor::new(bytes);
    let header = CarHeader::read_header(&mut stream).unwrap();
    assert_eq!(header.roots(), vec![root]);
    assert_eq!(stream.stream_position(), head_len);
    let mut bad = varint(3);
    bad.extend_from_slice(&[0xff, 0xff, 0xff, 0x01]);
    let mut stream = ByteCursor::new(bad);
    assert!(CarHeader::read_header(&mut stream).is_err());
    assert_eq!(stream.stream_position(), 4);
}
