use blockless_car::cid::{empty_pb_cid, raw_cid, Cid};
use blockless_car::codec::Encoder;
use blockless_car::error::CarError;
use blockless_car::header::CarHeader;
use blockless_car::ipld::TreeValue;
use blockless_car::reader::CarReaderV1;
use blockless_car::stream::ByteCursor;
use blockless_car::unixfs::{FileType, Link, UnixFs};
use blockless_car::utils::cat_file::cat_ipld;
use blockless_car::utils::extract::{extract_ipld_to_current_path, ExtractStep};
use blockless_car::writer::{new_v1, new_v1_default_roots, CarWriter, CarWriterV1, WriteStream};
use cid::multihash::{Blake2b256, Code, MultihashDigest, StatefulHasher};
use std::cell::RefCell;

fn reopen(writer: CarWriterV1) -> CarReaderV1 {
    let mut stream = writer.into_inner();
    stream.rewind();
    CarReaderV1::new(stream).unwrap()
}

#[test]
fn write_stream_patches_the_identifier_in() {
    let mut writer = new_v1_default_roots(ByteCursor::new(Vec::new())).unwrap();
    let hasher = RefCell::new(Blake2b256::default());
    let chunks = RefCell::new(0usize);
    let data: Vec<u8> = (0..25000u32).map(|i| (i % 251) as u8).collect();
    let cid = writer
        .write_stream(
            |w: WriteStream| match w {
                WriteStream::Bytes(bs) => {
                    hasher.borrow_mut().update(bs);
                    *chunks.borrow_mut() += 1;
                    None
                }
                WriteStream::End => {
                    let digest = hasher.borrow().finalize();
                    let hash = Code::multihash_from_digest(&digest);
                    Some(Ok(Cid::new_v1(0x55, hash.code(), hash.digest().to_vec()).unwrap()))
                }
            },
            data.len(),
            &data,
        )
        .unwrap();
    assert_eq!(*chunks.borrow(), 3);
    assert_eq!(cid, raw_cid(&data));
    writer.write(raw_cid(b"next"), b"next").unwrap();
    let mut reader = reopen(writer);
    assert_eq!(reader.header().roots(), vec![empty_pb_cid()]);
    assert_eq!(reader.sections().len(), 2);
    assert_eq!(reader.read_section_data(&cid).unwrap(), data);
    assert_eq!(reader.read_section_data(&raw_cid(b"next")).unwrap(), b"next".to_vec());
}

#[test]
fn write_stream_hands_on_the_error_of_the_hasher() {
    let mut writer = new_v1_default_roots(ByteCursor::new(Vec::new())).unwrap();
    let r = writer.write_stream(
        |w: WriteStream| match w {
            WriteStream::Bytes(_) => Some(Err(CarError::NotFound("no hash".into()))),
            WriteStream::End => Some(Ok(raw_cid(b""))),
        },
        3,
        b"abc",
    );
    assert!(matches!(r, Err(CarError::NotFound(_))));
    let mut again = new_v1_default_roots(ByteCursor::new(Vec::new())).unwrap();
    let r = CarWriter::write_stream(
        &mut again,
        |w: WriteStream| match w {
            WriteStream::Bytes(_) => None,
            WriteStream::End => Some(Err(CarError::Parsing("bad".into()))),
        },
        3,
        b"abc",
    );
    assert!(matches!(r, Err(CarError::Parsing(_))));
}

#[test]
fn begin_and_finish_stream_frame_a_block() {
    let mut writer = new_v1_default_roots(ByteCursor::new(Vec::new())).unwrap();
    let slot = writer.begin_stream(4).unwrap();
    writer.stream_bytes(b"da").unwrap();
    writer.stream_bytes(b"ta").unwrap();
    let cid = raw_cid(b"data");
    writer.finish_stream(slot, &cid, 4).unwrap();
    let head_len = slot as usize - 1;
    let bytes = writer.into_inner();
    assert_eq!(bytes.stream_position() as usize, head_len + 1 + 38 + 4);
    let mut stream = bytes;
    stream.rewind();
    let mut reader = CarReaderV1::new(stream).unwrap();
    assert_eq!(reader.read_section_data(&cid).unwrap(), b"data".to_vec());
}

#[test]
fn write_ipld_writes_bytes_and_nodes() {
    let header = CarHeader::new_v1(vec![empty_pb_cid()]);
    let mut writer = new_v1(ByteCursor::new(Vec::new()), header).unwrap();
    let raw = writer.write_ipld(TreeValue::Bytes(b"leaf".to_vec())).unwrap();
    assert_eq!(raw, raw_cid(b"leaf"));
    let mut node = UnixFs::default();
    node.file_type = FileType::Directory;
    node.add_child(Link { hash: raw.clone(), name: Some("leaf".into()), size: Some(4), guess_type: FileType::File });
    let value: TreeValue = node.encode().unwrap();
    let expected = blockless_car::cid::pb_cid(&value.to_dag_pb().unwrap());
    let dir = CarWriter::write_ipld(&mut writer, value).unwrap();
    assert_eq!(dir, expected);
    assert!(matches!(writer.write_ipld(TreeValue::Integer(1)), Err(CarError::Parsing(_))));
    assert!(matches!(writer.write_ipld(TreeValue::StringMap(vec![])), Err(CarError::Parsing(_))));
    let mut reader = reopen(writer);
    assert_eq!(reader.sections().len(), 2);
    let back = reader.unixfs(&dir).unwrap();
    assert_eq!(back.cid(), Some(dir));
    assert_eq!(back.children()[0].hash(), raw);
}

#[test]
fn a_file_of_chunks_is_the_chunks_in_the_order_of_its_links() {
    let header = CarHeader::new_v1(vec![empty_pb_cid()]);
    let mut writer = new_v1(ByteCursor::new(Vec::new()), header).unwrap();
    let chunks: Vec<&[u8]> = vec![b"third-", b"first-", b"second"];
    let mut file = UnixFs::default();
    file.file_type = FileType::File;
    for chunk in chunks.iter().rev() {
        writer.write_ipld(TreeValue::Bytes(chunk.to_vec())).unwrap();
    }
    for chunk in chunks.iter() {
        file.add_child(Link::new(raw_cid(chunk)));
    }
    file.block_sizes = vec![6, 6, 6];
    file.file_size = Some(18);
    let root = writer.write_ipld(file.encode().unwrap()).unwrap();
    let mut reader = reopen(writer);
    assert_eq!(cat_ipld(&mut reader, root.clone()).unwrap(), b"third-first-second".to_vec());
    let (steps, result) = extract_ipld_to_current_path(&mut reader, root.clone());
    assert!(result.is_ok());
    assert_eq!(
        steps,
        vec![ExtractStep::File { path: root.to_string(), data: b"third-first-second".to_vec() }]
    );
    let node = reader.unixfs(&root).unwrap();
    assert_eq!(node.block_sizes(), vec![6, 6, 6]);
    assert_eq!(node.file_size(), Some(18));
}

#[test]
fn a_stream_that_is_given_up_at_its_end_leaves_the_opened_section_and_the_bytes() {
    let mut writer = new_v1_default_roots(ByteCursor::new(Vec::new())).unwrap();
    let r = writer.write_stream(
        |w: WriteStream| match w {
            WriteStream::Bytes(_) => None,
            WriteStream::End => Some(Err(CarError::NotFound("no hash".into()))),
        },
        3,
        b"abc",
    );
    assert!(matches!(r, Err(CarError::NotFound(_))));
    let left = writer.into_inner().into_inner();
    let head = CarHeader::new_v1(vec![empty_pb_cid()]).encode().unwrap();
    let mut expected = vec![head.len() as u8];
    expected.extend_from_slice(&head);
    expected.push((3 + empty_pb_cid().to_bytes().len()) as u8);
    expected.extend_from_slice(&empty_pb_cid().to_bytes());
    expected.extend_from_slice(b"abc");
    assert_eq!(left, expected);
}
