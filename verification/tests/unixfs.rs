use blockless_car::cid::raw_cid;
use blockless_car::codec::{Decoder, Encoder};
use blockless_car::error::CarError;
use blockless_car::ipld::TreeValue;
use blockless_car::pb::PbData;
use blockless_car::unixfs::{FileType, Link, UnixFs, UnixTime};

fn entry(key: &str, value: TreeValue) -> (String, TreeValue) {
    (key.to_string(), value)
}

fn directory_with(children: Vec<Link>) -> UnixFs {
    let mut node = UnixFs::default();
    node.file_type = FileType::Directory;
    for child in children {
        node.add_child(child);
    }
    node
}

#[test]
fn file_type_numbers_and_names() {
    assert_eq!(FileType::default(), FileType::Raw);
    assert_eq!(FileType::Directory.number(), 1);
    assert_eq!(FileType::HAMTShard.number(), 5);
    assert_eq!(FileType::from_number(2), FileType::File);
    assert_eq!(FileType::from_number(77), FileType::Raw);
    assert_eq!(FileType::Raw.to_string(), "raw");
    assert_eq!(FileType::Directory.to_string(), "directory");
    assert_eq!(FileType::File.to_string(), "file");
    assert_eq!(FileType::Metadata.to_string(), "metadata");
    assert_eq!(FileType::Symlink.to_string(), "symlink");
    assert_eq!(FileType::HAMTShard.to_string(), "hasmtshard");
}

#[test]
fn new_node_has_only_its_identifier() {
    let cid = raw_cid(b"x");
    let node = UnixFs::new(cid.clone());
    assert_eq!(node.cid(), Some(cid));
    assert_eq!(node.file_type(), FileType::Raw);
    assert_eq!(node.children().len(), 0);
    assert_eq!(node.file_name(), None);
    assert_eq!(node.file_size(), None);
    assert_eq!(node.mode(), None);
    assert_eq!(node.fanout(), None);
    assert_eq!(node.hash_type(), None);
    assert_eq!(node.mtime(), None);
    assert_eq!(node.block_sizes(), Vec::<u64>::new());
}

#[test]
fn add_child_returns_the_place() {
    let mut node = UnixFs::default();
    assert_eq!(node.add_child(Link::new(raw_cid(b"a"))), 0);
    assert_eq!(node.add_child(Link::new(raw_cid(b"b"))), 1);
    assert_eq!(node.children()[1].hash(), raw_cid(b"b"));
    assert_eq!(node.children()[0].name_ref(), "");
}

#[test]
fn message_bytes_of_a_directory() {
    let mut data = PbData::new();
    data.file_type = FileType::Directory;
    assert_eq!(data.to_bytes(), vec![0x08, 0x01]);
}

#[test]
fn message_bytes_hold_every_field_in_the_order_of_its_number() {
    let mut data = PbData::new();
    data.file_type = FileType::File;
    data.file_size = Some(300);
    data.block_sizes = vec![1, 200];
    data.hash_type = Some(5);
    data.fanout = Some(6);
    data.mode = Some(0o644);
    data.mtime = Some(UnixTime { seconds: -1, fractional_nanoseconds: Some(0x01020304) });
    let bytes = data.to_bytes();
    let mut expected = vec![0x08, 0x02, 0x18, 0xac, 0x02, 0x20, 0x01, 0x20, 0xc8, 0x01];
    expected.extend_from_slice(&[0x28, 0x05, 0x30, 0x06, 0x38, 0xa4, 0x03]);
    expected.extend_from_slice(&[0x42, 16, 0x08]);
    expected.extend_from_slice(&[0xff; 9]);
    expected.push(0x01);
    expected.extend_from_slice(&[0x15, 0x04, 0x03, 0x02, 0x01]);
    assert_eq!(bytes, expected);
    let back = PbData::from_bytes(&bytes).unwrap();
    assert_eq!(back.file_type, FileType::File);
    assert_eq!(back.file_size, Some(300));
    assert_eq!(back.block_sizes, vec![1, 200]);
    assert_eq!(back.hash_type, Some(5));
    assert_eq!(back.fanout, Some(6));
    assert_eq!(back.mode, Some(0o644));
    assert_eq!(
        back.mtime,
        Some(UnixTime { seconds: -1, fractional_nanoseconds: Some(0x01020304) })
    );
}

#[test]
fn message_passes_over_fields_it_does_not_know() {
    let bytes = vec![0x08, 0x01, 0x12, 0x02, 0xaa, 0xbb, 0x50, 0x07, 0x5a, 0x01, 0x00, 0x18, 0x09];
    let data = PbData::from_bytes(&bytes).unwrap();
    assert_eq!(data.file_type, FileType::Directory);
    assert_eq!(data.file_size, Some(9));
}

#[test]
fn message_without_fields_is_a_raw_node() {
    let data = PbData::from_bytes(&[]).unwrap();
    assert_eq!(data.file_type, FileType::Raw);
    assert_eq!(data.file_size, None);
}

#[test]
fn malformed_messages_are_parsing_errors() {
    assert!(matches!(PbData::from_bytes(&[0x08]), Err(CarError::Parsing(_))));
    assert!(matches!(PbData::from_bytes(&[0x12, 0x05, 0x01]), Err(CarError::Parsing(_))));
    assert!(matches!(PbData::from_bytes(&[0x42, 0x02, 0x15, 0x01]), Err(CarError::Parsing(_))));
    assert!(matches!(PbData::from_bytes(&[0x0b]), Err(CarError::Parsing(_))));
}

#[test]
fn encode_gives_data_and_links() {
    let mut link = Link::new(raw_cid(b"a"));
    link.name = Some("a.txt".to_string());
    link.size = Some(7);
    let node = directory_with(vec![link, Link::new(raw_cid(b"b"))]);
    let value: TreeValue = node.encode().unwrap();
    let expected = TreeValue::StringMap(vec![
        entry("Data", TreeValue::Bytes(vec![0x08, 0x01])),
        entry(
            "Links",
            TreeValue::List(vec![
                TreeValue::StringMap(vec![
                    entry("Hash", TreeValue::Link(raw_cid(b"a"))),
                    entry("Name", TreeValue::String("a.txt".into())),
                    entry("Tsize", TreeValue::Integer(7)),
                ]),
                TreeValue::StringMap(vec![
                    entry("Hash", TreeValue::Link(raw_cid(b"b"))),
                    entry("Name", TreeValue::String(String::new())),
                    entry("Tsize", TreeValue::Integer(0)),
                ]),
            ]),
        ),
    ]);
    assert_eq!(value, expected);
}

#[test]
fn encode_refuses_what_is_neither_file_nor_directory() {
    for t in [FileType::Raw, FileType::Metadata, FileType::Symlink, FileType::HAMTShard] {
        let mut node = UnixFs::default();
        node.file_type = t;
        match node.encode() {
            Err(CarError::Parsing(text)) => assert_eq!(text, "Not support unixfs format"),
            other => panic!("unexpected: {:?}", other),
        }
    }
    let mut file = UnixFs::default();
    file.file_type = FileType::File;
    assert!(file.encode().is_ok());
}

#[test]
fn decode_keeps_the_order_of_the_links() {
    let mut a = Link::new(raw_cid(b"a"));
    a.name = Some("first".into());
    a.size = Some(1);
    let mut b = Link::new(raw_cid(b"b"));
    b.name = Some("second".into());
    b.size = Some(2);
    let mut c = Link::new(raw_cid(b"c"));
    c.name = Some("third".into());
    c.size = Some(3);
    let node = directory_with(vec![a, b, c]);
    let back: UnixFs = node.encode().unwrap().decode().unwrap();
    assert_eq!(back, node);
    let names: Vec<&str> = back.children().iter().map(|l| l.name_ref()).collect();
    assert_eq!(names, vec!["first", "second", "third"]);
}

#[test]
fn decode_skips_links_without_hash_and_truncates_sizes() {
    let value = TreeValue::StringMap(vec![
        entry("Data", TreeValue::Bytes(vec![0x08, 0x02])),
        entry(
            "Links",
            TreeValue::List(vec![
                TreeValue::StringMap(vec![entry("Name", TreeValue::String("lost".into()))]),
                TreeValue::Integer(3),
                TreeValue::StringMap(vec![
                    entry("Hash", TreeValue::Link(raw_cid(b"k"))),
                    entry("Tsize", TreeValue::Integer(-1)),
                ]),
            ]),
        ),
    ]);
    let node: UnixFs = value.decode().unwrap();
    assert_eq!(node.file_type(), FileType::File);
    assert_eq!(node.children().len(), 1);
    assert_eq!(node.children()[0].hash(), raw_cid(b"k"));
    assert_eq!(node.children()[0].name, None);
    assert_eq!(node.children()[0].size, Some(u64::MAX));
}

#[test]
fn decode_needs_a_map_with_data() {
    let r: Result<UnixFs, CarError> = TreeValue::Integer(1).decode();
    assert!(matches!(r, Err(CarError::Parsing(_))));
    let no_data = TreeValue::StringMap(vec![entry("Links", TreeValue::List(vec![]))]);
    let r: Result<UnixFs, CarError> = no_data.decode();
    assert!(matches!(r, Err(CarError::Parsing(_))));
    let bad = TreeValue::StringMap(vec![entry("Data", TreeValue::Bytes(vec![0x08]))]);
    let r: Result<UnixFs, CarError> = bad.decode();
    assert!(matches!(r, Err(CarError::Parsing(_))));
    let text = TreeValue::StringMap(vec![entry("Data", TreeValue::String("x".into()))]);
    assert!(matches!(UnixFs::from_ipld(&text), Err(CarError::Parsing(_))));
}

#[test]
fn from_cid_ipld_attaches_the_identifier() {
    let value = directory_with(vec![]).to_ipld().unwrap();
    let cid = raw_cid(b"id");
    let node = UnixFs::from_cid_ipld(cid.clone(), &value).unwrap();
    assert_eq!(node.cid(), Some(cid));
    assert_eq!(UnixFs::from_ipld(&value).unwrap().cid(), None);
}

#[test]
fn numbers_of_ten_bytes_keep_their_low_bits() {
    let mut bytes = vec![0x18];
    bytes.extend_from_slice(&[0xff; 9]);
    bytes.push(0x7f);
    assert_eq!(PbData::from_bytes(&bytes).unwrap().file_size, Some(u64::MAX));
    let five = vec![0x38, 0xff, 0xff, 0xff, 0xff, 0x7f];
    assert_eq!(PbData::from_bytes(&five).unwrap().mode, Some(u32::MAX));
    let six = vec![0x38, 0x81, 0x80, 0x80, 0x80, 0x90, 0x01];
    assert_eq!(PbData::from_bytes(&six).unwrap().mode, Some(1));
    let mut eleven = vec![0x18];
    eleven.extend_from_slice(&[0xff; 10]);
    eleven.push(0x01);
    assert!(matches!(PbData::from_bytes(&eleven), Err(CarError::Parsing(_))));
}

#[test]
fn fields_of_every_width_are_passed_over() {
    let mut bytes = vec![0x51, 1, 2, 3, 4, 5, 6, 7, 8];
    bytes.extend_from_slice(&[0x55, 1, 2, 3, 4]);
    bytes.extend_from_slice(&[0x52, 0x03, 9, 9, 9]);
    bytes.extend_from_slice(&[0x50, 0x80, 0x01]);
    bytes.extend_from_slice(&[0x08, 0x02]);
    assert_eq!(PbData::from_bytes(&bytes).unwrap().file_type, FileType::File);
    assert!(matches!(PbData::from_bytes(&[0x51, 1, 2, 3]), Err(CarError::Parsing(_))));
    assert!(matches!(PbData::from_bytes(&[0x55, 1, 2, 3]), Err(CarError::Parsing(_))));
    assert!(matches!(PbData::from_bytes(&[0x52, 0x04, 9, 9, 9]), Err(CarError::Parsing(_))));
    assert!(matches!(PbData::from_bytes(&[0x53, 0x00]), Err(CarError::Parsing(_))));
    assert!(matches!(PbData::from_bytes(&[0x56, 0x00]), Err(CarError::Parsing(_))));
}
