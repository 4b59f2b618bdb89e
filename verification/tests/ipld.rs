use blockless_car::cid::raw_cid;
use blockless_car::error::CarError;
use blockless_car::ipld::TreeValue;
use libipld::codec::Codec;

fn entry(key: &str, value: TreeValue) -> (String, TreeValue) {
    (key.to_string(), value)
}

#[test]
fn get_finds_the_value_under_a_key() {
    let map = TreeValue::StringMap(vec![
        entry("a", TreeValue::Integer(1)),
        entry("b", TreeValue::Bool(true)),
    ]);
    assert_eq!(map.get("a"), Some(&TreeValue::Integer(1)));
    assert_eq!(map.get("b"), Some(&TreeValue::Bool(true)));
    assert_eq!(map.get("c"), None);
    assert_eq!(TreeValue::Null.get("a"), None);
}

#[test]
fn get_takes_the_last_of_two_entries_with_one_key() {
    let map = TreeValue::StringMap(vec![
        entry("a", TreeValue::Integer(1)),
        entry("a", TreeValue::Integer(2)),
    ]);
    assert_eq!(map.get("a"), Some(&TreeValue::Integer(2)));
    let bytes = map.to_dag_cbor().unwrap();
    let back = TreeValue::from_dag_cbor(&bytes).unwrap();
    assert_eq!(back, TreeValue::StringMap(vec![entry("a", TreeValue::Integer(2))]));
}

#[test]
fn dag_cbor_round_trips_every_kind_of_value() {
    let cid = raw_cid(b"linked");
    let value = TreeValue::StringMap(vec![
        entry("bool", TreeValue::Bool(false)),
        entry("bytes", TreeValue::Bytes(vec![1, 2, 3])),
        entry("float", TreeValue::Float(0x4009_21fb_5444_2d18)),
        entry("int", TreeValue::Integer(-42)),
        entry("link", TreeValue::Link(cid)),
        entry("list", TreeValue::List(vec![TreeValue::Null, TreeValue::String("x".into())])),
    ]);
    let bytes = value.to_dag_cbor().unwrap();
    assert_eq!(TreeValue::from_dag_cbor(&bytes).unwrap(), value);
}

#[test]
fn dag_cbor_bytes_are_those_of_the_codec() {
    let value = TreeValue::List(vec![TreeValue::Integer(1), TreeValue::String("abc".into())]);
    assert_eq!(value.to_dag_cbor().unwrap(), vec![0x82, 0x01, 0x63, b'a', b'b', b'c']);
    let outside = libipld::Ipld::List(vec![
        libipld::Ipld::Integer(1),
        libipld::Ipld::String("abc".into()),
    ]);
    assert_eq!(value.to_dag_cbor().unwrap(), libipld_cbor::DagCborCodec.encode(&outside).unwrap());
}

#[test]
fn dag_cbor_float_keeps_its_bits() {
    let pi = TreeValue::Float(0x4009_21fb_5444_2d18);
    let bytes = pi.to_dag_cbor().unwrap();
    assert_eq!(bytes, vec![0xfb, 0x40, 0x09, 0x21, 0xfb, 0x54, 0x44, 0x2d, 0x18]);
    assert_eq!(TreeValue::from_dag_cbor(&bytes).unwrap(), pi);
}

#[test]
fn dag_cbor_refuses_numbers_that_do_not_fit() {
    let big = TreeValue::Integer(1i128 << 64);
    assert!(matches!(big.to_dag_cbor(), Err(CarError::Parsing(_))));
    assert!(TreeValue::Integer((1i128 << 64) - 1).to_dag_cbor().is_ok());
}

#[test]
fn dag_cbor_decoding_sorts_the_entries_by_name() {
    let value = TreeValue::StringMap(vec![
        entry("b", TreeValue::Integer(2)),
        entry("a", TreeValue::Integer(1)),
    ]);
    let bytes = value.to_dag_cbor().unwrap();
    let back = TreeValue::from_dag_cbor(&bytes).unwrap();
    assert_eq!(
        back,
        TreeValue::StringMap(vec![
            entry("a", TreeValue::Integer(1)),
            entry("b", TreeValue::Integer(2)),
        ])
    );
}

#[test]
fn dag_cbor_rejects_bytes_that_are_no_value() {
    assert!(matches!(TreeValue::from_dag_cbor(&[0xff]), Err(CarError::Parsing(_))));
    assert!(matches!(TreeValue::from_dag_cbor(&[0x63, b'a']), Err(CarError::Parsing(_))));
}

#[test]
fn dag_pb_round_trips_a_node_with_links() {
    let cid = raw_cid(b"child");
    let link = TreeValue::StringMap(vec![
        entry("Hash", TreeValue::Link(cid)),
        entry("Name", TreeValue::String("child.txt".into())),
        entry("Tsize", TreeValue::Integer(5)),
    ]);
    let node = TreeValue::StringMap(vec![
        entry("Data", TreeValue::Bytes(vec![8, 1])),
        entry("Links", TreeValue::List(vec![link])),
    ]);
    let bytes = node.to_dag_pb().unwrap();
    assert_ne!(bytes, vec![8, 1]);
    assert_eq!(TreeValue::from_dag_pb(&bytes).unwrap(), node);
}

#[test]
fn dag_pb_refuses_what_is_no_node() {
    assert!(matches!(TreeValue::Integer(1).to_dag_pb(), Err(CarError::Parsing(_))));
    let no_links = TreeValue::StringMap(vec![entry("Data", TreeValue::Bytes(vec![]))]);
    assert!(matches!(no_links.to_dag_pb(), Err(CarError::Parsing(_))));
    assert!(matches!(TreeValue::from_dag_pb(&[0xff, 0xff]), Err(CarError::Parsing(_))));
}
