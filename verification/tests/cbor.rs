use blockless_car::cbor::{well_framed, MAX_DEPTH};
use blockless_car::cid::raw_cid;
use blockless_car::error::CarError;
use blockless_car::header::CarHeader;
use blockless_car::ipld::TreeValue;

#[test]
fn the_bytes_of_a_header_are_well_framed() {
    let bytes = CarHeader::new_v1(vec![raw_cid(b"a"), raw_cid(b"b")]).encode().unwrap();
    assert!(well_framed(&bytes));
}

#[test]
fn scalars_are_well_framed() {
    assert!(well_framed(&[0x00]));
    assert!(well_framed(&[0x18, 0xff]));
    assert!(well_framed(&[0x3b, 0, 0, 0, 0, 0, 0, 0, 1]));
    assert!(well_framed(&[0xf6]));
    assert!(well_framed(&[0xfb, 0, 0, 0, 0, 0, 0, 0, 0]));
    assert!(well_framed(&[0x62, b'h', b'i']));
    assert!(well_framed(&[0x00, 0xff, 0xff]));
    assert!(!well_framed(&[]));
    assert!(!well_framed(&[0x18]));
    assert!(!well_framed(&[0xfa, 0, 0]));
    assert!(!well_framed(&[0x1c]));
    assert!(!well_framed(&[0xff]));
}

#[test]
fn a_length_beyond_the_end_is_refused_before_it_is_believed() {
    let huge = [0x5b, 0xff, 0xff, 0xff, 0xff, 0xff, 0xff, 0xff, 0xff];
    assert!(!well_framed(&huge));
    assert!(matches!(TreeValue::from_dag_cbor(&huge), Err(CarError::Parsing(_))));
    let list = [0x9b, 0x7f, 0xff, 0xff, 0xff, 0xff, 0xff, 0xff, 0xff, 0x00];
    assert!(!well_framed(&list));
    assert!(matches!(TreeValue::from_dag_cbor(&list), Err(CarError::Parsing(_))));
    assert!(matches!(CarHeader::decode(&list), Err(CarError::Parsing(_))));
    assert!(!well_framed(&[0x63, b'a', b'b']));
    assert!(!well_framed(&[0x82, 0x01]));
    assert!(!well_framed(&[0xa1, 0x61, b'k']));
}

#[test]
fn lists_and_maps_are_followed_to_their_end() {
    assert!(well_framed(&[0x82, 0x01, 0x81, 0x02]));
    assert!(well_framed(&[0xa1, 0x61, b'k', 0x80]));
    assert!(well_framed(&[0x9f, 0x01, 0x02, 0xff]));
    assert!(well_framed(&[0xbf, 0x61, b'k', 0x01, 0xff]));
    assert!(!well_framed(&[0x9f, 0x01, 0x02]));
    assert_eq!(
        TreeValue::from_dag_cbor(&[0x9f, 0x01, 0x02, 0xff]).unwrap(),
        TreeValue::List(vec![TreeValue::Integer(1), TreeValue::Integer(2)])
    );
}

#[test]
fn links_are_the_tag_42_before_bytes() {
    let cid = raw_cid(b"x");
    let bytes = TreeValue::Link(cid).to_dag_cbor().unwrap();
    assert_eq!(&bytes[..4], &[0xd8, 0x2a, 0x58, 39]);
    assert!(well_framed(&bytes));
    assert!(!well_framed(&bytes[..bytes.len() - 1]));
    assert!(!well_framed(&[0xd8, 0x2b, 0x58, 0x00]));
}

#[test]
fn nesting_is_followed_to_a_depth_and_no_further() {
    let mut deep = vec![0x81; MAX_DEPTH - 1];
    deep.push(0x00);
    assert!(well_framed(&deep));
    assert!(TreeValue::from_dag_cbor(&deep).is_ok());
    let mut deeper = vec![0x81; MAX_DEPTH];
    deeper.push(0x00);
    assert!(!well_framed(&deeper));
    assert!(matches!(TreeValue::from_dag_cbor(&deeper), Err(CarError::Parsing(_))));
    let bottomless = vec![0x81; 100_000];
    assert!(matches!(TreeValue::from_dag_cbor(&bottomless), Err(CarError::Parsing(_))));
}
