use blockless_car::error::IoErrorKind;
use blockless_car::stream::ByteCursor;

#[test]
fn read_varint_single_byte() {
    let mut c = ByteCursor::new(vec![0x05, 0xaa]);
    assert_eq!(c.read_varint(), Ok(5));
    assert_eq!(c.stream_position(), 1);
}

#[test]
fn read_varint_two_bytes() {
    let mut c = ByteCursor::new(vec![0xac, 0x02]);
    assert_eq!(c.read_varint(), Ok(300));
    assert_eq!(c.stream_position(), 2);
}

#[test]
fn read_varint_at_end_is_eof() {
    let mut c = ByteCursor::new(vec![]);
    assert_eq!(c.read_varint(), Err(IoErrorKind::UnexpectedEof));
}

#[test]
fn read_varint_truncated_is_eof() {
    let mut c = ByteCursor::new(vec![0x80, 0x80]);
    assert_eq!(c.read_varint(), Err(IoErrorKind::UnexpectedEof));
}

#[test]
fn read_varint_unterminated_is_invalid_data() {
    let mut c = ByteCursor::new(vec![0x80; 11]);
    assert_eq!(c.read_varint(), Err(IoErrorKind::InvalidData));
}

#[test]
fn write_all_overwrites_and_grows() {
    let mut c = ByteCursor::new(vec![1, 2, 3]);
    c.seek_from_start(2);
    c.write_all(&[9, 8]).unwrap();
    assert_eq!(c.stream_position(), 4);
    assert_eq!(c.into_inner(), vec![1, 2, 9, 8]);
}

#[test]
fn write_all_beyond_end_pads_with_zeros() {
    let mut c = ByteCursor::new(vec![1]);
    c.seek_from_start(3);
    c.write_all(&[7]).unwrap();
    assert_eq!(c.into_inner(), vec![1, 0, 0, 7]);
}

#[test]
fn read_varint_of_ten_bytes_keeps_the_low_64_bits() {
    let mut bytes = vec![0xff; 9];
    bytes.push(0x7f);
    let mut c = ByteCursor::new(bytes);
    assert_eq!(c.read_varint(), Ok(usize::MAX));
    assert_eq!(c.stream_position(), 10);
}

#[test]
fn read_exact_takes_bytes_or_fails_at_the_end() {
    let mut c = ByteCursor::new(vec![1, 2, 3]);
    assert_eq!(c.read_exact(2), Ok(vec![1, 2]));
    assert_eq!(c.read_exact(2), Err(IoErrorKind::UnexpectedEof));
    c.seek_from_start(9);
    assert_eq!(c.read_exact(0), Ok(vec![]));
    assert_eq!(c.read_exact(1), Err(IoErrorKind::UnexpectedEof));
}

#[test]
fn seek_forward_refuses_what_does_not_fit() {
    let mut c = ByteCursor::new(vec![]);
    c.seek_from_start(u64::MAX - 1);
    assert_eq!(c.seek_forward(1), Ok(u64::MAX));
    assert_eq!(c.seek_forward(1), Err(IoErrorKind::InvalidInput));
    c.rewind();
    assert_eq!(c.stream_position(), 0);
}
