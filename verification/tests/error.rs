use blockless_car::error::{CarError, IoErrorKind};

#[test]
fn messages_start_with_the_kind() {
    assert_eq!(CarError::Parsing("x".into()).to_string(), "parsing the file error: x");
    assert_eq!(CarError::InvalidFile("y".into()).to_string(), "invalid file error: y");
    assert_eq!(CarError::InvalidSection("z".into()).to_string(), "invalid section error: z");
    assert_eq!(CarError::NotFound("w".into()).to_string(), "not found error: w");
}

#[test]
fn too_large_section_shows_the_length_in_decimal() {
    assert_eq!(CarError::TooLargeSection(0).to_string(), "too large section error: 0");
    assert_eq!(
        CarError::TooLargeSection(33554433).to_string(),
        "too large section error: 33554433"
    );
}

#[test]
fn io_errors_name_their_kind() {
    assert_eq!(
        CarError::IO(IoErrorKind::UnexpectedEof).to_string(),
        "Io error: unexpected end of file"
    );
    assert_eq!(CarError::IO(IoErrorKind::InvalidData).to_string(), "Io error: invalid data");
    assert_eq!(
        CarError::IO(IoErrorKind::InvalidInput).to_string(),
        "Io error: invalid input parameter"
    );
}
