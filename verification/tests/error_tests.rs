use fitparser::error::{parse_error_message, ErrorKind, FitObject, Needed, ParseErrorKind};
use fitparser::header::FitHeader;

fn header() -> FitHeader {
    FitHeader { header_size: 14, protocol_version: 0x10, profile_version: 2115, data_size: 0, crc: Some(7) }
}

#[test]
fn a_header_checksum_mismatch_is_told_as_such() {
    let error = ErrorKind::InvalidCrc((vec![], FitObject::Header(header()), 7, 65535));
    assert_eq!(
        error.message(),
        "CRC value for header did not match, expected value 7, calculated value 65535"
    );
}

#[test]
fn a_file_checksum_mismatch_is_told_as_such() {
    let error = ErrorKind::InvalidCrc((vec![1, 2], FitObject::Records(vec![]), 12345, 0));
    assert_eq!(
        error.message(),
        "CRC value for data did not match, expected value 12345, calculated value 0"
    );
}

#[test]
fn an_io_error_tells_its_reason() {
    assert_eq!(ErrorKind::Io("file not found".to_string()).message(), "io error: file not found");
    assert_eq!(ErrorKind::Io(String::new()).message(), "io error: ");
}

#[test]
fn a_missing_definition_tells_channel_and_position() {
    assert_eq!(
        ErrorKind::MissingDefinitionMessage(9, 0x1A).message(),
        "No definition found for local message number 9 at position 0x1a"
    );
    assert_eq!(
        ErrorKind::MissingDefinitionMessage(15, 0).message(),
        "No definition found for local message number 15 at position 0x0"
    );
    for position in [1usize, 9, 10, 15, 16, 255, 256, 4095, 0xDEAD_BEEF, 0x1234_5678] {
        assert_eq!(
            ErrorKind::MissingDefinitionMessage(3, position).message(),
            format!("No definition found for local message number {} at position {:#x}", 3, position)
        );
    }
    assert_eq!(
        ErrorKind::MissingDefinitionMessage(255, usize::MAX).message(),
        format!("No definition found for local message number {} at position {:#x}", 255, usize::MAX)
    );
}

#[test]
fn trailing_bytes_tell_their_number() {
    assert_eq!(ErrorKind::TrailingBytes(4).message(), "4 bytes remain past expected EOF location");
    for count in [0usize, 9, 10, 99, 100, 1000, 65535, 1_000_000_007, usize::MAX] {
        assert_eq!(
            ErrorKind::TrailingBytes(count).message(),
            format!("{} bytes remain past expected EOF location", count)
        );
    }
}

#[test]
fn a_parse_error_is_described_as_the_parser_describes_it() {
    assert_eq!(
        ErrorKind::ParseError(8, ParseErrorKind::Tag).message(),
        "parser error: 'Tag' at position: 0x8"
    );
    assert_eq!(
        ErrorKind::ParseError(0x2C, ParseErrorKind::Verify).message(),
        "parser error: 'predicate verification' at position: 0x2c"
    );
    assert_eq!(
        ErrorKind::ParseError(8, ParseErrorKind::Tag).message(),
        format!("parser error: '{}' at position: {:#x}", nom::error::ErrorKind::Tag.description(), 8)
    );
    assert_eq!(
        ErrorKind::ParseError(0, ParseErrorKind::Verify).message(),
        format!("parser error: '{}' at position: {:#x}", nom::error::ErrorKind::Verify.description(), 0)
    );
}

#[test]
fn an_unexpected_end_tells_what_is_missing() {
    assert_eq!(
        ErrorKind::UnexpectedEof(Needed::Size(13)).message(),
        "parser error: requires 13 more bytes"
    );
    assert_eq!(
        ErrorKind::UnexpectedEof(Needed::Unknown).message(),
        "parser error: requires more data"
    );
}

#[test]
fn a_value_error_tells_its_reason() {
    assert_eq!(
        ErrorKind::ValueError("field size is not a multiple of the base type size".to_string()).message(),
        "value error: field size is not a multiple of the base type size"
    );
}

#[test]
fn a_missing_developer_definition_is_told_as_such() {
    assert_eq!(
        ErrorKind::MissingDeveloperDefinitionMessage().message(),
        "developer field referenced before being defined"
    );
}

#[test]
fn a_parse_error_of_any_kind_is_worded_alike() {
    assert_eq!(
        parse_error_message(0x1F, nom::error::ErrorKind::Eof.description()),
        "parser error: 'End of file' at position: 0x1f"
    );
    assert_eq!(parse_error_message(0, ""), "parser error: '' at position: 0x0");
    assert_eq!(
        parse_error_message(8, nom::error::ErrorKind::Tag.description()),
        ErrorKind::ParseError(8, ParseErrorKind::Tag).message()
    );
}

#[test]
fn a_shortfall_of_nothing_is_an_unknown_shortfall() {
    assert_eq!(Needed::new(0), Needed::Unknown);
    assert_eq!(Needed::new(1), Needed::Size(1));
    assert_eq!(Needed::new(usize::MAX), Needed::Size(usize::MAX));
    assert_eq!(
        ErrorKind::UnexpectedEof(Needed::Size(0)).message(),
        ErrorKind::UnexpectedEof(Needed::Unknown).message()
    );
    assert_eq!(
        ErrorKind::UnexpectedEof(Needed::Size(1)).message(),
        "parser error: requires 1 more bytes"
    );
}
