use fitparser::crc::calculate_crc;
use fitparser::cursor::Cursor;
use fitparser::error::{ErrorKind, FitObject, Needed, ParseErrorKind};
use fitparser::header::{decode_header, FitHeader};

fn header_bytes(size: u8, data_size: u32) -> Vec<u8> {
    let mut bytes = vec![size, 0x10, 0x43, 0x08];
    bytes.extend_from_slice(&data_size.to_le_bytes());
    bytes.extend_from_slice(b".FIT");
    if size == 14 {
        let crc = calculate_crc(&bytes);
        bytes.extend_from_slice(&crc.to_le_bytes());
    }
    bytes
}

#[test]
fn a_header_of_twelve_bytes() {
    let bytes = header_bytes(12, 0x0102_0304);
    let mut cursor = Cursor::new(&bytes);
    let header = decode_header(&mut cursor);
    assert_eq!(
        header,
        Ok(FitHeader {
            header_size: 12,
            protocol_version: 0x10,
            profile_version: 0x0843,
            data_size: 0x0102_0304,
            crc: None,
        })
    );
    assert_eq!(cursor.position(), 12);
    assert_eq!(cursor.crc(), calculate_crc(&bytes));
}

#[test]
fn a_header_of_fourteen_bytes() {
    let bytes = header_bytes(14, 9);
    let stored = u16::from_le_bytes([bytes[12], bytes[13]]);
    let mut cursor = Cursor::new(&bytes);
    let header = decode_header(&mut cursor);
    assert_eq!(
        header,
        Ok(FitHeader {
            header_size: 14,
            protocol_version: 0x10,
            profile_version: 2115,
            data_size: 9,
            crc: Some(stored),
        })
    );
    assert_eq!(cursor.position(), 14);
    assert_eq!(cursor.remaining(), 0);
}

#[test]
fn a_header_with_a_wrong_checksum_is_handed_out_with_the_mismatch() {
    let mut bytes = header_bytes(14, 0);
    let calculated = u16::from_le_bytes([bytes[12], bytes[13]]);
    bytes[12] ^= 0x01;
    let stored = u16::from_le_bytes([bytes[12], bytes[13]]);
    bytes.extend_from_slice(&[0xAA, 0xBB, 0xCC]);
    let mut cursor = Cursor::new(&bytes);
    let expected_header = FitHeader {
        header_size: 14,
        protocol_version: 0x10,
        profile_version: 0x0843,
        data_size: 0,
        crc: Some(stored),
    };
    assert_eq!(
        decode_header(&mut cursor),
        Err(ErrorKind::InvalidCrc((
            vec![0xAA, 0xBB, 0xCC],
            FitObject::Header(expected_header),
            stored,
            calculated,
        )))
    );
    assert_ne!(stored, calculated);
    assert_eq!(cursor.position(), 14);
}

#[test]
fn an_empty_input_needs_an_unknown_amount() {
    let mut cursor = Cursor::new(&[]);
    assert_eq!(decode_header(&mut cursor), Err(ErrorKind::UnexpectedEof(Needed::Unknown)));
    assert_eq!(cursor.position(), 0);
}

#[test]
fn a_short_header_says_how_much_is_missing() {
    let bytes = header_bytes(14, 0);
    let mut cursor = Cursor::new(&bytes[..9]);
    assert_eq!(decode_header(&mut cursor), Err(ErrorKind::UnexpectedEof(Needed::Size(5))));
    assert_eq!(cursor.position(), 0);
    let mut cursor = Cursor::new(&bytes[..1]);
    assert_eq!(decode_header(&mut cursor), Err(ErrorKind::UnexpectedEof(Needed::Size(13))));
    let twelve = header_bytes(12, 0);
    let mut cursor = Cursor::new(&twelve[..11]);
    assert_eq!(decode_header(&mut cursor), Err(ErrorKind::UnexpectedEof(Needed::Size(1))));
}

#[test]
fn a_header_length_other_than_twelve_or_fourteen_is_rejected() {
    for size in [0u8, 11, 13, 15, 255] {
        let mut bytes = header_bytes(14, 0);
        bytes[0] = size;
        let mut cursor = Cursor::new(&bytes);
        assert_eq!(
            decode_header(&mut cursor),
            Err(ErrorKind::ParseError(0, ParseErrorKind::Verify))
        );
        assert_eq!(cursor.position(), 0);
    }
}

#[test]
fn a_wrong_signature_is_rejected() {
    for at in 8..12 {
        let mut bytes = header_bytes(12, 0);
        bytes[at] = b'x';
        let mut cursor = Cursor::new(&bytes);
        assert_eq!(decode_header(&mut cursor), Err(ErrorKind::ParseError(8, ParseErrorKind::Tag)));
        assert_eq!(cursor.position(), 0);
    }
}

#[test]
fn a_cursor_reads_forward_only() {
    let bytes = [1u8, 2, 3, 4, 5];
    let mut cursor = Cursor::new(&bytes);
    assert_eq!(cursor.position(), 0);
    assert_eq!(cursor.remaining(), 5);
    assert_eq!(cursor.limit(), 5);
    assert_eq!(cursor.data(), &bytes[..]);
    assert_eq!(cursor.read(2), Ok(&bytes[0..2]));
    assert_eq!(cursor.position(), 2);
    assert_eq!(cursor.crc(), calculate_crc(&bytes[..2]));
    assert_eq!(cursor.read_u8(), Ok(3));
    assert_eq!(cursor.read(0), Ok(&bytes[3..3]));
    assert_eq!(cursor.read(3), Err(ErrorKind::UnexpectedEof(Needed::Size(1))));
    assert_eq!(cursor.position(), 3);
    assert_eq!(cursor.read(2), Ok(&bytes[3..5]));
    assert_eq!(cursor.read_u8(), Err(ErrorKind::UnexpectedEof(Needed::Size(1))));
    assert_eq!(cursor.read(usize::MAX), Err(ErrorKind::UnexpectedEof(Needed::Size(usize::MAX))));
    assert_eq!(cursor.crc(), calculate_crc(&bytes));
}
