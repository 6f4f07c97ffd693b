use fitparser::crc::calculate_crc;
use fitparser::decoder::{decode, decode_body, Decoded};
use fitparser::error::{ErrorKind, FitObject, Needed, ParseErrorKind};
use fitparser::header::FitHeader;
use fitparser::record::{DataField, DataRecord, DecodedRecord};
use fitparser::definition::{Definition, FieldDefinition};
use fitparser::value::{BaseType, Scalar, Value};

fn header_bytes(data_size: u32) -> Vec<u8> {
    let mut bytes = vec![14, 0x10, 0x43, 0x08];
    bytes.extend_from_slice(&data_size.to_le_bytes());
    bytes.extend_from_slice(b".FIT");
    let crc = calculate_crc(&bytes);
    bytes.extend_from_slice(&crc.to_le_bytes());
    bytes
}

fn header_of(file: &[u8]) -> FitHeader {
    FitHeader {
        header_size: file[0],
        protocol_version: file[1],
        profile_version: u16::from_le_bytes([file[2], file[3]]),
        data_size: u32::from_le_bytes([file[4], file[5], file[6], file[7]]),
        crc: if file[0] == 14 { Some(u16::from_le_bytes([file[12], file[13]])) } else { None },
    }
}

fn file_of(records: &[u8]) -> Vec<u8> {
    let mut bytes = header_bytes(records.len() as u32);
    bytes.extend_from_slice(records);
    let crc = calculate_crc(&bytes);
    bytes.extend_from_slice(&crc.to_le_bytes());
    bytes
}

fn definition_bytes(local: u8, big_endian: bool, global: u16, fields: &[(u8, u8, u8)]) -> Vec<u8> {
    let mut bytes = vec![0x40 | local, 0x00, big_endian as u8];
    if big_endian {
        bytes.extend_from_slice(&global.to_be_bytes());
    } else {
        bytes.extend_from_slice(&global.to_le_bytes());
    }
    bytes.push(fields.len() as u8);
    for (number, size, id) in fields.iter() {
        bytes.extend_from_slice(&[*number, *size, *id]);
    }
    bytes
}

fn field(number: u8, value: Value) -> DataField {
    DataField { number, developer_index: None, value }
}

fn single(number: u8, element: Scalar) -> DataField {
    field(number, Value::Single(element))
}

fn ordered(bytes: &[u8], big_endian: bool) -> Vec<u8> {
    let mut bytes = bytes.to_vec();
    if big_endian {
        bytes.reverse();
    }
    bytes
}

// The bytes of an element, from its least significant byte up.
fn element_bytes(element: Scalar) -> Vec<u8> {
    match element {
        Scalar::Enum(v) | Scalar::UInt8(v) | Scalar::UInt8z(v) | Scalar::Byte(v) => vec![v],
        Scalar::SInt8(v) => v.to_le_bytes().to_vec(),
        Scalar::SInt16(v) => v.to_le_bytes().to_vec(),
        Scalar::UInt16(v) | Scalar::UInt16z(v) => v.to_le_bytes().to_vec(),
        Scalar::SInt32(v) => v.to_le_bytes().to_vec(),
        Scalar::UInt32(v) | Scalar::UInt32z(v) | Scalar::Float32(v) => v.to_le_bytes().to_vec(),
        Scalar::SInt64(v) => v.to_le_bytes().to_vec(),
        Scalar::UInt64(v) | Scalar::UInt64z(v) | Scalar::Float64(v) => v.to_le_bytes().to_vec(),
        Scalar::Invalid => panic!("the invalid element has no bytes of its own"),
    }
}

fn base_type_of(element: Scalar) -> BaseType {
    match element {
        Scalar::Enum(_) => BaseType::Enum,
        Scalar::SInt8(_) => BaseType::SInt8,
        Scalar::UInt8(_) => BaseType::UInt8,
        Scalar::SInt16(_) => BaseType::SInt16,
        Scalar::UInt16(_) => BaseType::UInt16,
        Scalar::SInt32(_) => BaseType::SInt32,
        Scalar::UInt32(_) => BaseType::UInt32,
        Scalar::Float32(_) => BaseType::Float32,
        Scalar::Float64(_) => BaseType::Float64,
        Scalar::UInt8z(_) => BaseType::UInt8z,
        Scalar::UInt16z(_) => BaseType::UInt16z,
        Scalar::UInt32z(_) => BaseType::UInt32z,
        Scalar::Byte(_) => BaseType::Byte,
        Scalar::SInt64(_) => BaseType::SInt64,
        Scalar::UInt64(_) => BaseType::UInt64,
        Scalar::UInt64z(_) => BaseType::UInt64z,
        Scalar::Invalid => panic!("the invalid element has no base type of its own"),
    }
}

// A definition on channel 0 with one field for each element, then one data message.
fn encode_record(elements: &[Scalar], big_endian: bool) -> Vec<u8> {
    let fields: Vec<(u8, u8, u8)> = elements
        .iter()
        .enumerate()
        .map(|(i, e)| (i as u8, base_type_of(*e).width() as u8, base_type_of(*e).id()))
        .collect();
    let mut records = definition_bytes(0, big_endian, 0xFF00, &fields);
    records.push(0x00);
    for element in elements.iter() {
        records.extend_from_slice(&ordered(&element_bytes(*element), big_endian));
    }
    records
}

fn decoded_elements(file: &[u8]) -> Vec<Value> {
    match decode(file) {
        Ok(decoded) => match &decoded.records[2] {
            DecodedRecord::Data(record) => record.fields.iter().map(|f| f.value.clone()).collect(),
            other => panic!("unexpected record {:?}", other),
        },
        Err(error) => panic!("unexpected error {:?}", error),
    }
}

fn activity() -> Vec<u8> {
    let mut records = definition_bytes(0, false, 20, &[(253, 4, 0x86), (3, 1, 0x02)]);
    records.extend_from_slice(&[0x00, 0x78, 0x56, 0x34, 0x12, 0x96]);
    records.extend_from_slice(&[0x00, 0x79, 0x56, 0x34, 0x12, 0x97]);
    records
}

fn activity_records(file: &[u8]) -> Vec<DecodedRecord> {
    vec![
        DecodedRecord::Header(header_of(file)),
        DecodedRecord::Definition(
            0,
            Definition {
                global_number: 20,
                big_endian: false,
                fields: vec![
                    FieldDefinition { number: 253, size: 4, base_type: BaseType::UInt32 },
                    FieldDefinition { number: 3, size: 1, base_type: BaseType::UInt8 },
                ],
                developer_fields: vec![],
            },
        ),
        DecodedRecord::Data(DataRecord {
            local_number: 0,
            global_number: 20,
            time_offset: None,
            fields: vec![single(253, Scalar::UInt32(0x1234_5678)), single(3, Scalar::UInt8(150))],
        }),
        DecodedRecord::Data(DataRecord {
            local_number: 0,
            global_number: 20,
            time_offset: None,
            fields: vec![single(253, Scalar::UInt32(0x1234_5679)), single(3, Scalar::UInt8(151))],
        }),
    ]
}

#[test]
fn a_file_decodes_to_its_header_and_records() {
    let file = file_of(&activity());
    assert_eq!(decode(&file), Ok(Decoded { records: activity_records(&file), trailing: 0 }));
    assert_eq!(decode(&file).unwrap().trailing_bytes(), None);
}

#[test]
fn a_file_with_a_header_of_twelve_bytes() {
    let records = activity();
    let mut file = vec![12, 0x10, 0x43, 0x08];
    file.extend_from_slice(&(records.len() as u32).to_le_bytes());
    file.extend_from_slice(b".FIT");
    file.extend_from_slice(&records);
    let crc = calculate_crc(&file);
    file.extend_from_slice(&crc.to_le_bytes());
    assert_eq!(decode(&file), Ok(Decoded { records: activity_records(&file), trailing: 0 }));
}

#[test]
fn a_file_without_records() {
    let file = file_of(&[]);
    assert_eq!(
        decode(&file),
        Ok(Decoded { records: vec![DecodedRecord::Header(header_of(&file))], trailing: 0 })
    );
}

#[test]
fn every_base_type_decodes_to_its_hand_computed_value() {
    let fields = [
        (0u8, 1u8, 0x00u8),
        (1, 1, 0x01),
        (2, 1, 0x02),
        (3, 2, 0x83),
        (4, 2, 0x84),
        (5, 4, 0x85),
        (6, 4, 0x86),
        (7, 6, 0x07),
        (8, 4, 0x88),
        (9, 8, 0x89),
        (10, 1, 0x0A),
        (11, 2, 0x8B),
        (12, 4, 0x8C),
        (13, 3, 0x0D),
        (14, 8, 0x8E),
        (15, 8, 0x8F),
        (16, 8, 0x90),
    ];
    let mut records = definition_bytes(0, false, 0xFF00, &fields);
    records.push(0x00);
    records.extend_from_slice(&[0x05]);
    records.extend_from_slice(&[0xFE]);
    records.extend_from_slice(&[0x96]);
    records.extend_from_slice(&[0x00, 0x80]);
    records.extend_from_slice(&[0x34, 0x12]);
    records.extend_from_slice(&[0xFE, 0xFF, 0xFF, 0xFF]);
    records.extend_from_slice(&[0x78, 0x56, 0x34, 0x12]);
    records.extend_from_slice(b"abc\0de");
    records.extend_from_slice(&[0x00, 0x00, 0xC0, 0x3F]);
    records.extend_from_slice(&[0x00, 0x00, 0x00, 0x00, 0x00, 0x00, 0x00, 0xC0]);
    records.extend_from_slice(&[0x07]);
    records.extend_from_slice(&[0x01, 0x00]);
    records.extend_from_slice(&[0x01, 0x00, 0x00, 0x00]);
    records.extend_from_slice(&[0x01, 0x02, 0xFF]);
    records.extend_from_slice(&[0xFF; 8]);
    records.extend_from_slice(&[0x01, 0x00, 0x00, 0x00, 0x00, 0x00, 0x00, 0x00]);
    records.extend_from_slice(&[0x02, 0x00, 0x00, 0x00, 0x00, 0x00, 0x00, 0x00]);
    let file = file_of(&records);
    assert_eq!(
        decoded_elements(&file),
        vec![
            Value::Single(Scalar::Enum(5)),
            Value::Single(Scalar::SInt8(-2)),
            Value::Single(Scalar::UInt8(150)),
            Value::Single(Scalar::SInt16(-32768)),
            Value::Single(Scalar::UInt16(0x1234)),
            Value::Single(Scalar::SInt32(-2)),
            Value::Single(Scalar::UInt32(0x1234_5678)),
            Value::String(b"abc".to_vec()),
            Value::Single(Scalar::Float32(1.5f32.to_bits())),
            Value::Single(Scalar::Float64((-2.0f64).to_bits())),
            Value::Single(Scalar::UInt8z(7)),
            Value::Single(Scalar::UInt16z(1)),
            Value::Single(Scalar::UInt32z(1)),
            Value::Array(vec![Scalar::Byte(1), Scalar::Byte(2), Scalar::Invalid]),
            Value::Single(Scalar::SInt64(-1)),
            Value::Single(Scalar::UInt64(1)),
            Value::Single(Scalar::UInt64z(2)),
        ]
    );
}

#[test]
fn what_is_written_is_read_back() {
    let elements = [
        Scalar::Enum(3),
        Scalar::SInt8(-100),
        Scalar::UInt8(200),
        Scalar::SInt16(-12345),
        Scalar::UInt16(54321),
        Scalar::SInt32(-123_456_789),
        Scalar::UInt32(3_000_000_000),
        Scalar::Float32(3.25f32.to_bits()),
        Scalar::Float64((-1.0e100f64).to_bits()),
        Scalar::UInt8z(1),
        Scalar::UInt16z(2),
        Scalar::UInt32z(3),
        Scalar::Byte(0),
        Scalar::SInt64(i64::MIN),
        Scalar::UInt64(u64::MAX - 1),
        Scalar::UInt64z(u64::MAX),
    ];
    let expected: Vec<Value> = elements.iter().map(|e| Value::Single(*e)).collect();
    for big_endian in [false, true] {
        let file = file_of(&encode_record(&elements, big_endian));
        assert_eq!(decoded_elements(&file), expected);
    }
}

#[test]
fn what_is_written_as_the_invalid_pattern_is_read_back_as_invalid() {
    let elements = [
        Scalar::UInt16(65535),
        Scalar::UInt16(0),
        Scalar::SInt16(32767),
        Scalar::UInt8(255),
        Scalar::SInt8(127),
        Scalar::UInt32z(0),
        Scalar::SInt64(i64::MAX),
        Scalar::Float32(u32::MAX),
        Scalar::UInt16(65534),
    ];
    let expected = vec![
        Value::Single(Scalar::Invalid),
        Value::Single(Scalar::UInt16(0)),
        Value::Single(Scalar::Invalid),
        Value::Single(Scalar::Invalid),
        Value::Single(Scalar::Invalid),
        Value::Single(Scalar::Invalid),
        Value::Single(Scalar::Invalid),
        Value::Single(Scalar::Invalid),
        Value::Single(Scalar::UInt16(65534)),
    ];
    for big_endian in [false, true] {
        let file = file_of(&encode_record(&elements, big_endian));
        assert_eq!(decoded_elements(&file), expected);
    }
}

#[test]
fn a_file_with_a_wrong_checksum_still_hands_out_its_records() {
    let good = file_of(&activity());
    let mut bad = good.clone();
    let last = bad.len() - 1;
    bad[last] ^= 0xFF;
    bad[last - 1] ^= 0x0F;
    let calculated = calculate_crc(&good[..good.len() - 2]);
    let stored = u16::from_le_bytes([bad[last - 1], bad[last]]);
    let result = decode(&bad);
    assert_eq!(
        result,
        Err(ErrorKind::InvalidCrc((
            vec![],
            FitObject::Records(activity_records(&good)),
            stored,
            calculated,
        )))
    );
    assert_ne!(stored, calculated);
    // The caller can accept the records anyway.
    match result.unwrap_err().recover() {
        Ok(FitObject::Records(records)) => assert_eq!(records, decode(&good).unwrap().records),
        other => panic!("unexpected outcome {:?}", other),
    }
}

#[test]
fn only_a_checksum_mismatch_can_be_recovered_from() {
    assert_eq!(
        ErrorKind::TrailingBytes(4).recover(),
        Err(ErrorKind::TrailingBytes(4))
    );
    assert_eq!(
        ErrorKind::MissingDeveloperDefinitionMessage().recover(),
        Err(ErrorKind::MissingDeveloperDefinitionMessage())
    );
    let header = header_of(&header_bytes(0));
    assert_eq!(
        ErrorKind::InvalidCrc((vec![1], FitObject::Header(header), 1, 2)).recover(),
        Ok(FitObject::Header(header))
    );
}

#[test]
fn a_file_with_a_wrong_header_checksum_can_be_decoded_from_the_header_on() {
    let mut file = file_of(&activity());
    file[12] ^= 0x55;
    let crc = calculate_crc(&file[..file.len() - 2]);
    let at = file.len() - 2;
    file[at..].copy_from_slice(&crc.to_le_bytes());
    let header = match decode(&file) {
        Err(ErrorKind::InvalidCrc((rest, FitObject::Header(header), stored, calculated))) => {
            assert_eq!(rest, file[14..].to_vec());
            assert_eq!(stored, u16::from_le_bytes([file[12], file[13]]));
            assert_eq!(calculated, calculate_crc(&file[..12]));
            assert_ne!(stored, calculated);
            header
        },
        other => panic!("unexpected outcome {:?}", other),
    };
    assert_eq!(header, header_of(&file));
    assert_eq!(
        decode_body(&file, header),
        Ok(Decoded { records: activity_records(&file), trailing: 0 })
    );
}

// A definition with two fields, of one and of two bytes, and `count` data
// messages of four bytes each; the header announces `announced` bytes of records.
fn short_messages(count: u8, announced: usize) -> Vec<u8> {
    let mut records = definition_bytes(0, false, 20, &[(1, 1, 0x02), (2, 2, 0x84)]);
    for i in 0..count {
        records.extend_from_slice(&[0x00, i, 0x02 + i, 0x03]);
    }
    let mut file = header_bytes(announced as u32);
    file.extend_from_slice(&records);
    let crc = calculate_crc(&file);
    file.extend_from_slice(&crc.to_le_bytes());
    file
}

fn short_message(i: u8) -> DecodedRecord {
    DecodedRecord::Data(DataRecord {
        local_number: 0,
        global_number: 20,
        time_offset: None,
        fields: vec![single(1, Scalar::UInt8(i)), single(2, Scalar::UInt16(0x0302 + i as u16))],
    })
}

#[test]
fn a_data_size_four_bytes_short_leaves_four_trailing_bytes() {
    // Three data messages are present; the header announces the definition
    // and the first two of them, four bytes less than there are.
    let present = 12 + 3 * 4;
    let file = short_messages(3, present - 4);
    assert_eq!(file.len(), 14 + present + 2);
    let decoded = decode(&file).unwrap();
    assert_eq!(decoded.trailing, 4);
    assert_eq!(decoded.trailing_bytes(), Some(ErrorKind::TrailingBytes(4)));
    assert_eq!(
        decoded.trailing_bytes().unwrap().message(),
        "4 bytes remain past expected EOF location"
    );
    // The records inside the announced size are all there, and no others.
    assert_eq!(decoded.records.len(), 4);
    assert_eq!(decoded.records[0], DecodedRecord::Header(header_of(&file)));
    assert_eq!(decoded.records[2], short_message(0));
    assert_eq!(decoded.records[3], short_message(1));
    // With the right data size the third message is a record like the others.
    let whole = decode(&short_messages(3, present)).unwrap();
    assert_eq!(whole.trailing, 0);
    assert_eq!(whole.trailing_bytes(), None);
    assert_eq!(whole.records.len(), 5);
    assert_eq!(whole.records[1..4], decoded.records[1..4]);
    assert_eq!(whole.records[4], short_message(2));
}

#[test]
fn bytes_left_over_are_counted_whatever_they_are() {
    for count in [1usize, 2, 3, 7, 300] {
        let records = activity();
        let mut file = header_bytes(records.len() as u32);
        file.extend_from_slice(&records);
        file.extend(std::iter::repeat(0xEE).take(count));
        let crc = calculate_crc(&file);
        file.extend_from_slice(&crc.to_le_bytes());
        let decoded = decode(&file).unwrap();
        assert_eq!(decoded.records, activity_records(&file));
        assert_eq!(decoded.trailing, count);
        assert_eq!(decoded.trailing_bytes(), Some(ErrorKind::TrailingBytes(count)));
    }
}

#[test]
fn the_checksum_covers_every_byte_before_it() {
    let records = activity();
    let mut file = header_bytes(records.len() as u32);
    file.extend_from_slice(&records);
    // The checksum of the header and the records alone, then bytes left over
    // and the checksum of everything: the last two bytes are what counts.
    let inner = calculate_crc(&file);
    file.extend_from_slice(&inner.to_le_bytes());
    let outer = calculate_crc(&file);
    file.extend_from_slice(&outer.to_le_bytes());
    let decoded = decode(&file).unwrap();
    assert_eq!(decoded.records, activity_records(&file));
    assert_eq!(decoded.trailing, 2);
}

#[test]
fn bytes_left_over_come_along_with_a_checksum_mismatch() {
    let present = 12 + 3 * 4;
    let mut file = short_messages(3, present - 4);
    let last = file.len() - 1;
    let calculated = u16::from_le_bytes([file[last - 1], file[last]]);
    file[last] ^= 0x80;
    let stored = u16::from_le_bytes([file[last - 1], file[last]]);
    match decode(&file) {
        Err(ErrorKind::InvalidCrc((rest, FitObject::Records(records), expected, found))) => {
            assert_eq!(rest, vec![0x00, 0x02, 0x04, 0x03]);
            assert_eq!(ErrorKind::TrailingBytes(rest.len()), ErrorKind::TrailingBytes(4));
            assert_eq!(records.len(), 4);
            assert_eq!(records[2], short_message(0));
            assert_eq!(records[3], short_message(1));
            assert_eq!(expected, stored);
            assert_eq!(found, calculated);
            assert_ne!(expected, found);
        },
        other => panic!("unexpected outcome {:?}", other),
    }
}

#[test]
fn a_file_cut_short_says_how_much_is_missing() {
    let file = file_of(&activity());
    let len = file.len();
    assert_eq!(decode(&file[..len - 1]), Err(ErrorKind::UnexpectedEof(Needed::Size(1))));
    assert_eq!(decode(&file[..len - 2]), Err(ErrorKind::UnexpectedEof(Needed::Size(2))));
    // Inside the last data message: its header and two of its five field bytes are there.
    assert_eq!(decode(&file[..len - 5]), Err(ErrorKind::UnexpectedEof(Needed::Size(2))));
    // Right before a record.
    assert_eq!(decode(&file[..len - 8]), Err(ErrorKind::UnexpectedEof(Needed::Size(1))));
    assert_eq!(decode(&file[..14]), Err(ErrorKind::UnexpectedEof(Needed::Size(1))));
    assert_eq!(decode(&file[..10]), Err(ErrorKind::UnexpectedEof(Needed::Size(4))));
    assert_eq!(decode(&[]), Err(ErrorKind::UnexpectedEof(Needed::Unknown)));
}

#[test]
fn a_record_may_not_run_past_the_announced_data_size() {
    let records = activity();
    let mut file = header_bytes(records.len() as u32 - 2);
    file.extend_from_slice(&records);
    let crc = calculate_crc(&file);
    file.extend_from_slice(&crc.to_le_bytes());
    // The last message's first field, of four bytes, has three of them inside.
    assert_eq!(decode(&file), Err(ErrorKind::UnexpectedEof(Needed::Size(1))));
}

#[test]
fn a_file_that_is_no_fit_file_is_rejected() {
    let mut file = file_of(&activity());
    file[8] = b'_';
    assert_eq!(decode(&file), Err(ErrorKind::ParseError(8, ParseErrorKind::Tag)));
    let mut file = file_of(&activity());
    file[0] = 13;
    assert_eq!(decode(&file), Err(ErrorKind::ParseError(0, ParseErrorKind::Verify)));
}

#[test]
fn errors_in_records_carry_their_position_in_the_file() {
    let mut records = activity();
    records.extend_from_slice(&[0x09, 0x00]);
    assert_eq!(decode(&file_of(&records)), Err(ErrorKind::MissingDefinitionMessage(9, 14 + 24)));
    let mut records = activity();
    records.extend_from_slice(&[0x41, 0x00, 0x02, 0x00, 0x00, 0x00]);
    assert_eq!(decode(&file_of(&records)), Err(ErrorKind::ParseError(14 + 26, ParseErrorKind::Verify)));
}

#[test]
fn decode_body_needs_the_header_to_be_there() {
    let file = file_of(&activity());
    let header = header_of(&file);
    assert_eq!(decode_body(&file[..5], header), Err(ErrorKind::UnexpectedEof(Needed::Size(9))));
    assert_eq!(decode_body(&file, header), decode(&file));
}
