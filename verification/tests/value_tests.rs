use fitparser::error::ErrorKind;
use fitparser::value::{decode_scalar_at, decode_value_at, BaseType, Scalar, Value};

#[test]
fn every_identifier_names_its_base_type() {
    let all = [
        (0x00u8, BaseType::Enum, 1usize),
        (0x01, BaseType::SInt8, 1),
        (0x02, BaseType::UInt8, 1),
        (0x83, BaseType::SInt16, 2),
        (0x84, BaseType::UInt16, 2),
        (0x85, BaseType::SInt32, 4),
        (0x86, BaseType::UInt32, 4),
        (0x07, BaseType::String, 1),
        (0x88, BaseType::Float32, 4),
        (0x89, BaseType::Float64, 8),
        (0x0A, BaseType::UInt8z, 1),
        (0x8B, BaseType::UInt16z, 2),
        (0x8C, BaseType::UInt32z, 4),
        (0x0D, BaseType::Byte, 1),
        (0x8E, BaseType::SInt64, 8),
        (0x8F, BaseType::UInt64, 8),
        (0x90, BaseType::UInt64z, 8),
    ];
    for (id, base_type, width) in all.iter() {
        assert_eq!(BaseType::from_id(*id), Some(*base_type));
        assert_eq!(base_type.id(), *id);
        assert_eq!(base_type.width(), *width);
    }
}

#[test]
fn unknown_identifiers_name_nothing() {
    assert_eq!(BaseType::from_id(0x03), None);
    assert_eq!(BaseType::from_id(0x11), None);
    assert_eq!(BaseType::from_id(0x80), None);
    assert_eq!(BaseType::from_id(0xFF), None);
}

#[test]
fn invalid_patterns_are_those_of_the_format() {
    assert_eq!(BaseType::Enum.invalid_pattern(), 0xFF);
    assert_eq!(BaseType::SInt8.invalid_pattern(), 0x7F);
    assert_eq!(BaseType::UInt8.invalid_pattern(), 0xFF);
    assert_eq!(BaseType::SInt16.invalid_pattern(), 0x7FFF);
    assert_eq!(BaseType::UInt16.invalid_pattern(), 0xFFFF);
    assert_eq!(BaseType::SInt32.invalid_pattern(), 0x7FFF_FFFF);
    assert_eq!(BaseType::UInt32.invalid_pattern(), 0xFFFF_FFFF);
    assert_eq!(BaseType::String.invalid_pattern(), 0);
    assert_eq!(BaseType::Float32.invalid_pattern(), 0xFFFF_FFFF);
    assert_eq!(BaseType::Float64.invalid_pattern(), u64::MAX);
    assert_eq!(BaseType::UInt8z.invalid_pattern(), 0);
    assert_eq!(BaseType::UInt16z.invalid_pattern(), 0);
    assert_eq!(BaseType::UInt32z.invalid_pattern(), 0);
    assert_eq!(BaseType::Byte.invalid_pattern(), 0xFF);
    assert_eq!(BaseType::SInt64.invalid_pattern(), 0x7FFF_FFFF_FFFF_FFFF);
    assert_eq!(BaseType::UInt64.invalid_pattern(), u64::MAX);
    assert_eq!(BaseType::UInt64z.invalid_pattern(), 0);
}

#[test]
fn one_byte_elements() {
    assert_eq!(decode_scalar_at(BaseType::Enum, false, &[0x05], 0), Scalar::Enum(5));
    assert_eq!(decode_scalar_at(BaseType::SInt8, false, &[0xFE], 0), Scalar::SInt8(-2));
    assert_eq!(decode_scalar_at(BaseType::SInt8, false, &[0x80], 0), Scalar::SInt8(-128));
    assert_eq!(decode_scalar_at(BaseType::UInt8, false, &[0x96], 0), Scalar::UInt8(150));
    assert_eq!(decode_scalar_at(BaseType::UInt8z, false, &[0x07], 0), Scalar::UInt8z(7));
    assert_eq!(decode_scalar_at(BaseType::Byte, false, &[0x00], 0), Scalar::Byte(0));
}

#[test]
fn little_endian_elements() {
    assert_eq!(decode_scalar_at(BaseType::SInt16, false, &[0x00, 0x80], 0), Scalar::SInt16(-32768));
    assert_eq!(decode_scalar_at(BaseType::UInt16, false, &[0x34, 0x12], 0), Scalar::UInt16(0x1234));
    assert_eq!(
        decode_scalar_at(BaseType::SInt32, false, &[0xFE, 0xFF, 0xFF, 0xFF], 0),
        Scalar::SInt32(-2)
    );
    assert_eq!(
        decode_scalar_at(BaseType::UInt32, false, &[0x78, 0x56, 0x34, 0x12], 0),
        Scalar::UInt32(0x1234_5678)
    );
    assert_eq!(decode_scalar_at(BaseType::UInt16z, false, &[0x01, 0x00], 0), Scalar::UInt16z(1));
    assert_eq!(
        decode_scalar_at(BaseType::UInt32z, false, &[0x01, 0x00, 0x00, 0x00], 0),
        Scalar::UInt32z(1)
    );
    assert_eq!(decode_scalar_at(BaseType::SInt64, false, &[0xFF; 8], 0), Scalar::SInt64(-1));
    assert_eq!(
        decode_scalar_at(BaseType::SInt64, false, &[0, 0, 0, 0, 0, 0, 0, 0x80], 0),
        Scalar::SInt64(i64::MIN)
    );
    assert_eq!(
        decode_scalar_at(BaseType::UInt64, false, &[0x08, 0x07, 0x06, 0x05, 0x04, 0x03, 0x02, 0x01], 0),
        Scalar::UInt64(0x0102_0304_0506_0708)
    );
    assert_eq!(
        decode_scalar_at(BaseType::UInt64z, false, &[0x02, 0, 0, 0, 0, 0, 0, 0], 0),
        Scalar::UInt64z(2)
    );
}

#[test]
fn big_endian_elements() {
    assert_eq!(decode_scalar_at(BaseType::SInt16, true, &[0x80, 0x00], 0), Scalar::SInt16(-32768));
    assert_eq!(decode_scalar_at(BaseType::UInt16, true, &[0x34, 0x12], 0), Scalar::UInt16(0x3412));
    assert_eq!(
        decode_scalar_at(BaseType::UInt32, true, &[0x78, 0x56, 0x34, 0x12], 0),
        Scalar::UInt32(0x7856_3412)
    );
    assert_eq!(
        decode_scalar_at(BaseType::UInt64, true, &[0x08, 0x07, 0x06, 0x05, 0x04, 0x03, 0x02, 0x01], 0),
        Scalar::UInt64(0x0807_0605_0403_0201)
    );
    assert_eq!(
        decode_scalar_at(BaseType::SInt32, true, &[0xFF, 0xFF, 0xFF, 0xFE], 0),
        Scalar::SInt32(-2)
    );
}

#[test]
fn floating_point_elements_keep_their_bits() {
    let one_and_a_half = decode_scalar_at(BaseType::Float32, false, &1.5f32.to_le_bytes(), 0);
    assert_eq!(one_and_a_half, Scalar::Float32(0x3FC0_0000));
    match one_and_a_half {
        Scalar::Float32(bits) => assert_eq!(f32::from_bits(bits), 1.5f32),
        other => panic!("unexpected element {:?}", other),
    }
    let minus_two = decode_scalar_at(BaseType::Float64, true, &(-2.0f64).to_be_bytes(), 0);
    assert_eq!(minus_two, Scalar::Float64(0xC000_0000_0000_0000));
    match minus_two {
        Scalar::Float64(bits) => assert_eq!(f64::from_bits(bits), -2.0f64),
        other => panic!("unexpected element {:?}", other),
    }
}

#[test]
fn elements_are_read_at_their_offset() {
    let bytes = [0xAA, 0xBB, 0x34, 0x12, 0xCC];
    assert_eq!(decode_scalar_at(BaseType::UInt16, false, &bytes, 2), Scalar::UInt16(0x1234));
    assert_eq!(decode_scalar_at(BaseType::UInt8, false, &bytes, 4), Scalar::UInt8(0xCC));
}

#[test]
fn invalid_patterns_decode_to_invalid() {
    assert_eq!(decode_scalar_at(BaseType::Enum, false, &[0xFF], 0), Scalar::Invalid);
    assert_eq!(decode_scalar_at(BaseType::SInt8, false, &[0x7F], 0), Scalar::Invalid);
    assert_eq!(decode_scalar_at(BaseType::UInt8, false, &[0xFF], 0), Scalar::Invalid);
    assert_eq!(decode_scalar_at(BaseType::SInt16, false, &[0xFF, 0x7F], 0), Scalar::Invalid);
    assert_eq!(decode_scalar_at(BaseType::SInt16, true, &[0x7F, 0xFF], 0), Scalar::Invalid);
    assert_eq!(decode_scalar_at(BaseType::UInt16, false, &[0xFF, 0xFF], 0), Scalar::Invalid);
    assert_eq!(decode_scalar_at(BaseType::SInt32, false, &[0xFF, 0xFF, 0xFF, 0x7F], 0), Scalar::Invalid);
    assert_eq!(decode_scalar_at(BaseType::UInt32, false, &[0xFF; 4], 0), Scalar::Invalid);
    assert_eq!(decode_scalar_at(BaseType::Float32, false, &[0xFF; 4], 0), Scalar::Invalid);
    assert_eq!(decode_scalar_at(BaseType::Float64, false, &[0xFF; 8], 0), Scalar::Invalid);
    assert_eq!(decode_scalar_at(BaseType::UInt8z, false, &[0x00], 0), Scalar::Invalid);
    assert_eq!(decode_scalar_at(BaseType::UInt16z, false, &[0x00, 0x00], 0), Scalar::Invalid);
    assert_eq!(decode_scalar_at(BaseType::UInt32z, false, &[0x00; 4], 0), Scalar::Invalid);
    assert_eq!(decode_scalar_at(BaseType::Byte, false, &[0xFF], 0), Scalar::Invalid);
    assert_eq!(
        decode_scalar_at(BaseType::SInt64, false, &[0xFF, 0xFF, 0xFF, 0xFF, 0xFF, 0xFF, 0xFF, 0x7F], 0),
        Scalar::Invalid
    );
    assert_eq!(decode_scalar_at(BaseType::UInt64, false, &[0xFF; 8], 0), Scalar::Invalid);
    assert_eq!(decode_scalar_at(BaseType::UInt64z, false, &[0x00; 8], 0), Scalar::Invalid);
}

#[test]
fn invalid_is_not_zero() {
    assert_eq!(decode_scalar_at(BaseType::UInt16, false, &[0x00, 0x00], 0), Scalar::UInt16(0));
    assert_ne!(Scalar::UInt16(0), Scalar::Invalid);
    assert_ne!(Value::Single(Scalar::UInt8(0)), Value::Single(Scalar::Invalid));
    // An unsigned 16-bit field with all bits set is invalid, not 65535.
    assert_eq!(
        decode_value_at(BaseType::UInt16, false, &[0xFF, 0xFF], 0, 2),
        Ok(Value::Single(Scalar::Invalid))
    );
    // Almost the pattern is a number like any other.
    assert_eq!(decode_scalar_at(BaseType::UInt16, false, &[0xFE, 0xFF], 0), Scalar::UInt16(65534));
    assert_eq!(decode_scalar_at(BaseType::SInt8, false, &[0xFF], 0), Scalar::SInt8(-1));
}

#[test]
fn byte_order_changes_wide_elements_only() {
    let bytes = [0x12, 0x34, 0x56, 0x78];
    assert_eq!(decode_scalar_at(BaseType::UInt32, false, &bytes, 0), Scalar::UInt32(0x7856_3412));
    assert_eq!(decode_scalar_at(BaseType::UInt32, true, &bytes, 0), Scalar::UInt32(0x1234_5678));
    assert_ne!(
        decode_scalar_at(BaseType::UInt16, false, &bytes, 0),
        decode_scalar_at(BaseType::UInt16, true, &bytes, 0)
    );
    for base_type in [BaseType::Enum, BaseType::SInt8, BaseType::UInt8, BaseType::UInt8z, BaseType::Byte] {
        assert_eq!(
            decode_value_at(base_type, false, &bytes, 0, 4),
            decode_value_at(base_type, true, &bytes, 0, 4)
        );
        assert_eq!(
            decode_scalar_at(base_type, false, &bytes, 1),
            decode_scalar_at(base_type, true, &bytes, 1)
        );
    }
    assert_eq!(
        decode_value_at(BaseType::String, false, b"ab\0", 0, 3),
        decode_value_at(BaseType::String, true, b"ab\0", 0, 3)
    );
}

#[test]
fn bytes_that_read_the_same_both_ways_have_no_order() {
    let bytes = [0x12, 0x34, 0x34, 0x12];
    assert_eq!(
        decode_scalar_at(BaseType::UInt32, false, &bytes, 0),
        decode_scalar_at(BaseType::UInt32, true, &bytes, 0)
    );
}

#[test]
fn a_field_as_wide_as_its_type_is_single() {
    assert_eq!(
        decode_value_at(BaseType::UInt32, false, &[0x78, 0x56, 0x34, 0x12], 0, 4),
        Ok(Value::Single(Scalar::UInt32(0x1234_5678)))
    );
}

#[test]
fn a_wider_field_is_an_array() {
    assert_eq!(
        decode_value_at(BaseType::UInt16, false, &[0x01, 0x00, 0xFF, 0xFF, 0x03, 0x00], 0, 6),
        Ok(Value::Array(vec![Scalar::UInt16(1), Scalar::Invalid, Scalar::UInt16(3)]))
    );
    assert_eq!(
        decode_value_at(BaseType::UInt16, true, &[0x00, 0x01, 0x00, 0x02], 0, 4),
        Ok(Value::Array(vec![Scalar::UInt16(1), Scalar::UInt16(2)]))
    );
    assert_eq!(
        decode_value_at(BaseType::Byte, false, &[0xEE, 0x01, 0x02, 0xFF], 1, 3),
        Ok(Value::Array(vec![Scalar::Byte(1), Scalar::Byte(2), Scalar::Invalid]))
    );
}

#[test]
fn an_empty_field_is_an_empty_array() {
    assert_eq!(decode_value_at(BaseType::UInt16, false, &[0x01], 1, 0), Ok(Value::Array(vec![])));
}

#[test]
fn a_size_that_the_width_does_not_divide_is_a_value_error() {
    let expected = Err(ErrorKind::ValueError(
        "field size is not a multiple of the base type size".to_string(),
    ));
    assert_eq!(decode_value_at(BaseType::UInt16, false, &[1, 2, 3], 0, 3), expected);
    assert_eq!(decode_value_at(BaseType::UInt32, false, &[1, 2, 3, 4, 5, 6], 0, 6), expected);
    assert_eq!(decode_value_at(BaseType::Float64, true, &[1, 2, 3, 4], 0, 4), expected);
    assert_eq!(decode_value_at(BaseType::UInt16, false, &[1], 0, 1), expected);
}

#[test]
fn strings_end_at_the_first_null_byte() {
    assert_eq!(
        decode_value_at(BaseType::String, false, b"abc\0de", 0, 6),
        Ok(Value::String(b"abc".to_vec()))
    );
    assert_eq!(
        decode_value_at(BaseType::String, false, b"abc", 0, 3),
        Ok(Value::String(b"abc".to_vec()))
    );
    assert_eq!(
        decode_value_at(BaseType::String, false, b"xxabc\0", 2, 4),
        Ok(Value::String(b"abc".to_vec()))
    );
}

#[test]
fn an_empty_string_is_invalid() {
    assert_eq!(
        decode_value_at(BaseType::String, false, b"\0abc", 0, 4),
        Ok(Value::Single(Scalar::Invalid))
    );
    assert_eq!(decode_value_at(BaseType::String, false, b"abc", 0, 0), Ok(Value::Single(Scalar::Invalid)));
}

#[test]
fn text_tells_invalid_from_zero() {
    assert_eq!(Scalar::Invalid.text(), "invalid");
    assert_eq!(Scalar::UInt8(0).text(), "0");
    assert_eq!(Scalar::UInt16z(0).text(), "0");
    assert_eq!(Scalar::Float32(0).text(), "0x0");
    assert_ne!(Scalar::UInt16(0).text(), Scalar::Invalid.text());
    assert_eq!(Value::Single(Scalar::Invalid).text(), "invalid");
    assert_eq!(Value::Single(Scalar::SInt32(0)).text(), "0");
    assert!(Scalar::Invalid.is_invalid());
    assert!(!Scalar::UInt8(0).is_invalid());
    assert!(Value::Single(Scalar::Invalid).is_invalid());
    assert!(!Value::Single(Scalar::UInt8(0)).is_invalid());
    assert!(!Value::Array(vec![Scalar::Invalid]).is_invalid());
}

#[test]
fn elements_read_as_their_numbers() {
    assert_eq!(Scalar::Enum(5).text(), "5");
    assert_eq!(Scalar::SInt8(-2).text(), "-2");
    assert_eq!(Scalar::SInt8(-128).text(), "-128");
    assert_eq!(Scalar::UInt8(150).text(), "150");
    assert_eq!(Scalar::SInt16(-32768).text(), "-32768");
    assert_eq!(Scalar::UInt16(65535).text(), "65535");
    assert_eq!(Scalar::SInt32(i32::MIN).text(), i32::MIN.to_string());
    assert_eq!(Scalar::UInt32(u32::MAX).text(), u32::MAX.to_string());
    assert_eq!(Scalar::SInt64(i64::MIN).text(), i64::MIN.to_string());
    assert_eq!(Scalar::SInt64(i64::MAX).text(), i64::MAX.to_string());
    assert_eq!(Scalar::UInt64(u64::MAX).text(), u64::MAX.to_string());
    assert_eq!(Scalar::UInt64z(10).text(), "10");
    assert_eq!(Scalar::UInt8z(9).text(), "9");
    assert_eq!(Scalar::UInt32z(1000).text(), "1000");
    assert_eq!(Scalar::Byte(255).text(), "255");
    assert_eq!(Scalar::Float32(1.5f32.to_bits()).text(), "0x3fc00000");
    assert_eq!(Scalar::Float64((-2.0f64).to_bits()).text(), "0xc000000000000000");
}

#[test]
fn values_read_as_their_elements() {
    assert_eq!(Value::Array(vec![]).text(), "[]");
    assert_eq!(Value::Array(vec![Scalar::UInt16(1)]).text(), "[1]");
    assert_eq!(
        Value::Array(vec![Scalar::UInt16(1), Scalar::Invalid, Scalar::UInt16(0)]).text(),
        "[1, invalid, 0]"
    );
    assert_eq!(Value::String(b"abc".to_vec()).text(), "string [97, 98, 99]");
    assert_eq!(Value::String(vec![]).text(), "string []");
    assert_eq!(Value::String(vec![200]).text(), "string [200]");
}
