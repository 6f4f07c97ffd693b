//! Field values: the base types of the format and the values they decode to.

use vstd::prelude::*;
use vstd::arithmetic::div_mod::lemma_fundamental_div_mod;
use vstd::string::StringExecFns;
use crate::text::{
    append_decimal, append_hexadecimal, append_signed_decimal, decimal, hexadecimal,
    lemma_digit_is_one_character, signed_decimal,
};
use crate::endian::{lemma_pow256_values, read_unsigned, twos_complement, unsigned_value};
use crate::error::{ErrorKind, ErrorView};

verus! {

/// A base type: a primitive wire encoding with a width, a signedness and an
/// invalid-value pattern of its own.
#[derive(Clone, Copy, Debug, PartialEq, Eq, Structural)]
pub enum BaseType {
    Enum,
    SInt8,
    UInt8,
    SInt16,
    UInt16,
    SInt32,
    UInt32,
    String,
    Float32,
    Float64,
    UInt8z,
    UInt16z,
    UInt32z,
    Byte,
    SInt64,
    UInt64,
    UInt64z,
}

/// One decoded element of a field. Floating-point elements are kept as the
/// bit patterns of their IEEE 754 encodings.
#[derive(Clone, Copy, Debug, PartialEq, Eq, Structural)]
pub enum Scalar {
    Enum(u8),
    SInt8(i8),
    UInt8(u8),
    SInt16(i16),
    UInt16(u16),
    SInt32(i32),
    UInt32(u32),
    Float32(u32),
    Float64(u64),
    UInt8z(u8),
    UInt16z(u16),
    UInt32z(u32),
    Byte(u8),
    SInt64(i64),
    UInt64(u64),
    UInt64z(u64),
    /// The element held the invalid-value pattern of its base type.
    Invalid,
}

/// A decoded field.
#[derive(Clone, Debug, PartialEq, Eq)]
pub enum Value {
    /// A field of exactly one element.
    Single(Scalar),
    /// A field of several elements of one base type (or of none).
    Array(Vec<Scalar>),
    /// The bytes of a string field up to its first null byte.
    String(Vec<u8>),
}

/// What a [`Value`] holds, as mathematical values.
pub enum ValueView {
    Single(Scalar),
    Array(Seq<Scalar>),
    String(Seq<u8>),
}

impl View for Value {
    type V = ValueView;

    open spec fn view(&self) -> ValueView {
        match self {
            Value::Single(s) => ValueView::Single(*s),
            Value::Array(elements) => ValueView::Array(elements@),
            Value::String(bytes) => ValueView::String(bytes@),
        }
    }
}


/// The base type that an identifier byte of a field definition names, if any.
pub open spec fn base_type_of(id: u8) -> Option<BaseType> {
    if id == 0x00 {
        Some(BaseType::Enum)
    } else if id == 0x01 {
        Some(BaseType::SInt8)
    } else if id == 0x02 {
        Some(BaseType::UInt8)
    } else if id == 0x83 {
        Some(BaseType::SInt16)
    } else if id == 0x84 {
        Some(BaseType::UInt16)
    } else if id == 0x85 {
        Some(BaseType::SInt32)
    } else if id == 0x86 {
        Some(BaseType::UInt32)
    } else if id == 0x07 {
        Some(BaseType::String)
    } else if id == 0x88 {
        Some(BaseType::Float32)
    } else if id == 0x89 {
        Some(BaseType::Float64)
    } else if id == 0x0A {
        Some(BaseType::UInt8z)
    } else if id == 0x8B {
        Some(BaseType::UInt16z)
    } else if id == 0x8C {
        Some(BaseType::UInt32z)
    } else if id == 0x0D {
        Some(BaseType::Byte)
    } else if id == 0x8E {
        Some(BaseType::SInt64)
    } else if id == 0x8F {
        Some(BaseType::UInt64)
    } else if id == 0x90 {
        Some(BaseType::UInt64z)
    } else {
        None
    }
}

/// The identifier byte of a base type.
pub open spec fn id_of(base_type: BaseType) -> u8 {
    match base_type {
        BaseType::Enum => 0x00,
        BaseType::SInt8 => 0x01,
        BaseType::UInt8 => 0x02,
        BaseType::SInt16 => 0x83,
        BaseType::UInt16 => 0x84,
        BaseType::SInt32 => 0x85,
        BaseType::UInt32 => 0x86,
        BaseType::String => 0x07,
        BaseType::Float32 => 0x88,
        BaseType::Float64 => 0x89,
        BaseType::UInt8z => 0x0A,
        BaseType::UInt16z => 0x8B,
        BaseType::UInt32z => 0x8C,
        BaseType::Byte => 0x0D,
        BaseType::SInt64 => 0x8E,
        BaseType::UInt64 => 0x8F,
        BaseType::UInt64z => 0x90,
    }
}

/// The width in bytes of one element of a base type.
pub open spec fn width_of(base_type: BaseType) -> nat {
    match base_type {
        BaseType::Enum => 1,
        BaseType::SInt8 => 1,
        BaseType::UInt8 => 1,
        BaseType::SInt16 => 2,
        BaseType::UInt16 => 2,
        BaseType::SInt32 => 4,
        BaseType::UInt32 => 4,
        BaseType::String => 1,
        BaseType::Float32 => 4,
        BaseType::Float64 => 8,
        BaseType::UInt8z => 1,
        BaseType::UInt16z => 2,
        BaseType::UInt32z => 4,
        BaseType::Byte => 1,
        BaseType::SInt64 => 8,
        BaseType::UInt64 => 8,
        BaseType::UInt64z => 8,
    }
}

/// The invalid-value pattern of a base type, as the unsigned number that its
/// bytes spell: all bits set for the unsigned and floating-point types, the
/// largest positive number for the signed ones, zero for strings and for the
/// types whose name ends in `z`.
pub open spec fn sentinel_of(base_type: BaseType) -> nat {
    match base_type {
        BaseType::Enum => 0xFF,
        BaseType::SInt8 => 0x7F,
        BaseType::UInt8 => 0xFF,
        BaseType::SInt16 => 0x7FFF,
        BaseType::UInt16 => 0xFFFF,
        BaseType::SInt32 => 0x7FFF_FFFF,
        BaseType::UInt32 => 0xFFFF_FFFF,
        BaseType::String => 0x00,
        BaseType::Float32 => 0xFFFF_FFFF,
        BaseType::Float64 => 0xFFFF_FFFF_FFFF_FFFF,
        BaseType::UInt8z => 0x00,
        BaseType::UInt16z => 0x0000,
        BaseType::UInt32z => 0x0000_0000,
        BaseType::Byte => 0xFF,
        BaseType::SInt64 => 0x7FFF_FFFF_FFFF_FFFF,
        BaseType::UInt64 => 0xFFFF_FFFF_FFFF_FFFF,
        BaseType::UInt64z => 0x0000_0000_0000_0000,
    }
}

/// The element that the unsigned number `raw`, read from as many bytes as
/// the base type is wide, stands for. A string has no elements of its own:
/// its bytes are text.
pub open spec fn scalar_of(base_type: BaseType, raw: nat) -> Scalar {
    if raw == sentinel_of(base_type) {
        Scalar::Invalid
    } else {
        match base_type {
            BaseType::Enum => Scalar::Enum(raw as u8),
            BaseType::SInt8 => Scalar::SInt8(twos_complement(raw, 1) as i8),
            BaseType::UInt8 => Scalar::UInt8(raw as u8),
            BaseType::SInt16 => Scalar::SInt16(twos_complement(raw, 2) as i16),
            BaseType::UInt16 => Scalar::UInt16(raw as u16),
            BaseType::SInt32 => Scalar::SInt32(twos_complement(raw, 4) as i32),
            BaseType::UInt32 => Scalar::UInt32(raw as u32),
            BaseType::String => Scalar::Byte(raw as u8),
            BaseType::Float32 => Scalar::Float32(raw as u32),
            BaseType::Float64 => Scalar::Float64(raw as u64),
            BaseType::UInt8z => Scalar::UInt8z(raw as u8),
            BaseType::UInt16z => Scalar::UInt16z(raw as u16),
            BaseType::UInt32z => Scalar::UInt32z(raw as u32),
            BaseType::Byte => Scalar::Byte(raw as u8),
            BaseType::SInt64 => Scalar::SInt64(twos_complement(raw, 8) as i64),
            BaseType::UInt64 => Scalar::UInt64(raw as u64),
            BaseType::UInt64z => Scalar::UInt64z(raw as u64),
        }
    }
}

/// The element that `bytes` hold, read in the given byte order.
pub open spec fn decode_scalar(base_type: BaseType, big_endian: bool, bytes: Seq<u8>) -> Scalar {
    scalar_of(base_type, unsigned_value(bytes, big_endian))
}

/// The number of bytes of `bytes` before its first null byte.
pub open spec fn text_len(bytes: Seq<u8>) -> nat
    decreases bytes.len(),
{
    if bytes.len() == 0 || bytes[0] == 0 {
        0
    } else {
        1 + text_len(bytes.drop_first())
    }
}

/// The elements of an array field: `bytes` cut into pieces of the base type's
/// width, each decoded on its own.
pub open spec fn decode_elements(base_type: BaseType, big_endian: bool, bytes: Seq<u8>) -> Seq<
    Scalar,
> {
    let width = width_of(base_type) as int;
    Seq::new(
        (bytes.len() / width as nat) as nat,
        |i: int| decode_scalar(base_type, big_endian, bytes.subrange(i * width, i * width + width)),
    )
}

/// The text of the error for a field whose size its base type does not divide.
pub open spec fn layout_message() -> Seq<char> {
    "field size is not a multiple of the base type size"@
}

/// The value of a field whose bytes on the wire are `bytes`.
///
/// A string is its bytes up to the first null byte, and invalid when that
/// leaves nothing. A field as wide as its base type is a single element; any
/// other whole number of elements is an array; a size that the width does not
/// divide is an error.
pub open spec fn decode_value(base_type: BaseType, big_endian: bool, bytes: Seq<u8>) -> Result<
    ValueView,
    ErrorView,
> {
    if base_type == BaseType::String {
        if text_len(bytes) == 0 {
            Ok(ValueView::Single(Scalar::Invalid))
        } else {
            Ok(ValueView::String(bytes.take(text_len(bytes) as int)))
        }
    } else if bytes.len() % width_of(base_type) != 0 {
        Err(ErrorView::ValueError(layout_message()))
    } else if bytes.len() == width_of(base_type) {
        Ok(ValueView::Single(decode_scalar(base_type, big_endian, bytes)))
    } else {
        Ok(ValueView::Array(decode_elements(base_type, big_endian, bytes)))
    }
}

/// Whether an exec result carries what a spec result says.
pub open spec fn value_result_is(
    result: Result<Value, ErrorKind>,
    expected: Result<ValueView, ErrorView>,
) -> bool {
    match result {
        Ok(value) => expected == Ok::<ValueView, ErrorView>(value@),
        Err(error) => expected == Err::<ValueView, ErrorView>(error@),
    }
}

/// Every identifier names the base type that it is the identifier of.
pub proof fn lemma_id_round_trip(base_type: BaseType)
    ensures
        base_type_of(id_of(base_type)) == Some(base_type),
{
}

/// If the first `k` bytes are not null and the next one is, or there is none,
/// the text is `k` bytes long.
pub proof fn lemma_text_len(bytes: Seq<u8>, k: nat)
    requires
        k <= bytes.len(),
        forall|j: int| 0 <= j < k ==> bytes[j] != 0,
        k == bytes.len() || bytes[k as int] == 0,
    ensures
        text_len(bytes) == k,
    decreases k,
{
    if k > 0 {
        let rest = bytes.drop_first();
        assert forall|j: int| 0 <= j < k - 1 implies rest[j] != 0 by {
            assert(rest[j] == bytes[j + 1]);
        }
        lemma_text_len(rest, (k - 1) as nat);
    }
}

impl BaseType {
    /// The base type that an identifier byte names.
    pub fn from_id(id: u8) -> (found: Option<BaseType>)
        ensures
            found == base_type_of(id),
    {
        if id == 0x00 {
            Some(BaseType::Enum)
        } else if id == 0x01 {
            Some(BaseType::SInt8)
        } else if id == 0x02 {
            Some(BaseType::UInt8)
        } else if id == 0x83 {
            Some(BaseType::SInt16)
        } else if id == 0x84 {
            Some(BaseType::UInt16)
        } else if id == 0x85 {
            Some(BaseType::SInt32)
        } else if id == 0x86 {
            Some(BaseType::UInt32)
        } else if id == 0x07 {
            Some(BaseType::String)
        } else if id == 0x88 {
            Some(BaseType::Float32)
        } else if id == 0x89 {
            Some(BaseType::Float64)
        } else if id == 0x0A {
            Some(BaseType::UInt8z)
        } else if id == 0x8B {
            Some(BaseType::UInt16z)
        } else if id == 0x8C {
            Some(BaseType::UInt32z)
        } else if id == 0x0D {
            Some(BaseType::Byte)
        } else if id == 0x8E {
            Some(BaseType::SInt64)
        } else if id == 0x8F {
            Some(BaseType::UInt64)
        } else if id == 0x90 {
            Some(BaseType::UInt64z)
        } else {
            None
        }
    }

    /// The identifier byte of the base type.
    pub fn id(self) -> (id: u8)
        ensures
            id == id_of(self),
    {
        match self {
            BaseType::Enum => 0x00,
            BaseType::SInt8 => 0x01,
            BaseType::UInt8 => 0x02,
            BaseType::SInt16 => 0x83,
            BaseType::UInt16 => 0x84,
            BaseType::SInt32 => 0x85,
            BaseType::UInt32 => 0x86,
            BaseType::String => 0x07,
            BaseType::Float32 => 0x88,
            BaseType::Float64 => 0x89,
            BaseType::UInt8z => 0x0A,
            BaseType::UInt16z => 0x8B,
            BaseType::UInt32z => 0x8C,
            BaseType::Byte => 0x0D,
            BaseType::SInt64 => 0x8E,
            BaseType::UInt64 => 0x8F,
            BaseType::UInt64z => 0x90,
        }
    }

    /// The width in bytes of one element.
    pub fn width(self) -> (width: usize)
        ensures
            width == width_of(self),
            width == 1 || width == 2 || width == 4 || width == 8,
    {
        match self {
            BaseType::Enum => 1,
            BaseType::SInt8 => 1,
            BaseType::UInt8 => 1,
            BaseType::SInt16 => 2,
            BaseType::UInt16 => 2,
            BaseType::SInt32 => 4,
            BaseType::UInt32 => 4,
            BaseType::String => 1,
            BaseType::Float32 => 4,
            BaseType::Float64 => 8,
            BaseType::UInt8z => 1,
            BaseType::UInt16z => 2,
            BaseType::UInt32z => 4,
            BaseType::Byte => 1,
            BaseType::SInt64 => 8,
            BaseType::UInt64 => 8,
            BaseType::UInt64z => 8,
        }
    }

    /// The invalid-value pattern, as the unsigned number that its bytes spell.
    pub fn invalid_pattern(self) -> (pattern: u64)
        ensures
            pattern == sentinel_of(self),
    {
        match self {
            BaseType::Enum => 0xFF,
            BaseType::SInt8 => 0x7F,
            BaseType::UInt8 => 0xFF,
            BaseType::SInt16 => 0x7FFF,
            BaseType::UInt16 => 0xFFFF,
            BaseType::SInt32 => 0x7FFF_FFFF,
            BaseType::UInt32 => 0xFFFF_FFFF,
            BaseType::String => 0x00,
            BaseType::Float32 => 0xFFFF_FFFF,
            BaseType::Float64 => 0xFFFF_FFFF_FFFF_FFFF,
            BaseType::UInt8z => 0x00,
            BaseType::UInt16z => 0x0000,
            BaseType::UInt32z => 0x0000_0000,
            BaseType::Byte => 0xFF,
            BaseType::SInt64 => 0x7FFF_FFFF_FFFF_FFFF,
            BaseType::UInt64 => 0xFFFF_FFFF_FFFF_FFFF,
            BaseType::UInt64z => 0x0000_0000_0000_0000,
        }
    }
}

fn signed8(raw: u64) -> (value: i8)
    requires
        raw < 0x100,
    ensures
        value == twos_complement(raw as nat, 1),
{
    proof {
        lemma_pow256_values();
    }
    if raw < 0x80 {
        raw as i8
    } else {
        (raw as i64 - 0x100) as i8
    }
}

fn signed16(raw: u64) -> (value: i16)
    requires
        raw < 0x1_0000,
    ensures
        value == twos_complement(raw as nat, 2),
{
    proof {
        lemma_pow256_values();
    }
    if raw < 0x8000 {
        raw as i16
    } else {
        (raw as i64 - 0x1_0000) as i16
    }
}

fn signed32(raw: u64) -> (value: i32)
    requires
        raw < 0x1_0000_0000,
    ensures
        value == twos_complement(raw as nat, 4),
{
    proof {
        lemma_pow256_values();
    }
    if raw < 0x8000_0000 {
        raw as i32
    } else {
        (raw as i64 - 0x1_0000_0000) as i32
    }
}

fn signed64(raw: u64) -> (value: i64)
    ensures
        value == twos_complement(raw as nat, 8),
{
    proof {
        lemma_pow256_values();
    }
    if raw < 0x8000_0000_0000_0000 {
        raw as i64
    } else {
        (raw - 0x8000_0000_0000_0000) as i64 + i64::MIN
    }
}

/// Decodes the element of `base_type` that starts at `start`.
pub fn decode_scalar_at(base_type: BaseType, big_endian: bool, bytes: &[u8], start: usize) -> (scalar:
    Scalar)
    requires
        start + width_of(base_type) <= bytes@.len(),
    ensures
        scalar == decode_scalar(
            base_type,
            big_endian,
            bytes@.subrange(start as int, start + width_of(base_type)),
        ),
{
    let width = base_type.width();
    let raw = read_unsigned(bytes, start, width, big_endian);
    proof {
        lemma_pow256_values();
    }
    if raw == base_type.invalid_pattern() {
        Scalar::Invalid
    } else {
        match base_type {
            BaseType::Enum => Scalar::Enum(raw as u8),
            BaseType::SInt8 => Scalar::SInt8(signed8(raw)),
            BaseType::UInt8 => Scalar::UInt8(raw as u8),
            BaseType::SInt16 => Scalar::SInt16(signed16(raw)),
            BaseType::UInt16 => Scalar::UInt16(raw as u16),
            BaseType::SInt32 => Scalar::SInt32(signed32(raw)),
            BaseType::UInt32 => Scalar::UInt32(raw as u32),
            BaseType::String => Scalar::Byte(raw as u8),
            BaseType::Float32 => Scalar::Float32(raw as u32),
            BaseType::Float64 => Scalar::Float64(raw),
            BaseType::UInt8z => Scalar::UInt8z(raw as u8),
            BaseType::UInt16z => Scalar::UInt16z(raw as u16),
            BaseType::UInt32z => Scalar::UInt32z(raw as u32),
            BaseType::Byte => Scalar::Byte(raw as u8),
            BaseType::SInt64 => Scalar::SInt64(signed64(raw)),
            BaseType::UInt64 => Scalar::UInt64(raw),
            BaseType::UInt64z => Scalar::UInt64z(raw),
        }
    }
}

/// Decodes the field of `size` bytes that starts at `start`.
pub fn decode_value_at(
    base_type: BaseType,
    big_endian: bool,
    bytes: &[u8],
    start: usize,
    size: usize,
) -> (result: Result<Value, ErrorKind>)
    requires
        start + size <= bytes@.len(),
    ensures
        value_result_is(
            result,
            decode_value(base_type, big_endian, bytes@.subrange(start as int, start + size)),
        ),
{
    let ghost field = bytes@.subrange(start as int, start + size);
    proof {
        assert(bytes@.len() == bytes.len());
    }
    if base_type == BaseType::String {
        let mut text: Vec<u8> = Vec::new();
        let mut i: usize = 0;
        while i < size && bytes[start + i] != 0
            invariant
                i <= size,
                start + size <= bytes@.len() <= usize::MAX,
                field == bytes@.subrange(start as int, start + size),
                text@ == field.take(i as int),
                forall|j: int| 0 <= j < i ==> field[j] != 0,
            decreases size - i,
        {
            text.push(bytes[start + i]);
            proof {
                assert(field.take(i as int).push(field[i as int]) =~= field.take(i + 1));
            }
            i = i + 1;
        }
        proof {
            lemma_text_len(field, i as nat);
        }
        if i == 0 {
            Ok(Value::Single(Scalar::Invalid))
        } else {
            Ok(Value::String(text))
        }
    } else {
        let width = base_type.width();
        if size % width != 0 {
            Err(ErrorKind::ValueError("field size is not a multiple of the base type size".to_owned()))
        } else if size == width {
            proof {
                assert(field =~= bytes@.subrange(start as int, start + width));
            }
            Ok(Value::Single(decode_scalar_at(base_type, big_endian, bytes, start)))
        } else {
            let count = size / width;
            proof {
                lemma_fundamental_div_mod(size as int, width as int);
            }
            let mut elements: Vec<Scalar> = Vec::new();
            let mut i: usize = 0;
            let mut offset: usize = 0;
            while i < count
                invariant
                    i <= count,
                    width == width_of(base_type),
                    width > 0,
                    size == width * count,
                    offset == i * width,
                    start + size <= bytes@.len() <= usize::MAX,
                    field == bytes@.subrange(start as int, start + size),
                    elements@.len() == i,
                    forall|j: int|
                        0 <= j < i ==> elements@[j] == decode_scalar(
                            base_type,
                            big_endian,
                            #[trigger] field.subrange(j * width, j * width + width),
                        ),
                decreases count - i,
            {
                proof {
                    assert((i + 1) * width == i * width + width) by (nonlinear_arith);
                    assert((i + 1) * width <= width * count) by (nonlinear_arith)
                        requires
                            i + 1 <= count,
                            width > 0,
                    ;
                    assert(bytes@.subrange(start + offset, start + offset + width) =~= field.subrange(
                        i * width,
                        i * width + width,
                    ));
                }
                let element = decode_scalar_at(base_type, big_endian, bytes, start + offset);
                elements.push(element);
                i = i + 1;
                offset = offset + width;
            }
            proof {
                assert(field.len() / width as nat == count) by (nonlinear_arith)
                    requires
                        field.len() == width * count,
                        width > 0,
                ;
                assert(elements@ =~= decode_elements(base_type, big_endian, field));
            }
            Ok(Value::Array(elements))
        }
    }
}


/// An element as text: a number in decimal, a floating-point element as its
/// bit pattern in hexadecimal, and the invalid element as the word
/// `invalid`, which no number is written as.
pub open spec fn scalar_text(element: Scalar) -> Seq<char> {
    match element {
        Scalar::Enum(v) => decimal(v as nat),
        Scalar::SInt8(v) => signed_decimal(v as int),
        Scalar::UInt8(v) => decimal(v as nat),
        Scalar::SInt16(v) => signed_decimal(v as int),
        Scalar::UInt16(v) => decimal(v as nat),
        Scalar::SInt32(v) => signed_decimal(v as int),
        Scalar::UInt32(v) => decimal(v as nat),
        Scalar::Float32(bits) => hexadecimal(bits as nat),
        Scalar::Float64(bits) => hexadecimal(bits as nat),
        Scalar::UInt8z(v) => decimal(v as nat),
        Scalar::UInt16z(v) => decimal(v as nat),
        Scalar::UInt32z(v) => decimal(v as nat),
        Scalar::Byte(v) => decimal(v as nat),
        Scalar::SInt64(v) => signed_decimal(v as int),
        Scalar::UInt64(v) => decimal(v as nat),
        Scalar::UInt64z(v) => decimal(v as nat),
        Scalar::Invalid => "invalid"@,
    }
}

/// Elements as text, with a comma and a space between any two.
pub open spec fn elements_text(elements: Seq<Scalar>) -> Seq<char>
    decreases elements.len(),
{
    if elements.len() == 0 {
        Seq::empty()
    } else if elements.len() == 1 {
        scalar_text(elements[0])
    } else {
        elements_text(elements.drop_last()) + ", "@ + scalar_text(elements.last())
    }
}

/// Bytes as text: each in decimal, with a comma and a space between any two.
pub open spec fn bytes_text(bytes: Seq<u8>) -> Seq<char>
    decreases bytes.len(),
{
    if bytes.len() == 0 {
        Seq::empty()
    } else if bytes.len() == 1 {
        decimal(bytes[0] as nat)
    } else {
        bytes_text(bytes.drop_last()) + ", "@ + decimal(bytes.last() as nat)
    }
}

/// A value as text: a single element as itself, an array as its elements in
/// square brackets, a string as the word `string` and its bytes in square
/// brackets (the bytes need not be text in any encoding).
pub open spec fn value_text(value: ValueView) -> Seq<char> {
    match value {
        ValueView::Single(element) => scalar_text(element),
        ValueView::Array(elements) => "["@ + elements_text(elements) + "]"@,
        ValueView::String(bytes) => "string ["@ + bytes_text(bytes) + "]"@,
    }
}

fn append_scalar(text: &mut String, element: Scalar)
    ensures
        final(text)@ == old(text)@ + scalar_text(element),
{
    match element {
        Scalar::Enum(v) => append_decimal(text, v as u64),
        Scalar::SInt8(v) => append_signed_decimal(text, v as i64),
        Scalar::UInt8(v) => append_decimal(text, v as u64),
        Scalar::SInt16(v) => append_signed_decimal(text, v as i64),
        Scalar::UInt16(v) => append_decimal(text, v as u64),
        Scalar::SInt32(v) => append_signed_decimal(text, v as i64),
        Scalar::UInt32(v) => append_decimal(text, v as u64),
        Scalar::Float32(bits) => append_hexadecimal(text, bits as u64),
        Scalar::Float64(bits) => append_hexadecimal(text, bits),
        Scalar::UInt8z(v) => append_decimal(text, v as u64),
        Scalar::UInt16z(v) => append_decimal(text, v as u64),
        Scalar::UInt32z(v) => append_decimal(text, v as u64),
        Scalar::Byte(v) => append_decimal(text, v as u64),
        Scalar::SInt64(v) => append_signed_decimal(text, v),
        Scalar::UInt64(v) => append_decimal(text, v),
        Scalar::UInt64z(v) => append_decimal(text, v),
        Scalar::Invalid => text.append("invalid"),
    }
}

impl Scalar {
    /// The element as text. The invalid element reads `invalid`; a valid
    /// zero reads `0`.
    pub fn text(&self) -> (text: String)
        ensures
            text@ == scalar_text(*self),
    {
        let mut text = String::new();
        append_scalar(&mut text, *self);
        text
    }

    /// Whether the element is the invalid element.
    pub fn is_invalid(&self) -> (invalid: bool)
        ensures
            invalid == (*self is Invalid),
    {
        match self {
            Scalar::Invalid => true,
            _ => false,
        }
    }
}

impl Value {
    /// The value as text. An invalid value reads `invalid`; a valid zero
    /// reads `0`.
    pub fn text(&self) -> (text: String)
        ensures
            text@ == value_text(self@),
    {
        let mut text = String::new();
        match self {
            Value::Single(element) => {
                append_scalar(&mut text, *element);
            },
            Value::Array(elements) => {
                text.append("[");
                let ghost opened = text@;
                let mut i: usize = 0;
                while i < elements.len()
                    invariant
                        i <= elements@.len(),
                        opened == "["@,
                        text@ == opened + elements_text(elements@.take(i as int)),
                    decreases elements@.len() - i,
                {
                    let ghost before = text@;
                    if i > 0 {
                        text.append(", ");
                    }
                    append_scalar(&mut text, elements[i]);
                    proof {
                        let upto = elements@.take(i + 1);
                        assert(upto.drop_last() =~= elements@.take(i as int));
                        assert(upto.last() == elements@[i as int]);
                        if i > 0 {
                            assert(text@ =~= opened + (elements_text(elements@.take(i as int))
                                + ", "@ + scalar_text(elements@[i as int])));
                        } else {
                            assert(upto[0] == elements@[0]);
                            assert(text@ =~= opened + scalar_text(elements@[0]));
                        }
                    }
                    i = i + 1;
                }
                proof {
                    assert(elements@.take(i as int) =~= elements@);
                }
                text.append("]");
            },
            Value::String(bytes) => {
                text.append("string [");
                let ghost opened = text@;
                let mut i: usize = 0;
                while i < bytes.len()
                    invariant
                        i <= bytes@.len(),
                        opened == "string ["@,
                        text@ == opened + bytes_text(bytes@.take(i as int)),
                    decreases bytes@.len() - i,
                {
                    if i > 0 {
                        text.append(", ");
                    }
                    append_decimal(&mut text, bytes[i] as u64);
                    proof {
                        let upto = bytes@.take(i + 1);
                        assert(upto.drop_last() =~= bytes@.take(i as int));
                        assert(upto.last() == bytes@[i as int]);
                        if i > 0 {
                            assert(text@ =~= opened + (bytes_text(bytes@.take(i as int)) + ", "@
                                + decimal(bytes@[i as int] as nat)));
                        } else {
                            assert(upto[0] == bytes@[0]);
                            assert(text@ =~= opened + decimal(bytes@[0] as nat));
                        }
                    }
                    i = i + 1;
                }
                proof {
                    assert(bytes@.take(i as int) =~= bytes@);
                }
                text.append("]");
            },
        }
        text
    }

    /// Whether the value is a single invalid element.
    pub fn is_invalid(&self) -> (invalid: bool)
        ensures
            invalid == (self@ == ValueView::Single(Scalar::Invalid)),
    {
        match self {
            Value::Single(Scalar::Invalid) => true,
            _ => false,
        }
    }
}

/// The text of the invalid element is the text of no other element: no
/// number, zero least of all, reads as the invalid element does.
pub proof fn lemma_invalid_reads_like_nothing_else(element: Scalar)
    requires
        !(element is Invalid),
    ensures
        scalar_text(element) != scalar_text(Scalar::Invalid),
{
    lemma_begins_with_digit_or_sign(element);
    reveal_strlit("invalid");
    let invalid = scalar_text(Scalar::Invalid);
    assert(invalid[0] == 'i');
}

/// The text of a valid element begins with a digit or with a minus sign.
proof fn lemma_begins_with_digit_or_sign(element: Scalar)
    requires
        !(element is Invalid),
    ensures
        scalar_text(element).len() > 0,
        scalar_text(element)[0] != 'i',
{
    reveal_strlit("0x");
    reveal_strlit("-");
    match element {
        Scalar::Enum(v) => lemma_decimal_begins_with_digit(v as nat),
        Scalar::SInt8(v) => lemma_signed_begins(v as int),
        Scalar::UInt8(v) => lemma_decimal_begins_with_digit(v as nat),
        Scalar::SInt16(v) => lemma_signed_begins(v as int),
        Scalar::UInt16(v) => lemma_decimal_begins_with_digit(v as nat),
        Scalar::SInt32(v) => lemma_signed_begins(v as int),
        Scalar::UInt32(v) => lemma_decimal_begins_with_digit(v as nat),
        Scalar::Float32(bits) => {
            assert(hexadecimal(bits as nat)[0] == '0');
        },
        Scalar::Float64(bits) => {
            assert(hexadecimal(bits as nat)[0] == '0');
        },
        Scalar::UInt8z(v) => lemma_decimal_begins_with_digit(v as nat),
        Scalar::UInt16z(v) => lemma_decimal_begins_with_digit(v as nat),
        Scalar::UInt32z(v) => lemma_decimal_begins_with_digit(v as nat),
        Scalar::Byte(v) => lemma_decimal_begins_with_digit(v as nat),
        Scalar::SInt64(v) => lemma_signed_begins(v as int),
        Scalar::UInt64(v) => lemma_decimal_begins_with_digit(v as nat),
        Scalar::UInt64z(v) => lemma_decimal_begins_with_digit(v as nat),
        Scalar::Invalid => {},
    }
}

proof fn lemma_signed_begins(n: int)
    ensures
        signed_decimal(n).len() > 0,
        signed_decimal(n)[0] != 'i',
{
    reveal_strlit("-");
    if n < 0 {
        assert(signed_decimal(n)[0] == '-');
    } else {
        lemma_decimal_begins_with_digit(n as nat);
    }
}

proof fn lemma_decimal_begins_with_digit(n: nat)
    ensures
        decimal(n).len() > 0,
        decimal(n)[0] != 'i',
    decreases n,
{
    if n >= 10 {
        lemma_decimal_begins_with_digit(n / 10);
    } else {
        lemma_digit_is_one_character(n);
    }
}

} // verus!
