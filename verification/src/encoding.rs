//! Writing, as the mirror of decoding: the bytes that values, messages and
//! definitions are written as, and the laws that say that what is written
//! is read back.

use vstd::prelude::*;
use vstd::arithmetic::div_mod::{lemma_div_by_multiple, lemma_mod_multiples_basic};
use crate::definition::{
    developer_field_at, developer_fields_at, field_at, fields_at, first_unknown_type,
    parse_definition, DefinitionView, DeveloperFieldDefinition, FieldDefinition,
};
use crate::endian::{
    le_value, lemma_le_is_be_reversed, lemma_pow256_values, pow256, unsigned_value,
};
use crate::error::ErrorView;
use crate::laws::with_definition;
use crate::record::{record_header_of, DataFieldView, DataRecordView, RecordHeader, RecordView};
use crate::session::{
    parse_data, parse_developer_fields, parse_fields, parse_record, parse_records, register,
    SessionView,
};
use crate::value::{
    base_type_of, decode_elements, decode_scalar, decode_value, id_of, lemma_id_round_trip,
    lemma_text_len, sentinel_of, width_of, BaseType, Scalar, ValueView,
};

verus! {

/// The `width` bytes that spell `raw`, least significant byte first.
pub open spec fn le_bytes(raw: nat, width: nat) -> Seq<u8>
    decreases width,
{
    if width == 0 {
        Seq::empty()
    } else {
        seq![(raw % 256) as u8] + le_bytes(raw / 256, (width - 1) as nat)
    }
}

/// The `width` bytes that spell `raw` in the given byte order.
pub open spec fn wire_bytes(raw: nat, width: nat, big_endian: bool) -> Seq<u8> {
    if big_endian {
        le_bytes(raw, width).reverse()
    } else {
        le_bytes(raw, width)
    }
}

/// The unsigned number whose bytes stand for an element of a base type: the
/// element's own number, in two's complement if it is negative, and the
/// invalid-value pattern of the base type for the invalid element.
pub open spec fn raw_of(base_type: BaseType, element: Scalar) -> nat {
    match element {
        Scalar::Enum(v) => v as nat,
        Scalar::SInt8(v) => (if v < 0 {
            v + 0x100
        } else {
            v as int
        }) as nat,
        Scalar::UInt8(v) => v as nat,
        Scalar::SInt16(v) => (if v < 0 {
            v + 0x1_0000
        } else {
            v as int
        }) as nat,
        Scalar::UInt16(v) => v as nat,
        Scalar::SInt32(v) => (if v < 0 {
            v + 0x1_0000_0000
        } else {
            v as int
        }) as nat,
        Scalar::UInt32(v) => v as nat,
        Scalar::Float32(v) => v as nat,
        Scalar::Float64(v) => v as nat,
        Scalar::UInt8z(v) => v as nat,
        Scalar::UInt16z(v) => v as nat,
        Scalar::UInt32z(v) => v as nat,
        Scalar::Byte(v) => v as nat,
        Scalar::SInt64(v) => (if v < 0 {
            v + 0x1_0000_0000_0000_0000
        } else {
            v as int
        }) as nat,
        Scalar::UInt64(v) => v as nat,
        Scalar::UInt64z(v) => v as nat,
        Scalar::Invalid => sentinel_of(base_type),
    }
}

/// Whether an element is one that a field of the base type can hold.
pub open spec fn belongs_to(element: Scalar, base_type: BaseType) -> bool {
    match (base_type, element) {
        (BaseType::String, _) => false,
        (_, Scalar::Invalid) => true,
        (BaseType::Enum, Scalar::Enum(_)) => true,
        (BaseType::SInt8, Scalar::SInt8(_)) => true,
        (BaseType::UInt8, Scalar::UInt8(_)) => true,
        (BaseType::SInt16, Scalar::SInt16(_)) => true,
        (BaseType::UInt16, Scalar::UInt16(_)) => true,
        (BaseType::SInt32, Scalar::SInt32(_)) => true,
        (BaseType::UInt32, Scalar::UInt32(_)) => true,
        (BaseType::Float32, Scalar::Float32(_)) => true,
        (BaseType::Float64, Scalar::Float64(_)) => true,
        (BaseType::UInt8z, Scalar::UInt8z(_)) => true,
        (BaseType::UInt16z, Scalar::UInt16z(_)) => true,
        (BaseType::UInt32z, Scalar::UInt32z(_)) => true,
        (BaseType::Byte, Scalar::Byte(_)) => true,
        (BaseType::SInt64, Scalar::SInt64(_)) => true,
        (BaseType::UInt64, Scalar::UInt64(_)) => true,
        (BaseType::UInt64z, Scalar::UInt64z(_)) => true,
        _ => false,
    }
}

/// The bytes that an element of a base type is written as.
pub open spec fn encode_scalar(base_type: BaseType, element: Scalar, big_endian: bool) -> Seq<u8> {
    wire_bytes(raw_of(base_type, element), width_of(base_type), big_endian)
}

/// A number below 256 to the `width` is spelled in `width` bytes, and those
/// bytes spell it again.
pub proof fn lemma_le_bytes_round_trip(raw: nat, width: nat)
    requires
        raw < pow256(width),
    ensures
        le_bytes(raw, width).len() == width,
        le_value(le_bytes(raw, width)) == raw,
    decreases width,
{
    if width > 0 {
        let rest = le_bytes(raw / 256, (width - 1) as nat);
        lemma_le_bytes_round_trip(raw / 256, (width - 1) as nat);
        assert(le_bytes(raw, width).drop_first() =~= rest);
    }
}

/// A number that fits its width is read back from its bytes in either order.
pub proof fn lemma_wire_bytes_round_trip(raw: nat, width: nat, big_endian: bool)
    requires
        raw < pow256(width),
    ensures
        wire_bytes(raw, width, big_endian).len() == width,
        unsigned_value(wire_bytes(raw, width, big_endian), big_endian) == raw,
{
    lemma_le_bytes_round_trip(raw, width);
    lemma_le_is_be_reversed(le_bytes(raw, width));
}

/// Writing an element and reading it back gives the element again, in
/// either byte order, unless its bytes are the invalid-value pattern of the
/// base type: then what is read back is the invalid element. So the unsigned
/// 16-bit number 65535 is read back as invalid, not as 65535.
pub proof fn lemma_scalar_round_trip(base_type: BaseType, element: Scalar, big_endian: bool)
    requires
        belongs_to(element, base_type),
    ensures
        encode_scalar(base_type, element, big_endian).len() == width_of(base_type),
        decode_scalar(base_type, big_endian, encode_scalar(base_type, element, big_endian)) == (
        if raw_of(base_type, element) == sentinel_of(base_type) {
            Scalar::Invalid
        } else {
            element
        }),
        decode_value(base_type, big_endian, encode_scalar(base_type, element, big_endian)) == Ok::<
            ValueView,
            ErrorView,
        >(
            ValueView::Single(
                if raw_of(base_type, element) == sentinel_of(base_type) {
                    Scalar::Invalid
                } else {
                    element
                },
            ),
        ),
{
    lemma_pow256_values();
    lemma_wire_bytes_round_trip(raw_of(base_type, element), width_of(base_type), big_endian);
}


/// What an element is read back as: itself, or the invalid element if its
/// bytes are the invalid-value pattern of the base type.
pub open spec fn read_back(base_type: BaseType, element: Scalar) -> Scalar {
    if raw_of(base_type, element) == sentinel_of(base_type) {
        Scalar::Invalid
    } else {
        element
    }
}

/// The bytes that the elements of an array field are written as: each
/// element's own bytes, one element after the other.
pub open spec fn encode_elements(base_type: BaseType, elements: Seq<Scalar>, big_endian: bool) -> Seq<
    u8,
>
    decreases elements.len(),
{
    if elements.len() == 0 {
        Seq::empty()
    } else {
        encode_elements(base_type, elements.drop_last(), big_endian) + encode_scalar(
            base_type,
            elements.last(),
            big_endian,
        )
    }
}

/// What the elements of an array field are read back as.
pub open spec fn elements_read_back(base_type: BaseType, elements: Seq<Scalar>) -> Seq<Scalar> {
    Seq::new(elements.len(), |i: int| read_back(base_type, elements[i]))
}

/// The bytes that a string field of `size` bytes is written as: the text,
/// then null bytes up to the size of the field.
pub open spec fn encode_string(text: Seq<u8>, size: nat) -> Seq<u8> {
    text + Seq::new((size - text.len()) as nat, |i: int| 0u8)
}

/// Whether a value can be written as the field that `field` declares.
///
/// A single element needs a field as wide as its base type; an array needs
/// a field as wide as all its elements together, and is no array of one; a
/// string is not empty, holds no null byte and is no longer than its field.
/// In a string field the only single element is the invalid one.
pub open spec fn value_fits(field: FieldDefinition, value: ValueView) -> bool {
    match value {
        ValueView::Single(element) => {
            if field.base_type == BaseType::String {
                element is Invalid
            } else {
                field.size == width_of(field.base_type) && belongs_to(element, field.base_type)
            }
        },
        ValueView::Array(elements) => {
            &&& field.base_type != BaseType::String
            &&& elements.len() != 1
            &&& field.size == elements.len() * width_of(field.base_type)
            &&& forall|i: int|
                0 <= i < elements.len() ==> belongs_to(#[trigger] elements[i], field.base_type)
        },
        ValueView::String(text) => {
            &&& field.base_type == BaseType::String
            &&& 0 < text.len() <= field.size
            &&& forall|i: int| 0 <= i < text.len() ==> #[trigger] text[i] != 0
        },
    }
}

/// The bytes that a value is written as in the field that `field` declares.
pub open spec fn encode_value(field: FieldDefinition, value: ValueView, big_endian: bool) -> Seq<u8> {
    match value {
        ValueView::Single(element) => {
            if field.base_type == BaseType::String {
                encode_string(Seq::empty(), field.size as nat)
            } else {
                encode_scalar(field.base_type, element, big_endian)
            }
        },
        ValueView::Array(elements) => encode_elements(field.base_type, elements, big_endian),
        ValueView::String(text) => encode_string(text, field.size as nat),
    }
}

/// What a value is read back as: itself, with the invalid element in the
/// place of every element whose bytes are the invalid-value pattern.
pub open spec fn value_read_back(base_type: BaseType, value: ValueView) -> ValueView {
    match value {
        ValueView::Single(element) => {
            if base_type == BaseType::String {
                ValueView::Single(Scalar::Invalid)
            } else {
                ValueView::Single(read_back(base_type, element))
            }
        },
        ValueView::Array(elements) => ValueView::Array(elements_read_back(base_type, elements)),
        ValueView::String(text) => ValueView::String(text),
    }
}

/// Writing the elements of an array and reading them back gives every
/// element again, or the invalid element where the element's bytes are the
/// invalid-value pattern.
pub proof fn lemma_elements_round_trip(
    base_type: BaseType,
    elements: Seq<Scalar>,
    big_endian: bool,
)
    requires
        base_type != BaseType::String,
        forall|i: int| 0 <= i < elements.len() ==> belongs_to(#[trigger] elements[i], base_type),
    ensures
        encode_elements(base_type, elements, big_endian).len() == elements.len() * width_of(
            base_type,
        ),
        decode_elements(base_type, big_endian, encode_elements(base_type, elements, big_endian))
            == elements_read_back(base_type, elements),
    decreases elements.len(),
{
    let w = width_of(base_type) as int;
    let n = elements.len() as int;
    let bytes = encode_elements(base_type, elements, big_endian);
    if n == 0 {
        assert(0 * w == 0);
        assert(0int / w == 0);
        assert(decode_elements(base_type, big_endian, bytes) =~= elements_read_back(
            base_type,
            elements,
        ));
    } else {
        let before = elements.drop_last();
        let earlier = encode_elements(base_type, before, big_endian);
        let last = encode_scalar(base_type, elements.last(), big_endian);
        lemma_elements_round_trip(base_type, before, big_endian);
        lemma_scalar_round_trip(base_type, elements.last(), big_endian);
        assert((n - 1) * w + w == n * w) by (nonlinear_arith);
        assert(bytes.len() == n * w);
        lemma_div_by_multiple(n, w);
        lemma_div_by_multiple(n - 1, w);
        assert(bytes.len() as int / w == n);
        assert(earlier.len() as int / w == n - 1);
        assert forall|i: int| 0 <= i < n implies decode_scalar(
            base_type,
            big_endian,
            #[trigger] bytes.subrange(i * w, i * w + w),
        ) == read_back(base_type, elements[i]) by {
            assert(i * w + w == (i + 1) * w) by (nonlinear_arith);
            assert(0 <= i * w) by (nonlinear_arith)
                requires
                    0 <= i,
                    0 < w,
            ;
            if i < n - 1 {
                assert((i + 1) * w <= (n - 1) * w) by (nonlinear_arith)
                    requires
                        i + 1 <= n - 1,
                        0 < w,
                ;
                assert(bytes.subrange(i * w, i * w + w) =~= earlier.subrange(i * w, i * w + w));
                assert(decode_elements(base_type, big_endian, earlier)[i] == decode_scalar(
                    base_type,
                    big_endian,
                    earlier.subrange(i * w, i * w + w),
                ));
                assert(elements_read_back(base_type, before)[i] == read_back(base_type, before[i]));
            } else {
                assert(bytes.subrange(i * w, i * w + w) =~= last);
            }
        }
        assert(decode_elements(base_type, big_endian, bytes) =~= elements_read_back(
            base_type,
            elements,
        ));
    }
}

/// Writing a string and reading it back gives the string again; a field of
/// null bytes alone is read back as invalid.
pub proof fn lemma_string_round_trip(text: Seq<u8>, size: nat, big_endian: bool)
    requires
        text.len() <= size,
        forall|i: int| 0 <= i < text.len() ==> #[trigger] text[i] != 0,
    ensures
        encode_string(text, size).len() == size,
        decode_value(BaseType::String, big_endian, encode_string(text, size)) == Ok::<
            ValueView,
            ErrorView,
        >(
            if text.len() == 0 {
                ValueView::Single(Scalar::Invalid)
            } else {
                ValueView::String(text)
            },
        ),
{
    let bytes = encode_string(text, size);
    lemma_text_len(bytes, text.len());
    assert(bytes.take(text.len() as int) =~= text);
}

/// Writing a value and reading it back gives the value again, with the
/// invalid element in the place of every element whose bytes are the
/// invalid-value pattern: single elements, arrays and strings alike.
pub proof fn lemma_value_round_trip(field: FieldDefinition, value: ValueView, big_endian: bool)
    requires
        value_fits(field, value),
    ensures
        encode_value(field, value, big_endian).len() == field.size,
        decode_value(field.base_type, big_endian, encode_value(field, value, big_endian)) == Ok::<
            ValueView,
            ErrorView,
        >(value_read_back(field.base_type, value)),
{
    match value {
        ValueView::Single(element) => {
            if field.base_type == BaseType::String {
                lemma_string_round_trip(Seq::empty(), field.size as nat, big_endian);
            } else {
                lemma_scalar_round_trip(field.base_type, element, big_endian);
            }
        },
        ValueView::Array(elements) => {
            lemma_elements_round_trip(field.base_type, elements, big_endian);
            let w = width_of(field.base_type) as int;
            let n = elements.len() as int;
            lemma_mod_multiples_basic(n, w);
            assert(n * w != w) by (nonlinear_arith)
                requires
                    n != 1,
                    0 < w,
                    0 <= n,
            ;
        },
        ValueView::String(text) => {
            lemma_string_round_trip(text, field.size as nat, big_endian);
        },
    }
}

/// Whether `values` can be written as the fields of a data message that
/// `fields` lay out: one value for each field, each fitting its field.
pub open spec fn fit(fields: Seq<FieldDefinition>, values: Seq<ValueView>) -> bool {
    &&& fields.len() == values.len()
    &&& forall|i: int| 0 <= i < fields.len() ==> value_fits(#[trigger] fields[i], values[i])
}

/// The bytes of the fields of a data message: each value written as its
/// field declares, one after the other.
pub open spec fn encode_fields(
    fields: Seq<FieldDefinition>,
    values: Seq<ValueView>,
    big_endian: bool,
) -> Seq<u8>
    decreases fields.len(),
{
    if fields.len() == 0 {
        Seq::empty()
    } else {
        encode_fields(fields.drop_last(), values.drop_last(), big_endian) + encode_value(
            fields.last(),
            values.last(),
            big_endian,
        )
    }
}

/// The fields that a data message is decoded to when `values` were written
/// as `fields` lay them out.
pub open spec fn fields_read_back(fields: Seq<FieldDefinition>, values: Seq<ValueView>) -> Seq<
    DataFieldView,
> {
    Seq::new(
        fields.len(),
        |i: int|
            DataFieldView {
                number: fields[i].number,
                developer_index: None,
                value: value_read_back(fields[i].base_type, values[i]),
            },
    )
}

/// Writing the fields of a data message and reading them back gives every
/// value again, with the invalid element where an element's bytes are the
/// invalid-value pattern, whatever stands before and after the fields.
pub proof fn lemma_fields_round_trip(
    before: Seq<u8>,
    after: Seq<u8>,
    fields: Seq<FieldDefinition>,
    values: Seq<ValueView>,
    big_endian: bool,
)
    requires
        fit(fields, values),
    ensures
        parse_fields(
            before + encode_fields(fields, values, big_endian) + after,
            before.len() as int,
            fields,
            big_endian,
        ) == Ok::<(Seq<DataFieldView>, int), ErrorView>(
            (
                fields_read_back(fields, values),
                (before.len() + encode_fields(fields, values, big_endian).len()) as int,
            ),
        ),
    decreases fields.len(),
{
    let data = before + encode_fields(fields, values, big_endian) + after;
    if fields.len() == 0 {
        assert(fields_read_back(fields, values) =~= Seq::<DataFieldView>::empty());
    } else {
        let field = fields.last();
        let value = values.last();
        let earlier = encode_fields(fields.drop_last(), values.drop_last(), big_endian);
        let last = encode_value(field, value, big_endian);
        assert(fit(fields.drop_last(), values.drop_last())) by {
            assert forall|i: int| 0 <= i < fields.drop_last().len() implies value_fits(
                #[trigger] fields.drop_last()[i],
                values.drop_last()[i],
            ) by {
                assert(fields.drop_last()[i] == fields[i]);
            }
        }
        lemma_fields_round_trip(
            before,
            last + after,
            fields.drop_last(),
            values.drop_last(),
            big_endian,
        );
        assert(before + earlier + (last + after) =~= data);
        assert(field == fields[fields.len() - 1]);
        lemma_value_round_trip(field, value, big_endian);
        let next = (before.len() + earlier.len()) as int;
        assert(data.subrange(next, next + field.size) =~= last);
        assert(fields_read_back(fields.drop_last(), values.drop_last()).push(
            DataFieldView {
                number: field.number,
                developer_index: None,
                value: value_read_back(field.base_type, value),
            },
        ) =~= fields_read_back(fields, values));
    }
}

/// The ordinary field that a developer field is read as, once its field
/// description has registered its base type.
pub open spec fn described(
    field: DeveloperFieldDefinition,
    descriptions: Map<(u8, u8), BaseType>,
) -> FieldDefinition {
    FieldDefinition {
        number: field.number,
        size: field.size,
        base_type: descriptions[(field.developer_index, field.number)],
    }
}

/// Whether `values` can be written as the developer fields of a data message
/// that `fields` lay out: every field is described, and there is one value
/// for each field, fitting it.
pub open spec fn developer_fit(
    fields: Seq<DeveloperFieldDefinition>,
    values: Seq<ValueView>,
    descriptions: Map<(u8, u8), BaseType>,
) -> bool {
    &&& fields.len() == values.len()
    &&& forall|i: int|
        0 <= i < fields.len() ==> descriptions.contains_key(
            ((#[trigger] fields[i]).developer_index, fields[i].number),
        ) && value_fits(described(fields[i], descriptions), values[i])
}

/// The bytes of the developer fields of a data message.
pub open spec fn encode_developer_fields(
    fields: Seq<DeveloperFieldDefinition>,
    values: Seq<ValueView>,
    big_endian: bool,
    descriptions: Map<(u8, u8), BaseType>,
) -> Seq<u8>
    decreases fields.len(),
{
    if fields.len() == 0 {
        Seq::empty()
    } else {
        encode_developer_fields(fields.drop_last(), values.drop_last(), big_endian, descriptions)
            + encode_value(described(fields.last(), descriptions), values.last(), big_endian)
    }
}

/// The developer fields that a data message is decoded to when `values` were
/// written as `fields` lay them out.
pub open spec fn developer_fields_read_back(
    fields: Seq<DeveloperFieldDefinition>,
    values: Seq<ValueView>,
    descriptions: Map<(u8, u8), BaseType>,
) -> Seq<DataFieldView> {
    Seq::new(
        fields.len(),
        |i: int|
            DataFieldView {
                number: fields[i].number,
                developer_index: Some(fields[i].developer_index),
                value: value_read_back(described(fields[i], descriptions).base_type, values[i]),
            },
    )
}

/// Writing the developer fields of a data message and reading them back
/// gives every value again, once every field has been described.
pub proof fn lemma_developer_fields_round_trip(
    before: Seq<u8>,
    after: Seq<u8>,
    fields: Seq<DeveloperFieldDefinition>,
    values: Seq<ValueView>,
    big_endian: bool,
    descriptions: Map<(u8, u8), BaseType>,
)
    requires
        developer_fit(fields, values, descriptions),
    ensures
        parse_developer_fields(
            before + encode_developer_fields(fields, values, big_endian, descriptions) + after,
            before.len() as int,
            fields,
            big_endian,
            descriptions,
        ) == Ok::<(Seq<DataFieldView>, int), ErrorView>(
            (
                developer_fields_read_back(fields, values, descriptions),
                (before.len() + encode_developer_fields(
                    fields,
                    values,
                    big_endian,
                    descriptions,
                ).len()) as int,
            ),
        ),
    decreases fields.len(),
{
    let data = before + encode_developer_fields(fields, values, big_endian, descriptions) + after;
    if fields.len() == 0 {
        assert(developer_fields_read_back(fields, values, descriptions) =~= Seq::<
            DataFieldView,
        >::empty());
    } else {
        let field = fields.last();
        let value = values.last();
        let earlier = encode_developer_fields(
            fields.drop_last(),
            values.drop_last(),
            big_endian,
            descriptions,
        );
        let last = encode_value(described(field, descriptions), value, big_endian);
        assert(developer_fit(fields.drop_last(), values.drop_last(), descriptions)) by {
            assert forall|i: int| 0 <= i < fields.drop_last().len() implies descriptions.contains_key(
                ((#[trigger] fields.drop_last()[i]).developer_index, fields.drop_last()[i].number),
            ) && value_fits(
                described(fields.drop_last()[i], descriptions),
                values.drop_last()[i],
            ) by {
                assert(fields.drop_last()[i] == fields[i]);
            }
        }
        lemma_developer_fields_round_trip(
            before,
            last + after,
            fields.drop_last(),
            values.drop_last(),
            big_endian,
            descriptions,
        );
        assert(before + earlier + (last + after) =~= data);
        assert(field == fields[fields.len() - 1]);
        lemma_value_round_trip(described(field, descriptions), value, big_endian);
        let next = (before.len() + earlier.len()) as int;
        assert(data.subrange(next, next + field.size) =~= last);
        assert(developer_fields_read_back(fields.drop_last(), values.drop_last(), descriptions).push(
            DataFieldView {
                number: field.number,
                developer_index: Some(field.developer_index),
                value: value_read_back(described(field, descriptions).base_type, value),
            },
        ) =~= developer_fields_read_back(fields, values, descriptions));
    }
}

/// The bytes of a data message behind its header byte, written by the
/// definition that is active on channel `local`: the ordinary fields, then
/// the developer fields.
pub open spec fn encode_data(
    session: SessionView,
    local: u8,
    values: Seq<ValueView>,
    developer_values: Seq<ValueView>,
) -> Seq<u8> {
    let definition = session.definitions[local];
    encode_fields(definition.fields, values, definition.big_endian) + encode_developer_fields(
        definition.developer_fields,
        developer_values,
        definition.big_endian,
        session.descriptions,
    )
}

/// The record that a data message is decoded to when `values` and
/// `developer_values` were written by the definition on channel `local`.
pub open spec fn data_read_back(
    session: SessionView,
    local: u8,
    time_offset: Option<u8>,
    values: Seq<ValueView>,
    developer_values: Seq<ValueView>,
) -> DataRecordView {
    let definition = session.definitions[local];
    DataRecordView {
        local_number: local,
        global_number: definition.global_number,
        time_offset,
        fields: fields_read_back(definition.fields, values) + developer_fields_read_back(
            definition.developer_fields,
            developer_values,
            session.descriptions,
        ),
    }
}

/// Writing a data message and reading it back gives a record with the global
/// number of its definition and with exactly the values that were written,
/// field by field and in order, the invalid element standing where an
/// element's bytes are the invalid-value pattern.
pub proof fn lemma_data_round_trip(
    before: Seq<u8>,
    after: Seq<u8>,
    header_at: int,
    local: u8,
    time_offset: Option<u8>,
    session: SessionView,
    values: Seq<ValueView>,
    developer_values: Seq<ValueView>,
)
    requires
        session.definitions.contains_key(local),
        fit(session.definitions[local].fields, values),
        developer_fit(
            session.definitions[local].developer_fields,
            developer_values,
            session.descriptions,
        ),
    ensures
        parse_data(
            before + encode_data(session, local, values, developer_values) + after,
            before.len() as int,
            header_at,
            local,
            time_offset,
            session,
        ) == Ok::<(DataRecordView, int), ErrorView>(
            (
                data_read_back(session, local, time_offset, values, developer_values),
                (before.len() + encode_data(session, local, values, developer_values).len()) as int,
            ),
        ),
{
    let definition = session.definitions[local];
    let first = encode_fields(definition.fields, values, definition.big_endian);
    let second = encode_developer_fields(
        definition.developer_fields,
        developer_values,
        definition.big_endian,
        session.descriptions,
    );
    let data = before + encode_data(session, local, values, developer_values) + after;
    lemma_fields_round_trip(before, second + after, definition.fields, values, definition.big_endian);
    assert(before + first + (second + after) =~= data);
    lemma_developer_fields_round_trip(
        before + first,
        after,
        definition.developer_fields,
        developer_values,
        definition.big_endian,
        session.descriptions,
    );
    assert(before + first + second + after =~= data);
}


/// The bytes that declare the ordinary fields of a definition: number, size
/// and base type identifier of each.
pub open spec fn encode_field_definitions(fields: Seq<FieldDefinition>) -> Seq<u8>
    decreases fields.len(),
{
    if fields.len() == 0 {
        Seq::empty()
    } else {
        encode_field_definitions(fields.drop_last()) + seq![
            fields.last().number,
            fields.last().size,
            id_of(fields.last().base_type),
        ]
    }
}

/// The bytes that declare the developer fields of a definition: number, size
/// and developer data index of each.
pub open spec fn encode_developer_field_definitions(fields: Seq<DeveloperFieldDefinition>) -> Seq<
    u8,
>
    decreases fields.len(),
{
    if fields.len() == 0 {
        Seq::empty()
    } else {
        encode_developer_field_definitions(fields.drop_last()) + seq![
            fields.last().number,
            fields.last().size,
            fields.last().developer_index,
        ]
    }
}

/// The developer part of a definition message: the number of developer
/// fields and their declarations, or nothing in a message without one.
pub open spec fn encode_developer_part(definition: DefinitionView, developer: bool) -> Seq<u8> {
    if developer {
        seq![definition.developer_fields.len() as u8] + encode_developer_field_definitions(
            definition.developer_fields,
        )
    } else {
        Seq::empty()
    }
}

/// The bytes of a definition message behind its header byte.
pub open spec fn encode_definition(definition: DefinitionView, developer: bool) -> Seq<u8> {
    seq![
        0u8,
        if definition.big_endian {
            1u8
        } else {
            0u8
        },
    ] + wire_bytes(definition.global_number as nat, 2, definition.big_endian) + seq![
        definition.fields.len() as u8,
    ] + encode_field_definitions(definition.fields) + encode_developer_part(definition, developer)
}

/// Whether a definition can be written as a definition message: a count of
/// fields fits one byte, and only a message with a developer part can
/// declare developer fields.
pub open spec fn definition_fits(definition: DefinitionView, developer: bool) -> bool {
    &&& definition.fields.len() <= 255
    &&& definition.developer_fields.len() <= 255
    &&& !developer ==> definition.developer_fields.len() == 0
}

/// Where the declaration of each ordinary field stands among the bytes that
/// declare them.
pub proof fn lemma_field_definitions_layout(fields: Seq<FieldDefinition>)
    ensures
        encode_field_definitions(fields).len() == 3 * fields.len(),
        forall|i: int|
            0 <= i < fields.len() ==> {
                &&& encode_field_definitions(fields)[3 * i] == (#[trigger] fields[i]).number
                &&& encode_field_definitions(fields)[3 * i + 1] == fields[i].size
                &&& encode_field_definitions(fields)[3 * i + 2] == id_of(fields[i].base_type)
            },
    decreases fields.len(),
{
    if fields.len() > 0 {
        lemma_field_definitions_layout(fields.drop_last());
        let earlier = encode_field_definitions(fields.drop_last());
        assert forall|i: int| 0 <= i < fields.len() implies {
            &&& encode_field_definitions(fields)[3 * i] == (#[trigger] fields[i]).number
            &&& encode_field_definitions(fields)[3 * i + 1] == fields[i].size
            &&& encode_field_definitions(fields)[3 * i + 2] == id_of(fields[i].base_type)
        } by {
            if i < fields.len() - 1 {
                assert(fields.drop_last()[i] == fields[i]);
            }
        }
    }
}

/// Where the declaration of each developer field stands among the bytes
/// that declare them.
pub proof fn lemma_developer_field_definitions_layout(fields: Seq<DeveloperFieldDefinition>)
    ensures
        encode_developer_field_definitions(fields).len() == 3 * fields.len(),
        forall|i: int|
            0 <= i < fields.len() ==> {
                &&& encode_developer_field_definitions(fields)[3 * i]
                    == (#[trigger] fields[i]).number
                &&& encode_developer_field_definitions(fields)[3 * i + 1] == fields[i].size
                &&& encode_developer_field_definitions(fields)[3 * i + 2]
                    == fields[i].developer_index
            },
    decreases fields.len(),
{
    if fields.len() > 0 {
        lemma_developer_field_definitions_layout(fields.drop_last());
        assert forall|i: int| 0 <= i < fields.len() implies {
            &&& encode_developer_field_definitions(fields)[3 * i] == (#[trigger] fields[i]).number
            &&& encode_developer_field_definitions(fields)[3 * i + 1] == fields[i].size
            &&& encode_developer_field_definitions(fields)[3 * i + 2] == fields[i].developer_index
        } by {
            if i < fields.len() - 1 {
                assert(fields.drop_last()[i] == fields[i]);
            }
        }
    }
}

/// Where every base type identifier names a base type, none is unknown.
pub proof fn lemma_no_unknown_type(data: Seq<u8>, start: int, count: nat, from: nat)
    requires
        forall|i: int| 0 <= i < count ==> base_type_of(#[trigger] data[start + 3 * i + 2]) is Some,
    ensures
        first_unknown_type(data, start, count, from) is None,
    decreases count - from,
{
    if from < count {
        assert(base_type_of(data[start + 3 * from + 2]) is Some);
        lemma_no_unknown_type(data, start, count, from + 1);
    }
}

/// Writing a definition message and reading it back gives the definition
/// again, whatever stands before and after the message.
#[verifier::rlimit(40)]
pub proof fn lemma_definition_round_trip(
    before: Seq<u8>,
    after: Seq<u8>,
    definition: DefinitionView,
    developer: bool,
)
    requires
        definition_fits(definition, developer),
    ensures
        parse_definition(
            before + encode_definition(definition, developer) + after,
            before.len() as int,
            developer,
        ) == Ok::<(DefinitionView, int), ErrorView>(
            (definition, (before.len() + encode_definition(definition, developer).len()) as int),
        ),
{
    let message = encode_definition(definition, developer);
    let data = before + message + after;
    let at = before.len() as int;
    let global = wire_bytes(definition.global_number as nat, 2, definition.big_endian);
    let declared = encode_field_definitions(definition.fields);
    let part = encode_developer_part(definition, developer);
    let count = definition.fields.len() as int;
    let start = at + 5;
    lemma_pow256_values();
    lemma_wire_bytes_round_trip(definition.global_number as nat, 2, definition.big_endian);
    lemma_field_definitions_layout(definition.fields);
    lemma_developer_field_definitions_layout(definition.developer_fields);
    assert(message.len() == 5 + 3 * count + part.len());
    assert(data[at + 1] == (if definition.big_endian {
        1u8
    } else {
        0u8
    }));
    assert(data.subrange(at + 2, at + 4) =~= global);
    assert(data[at + 4] == count as u8);
    assert forall|k: int| 0 <= k < 3 * count implies data[start + k] == declared[k] by {
        assert(data[start + k] == message[5 + k]);
    }
    assert forall|i: int| 0 <= i < count implies base_type_of(#[trigger] data[start + 3 * i + 2])
        == Some(definition.fields[i].base_type) && data[start + 3 * i]
        == definition.fields[i].number && data[start + 3 * i + 1] == definition.fields[i].size by {
        assert(data[start + (3 * i + 2)] == declared[3 * i + 2]);
        assert(data[start + (3 * i + 1)] == declared[3 * i + 1]);
        assert(data[start + 3 * i] == declared[3 * i]);
        lemma_id_round_trip(definition.fields[i].base_type);
    }
    lemma_no_unknown_type(data, start, count as nat, 0);
    assert(fields_at(data, start, count as nat) =~= definition.fields) by {
        assert forall|i: int| 0 <= i < count implies field_at(data, start + 3 * i)
            == definition.fields[i] by {
            assert(base_type_of(data[start + 3 * i + 2]) == Some(definition.fields[i].base_type));
        }
    }
    let next = start + 3 * count;
    if developer {
        let others = definition.developer_fields;
        let listed = encode_developer_field_definitions(others);
        assert(data[next] == others.len() as u8) by {
            assert(data[next] == message[5 + 3 * count]);
            assert(message[5 + 3 * count] == part[0]);
        }
        assert forall|k: int| 0 <= k < 3 * others.len() implies data[next + 1 + k] == listed[k] by {
            assert(data[next + 1 + k] == message[5 + 3 * count + 1 + k]);
            assert(message[5 + 3 * count + 1 + k] == part[1 + k]);
        }
        assert(developer_fields_at(data, next + 1, others.len()) =~= others) by {
            assert forall|i: int| 0 <= i < others.len() implies developer_field_at(
                data,
                next + 1 + 3 * i,
            ) == others[i] by {
                assert(data[next + 1 + (3 * i + 2)] == listed[3 * i + 2]);
                assert(data[next + 1 + (3 * i + 1)] == listed[3 * i + 1]);
                assert(data[next + 1 + 3 * i] == listed[3 * i]);
            }
        }
    } else {
        assert(definition.developer_fields =~= Seq::<DeveloperFieldDefinition>::empty());
    }
}

/// The header byte of a definition message for channel `local`.
pub open spec fn definition_header(local: u8, developer: bool) -> u8 {
    if developer {
        0x60 | local
    } else {
        0x40 | local
    }
}

/// The header bytes that are written for a channel are read back as headers
/// for that channel.
pub proof fn lemma_headers_round_trip(local: u8, developer: bool)
    requires
        local < 16,
    ensures
        record_header_of(definition_header(local, developer)) == (RecordHeader::Definition {
            local_number: local,
            developer,
        }),
        record_header_of(local) == (RecordHeader::Data { local_number: local }),
{
    assert((0x60u8 | local) & 0x80 == 0 && (0x60u8 | local) & 0x40 != 0 && (0x60u8 | local) & 0x20
        != 0 && (0x60u8 | local) & 0x0F == local) by (bit_vector)
        requires
            local < 16,
    ;
    assert((0x40u8 | local) & 0x80 == 0 && (0x40u8 | local) & 0x40 != 0 && (0x40u8 | local) & 0x20
        == 0 && (0x40u8 | local) & 0x0F == local) by (bit_vector)
        requires
            local < 16,
    ;
    assert(local & 0x80 == 0 && local & 0x40 == 0 && local & 0x0F == local) by (bit_vector)
        requires
            local < 16,
    ;
}

/// A definition message for channel `local`, header byte and all.
pub open spec fn encode_definition_record(
    local: u8,
    definition: DefinitionView,
    developer: bool,
) -> Seq<u8> {
    seq![definition_header(local, developer)] + encode_definition(definition, developer)
}

/// A data message on channel `local`, header byte and all, written by the
/// definition that is active on that channel.
pub open spec fn encode_data_record(
    session: SessionView,
    local: u8,
    values: Seq<ValueView>,
    developer_values: Seq<ValueView>,
) -> Seq<u8> {
    seq![local] + encode_data(session, local, values, developer_values)
}

/// Writing a definition message with its header byte and reading it back
/// gives a definition record equal to the definition, and a session in which
/// the definition is the active one of its channel.
pub proof fn lemma_definition_record_round_trip(
    before: Seq<u8>,
    after: Seq<u8>,
    session: SessionView,
    local: u8,
    definition: DefinitionView,
    developer: bool,
)
    requires
        local < 16,
        definition_fits(definition, developer),
    ensures
        parse_record(
            before + encode_definition_record(local, definition, developer) + after,
            before.len() as int,
            session,
        ) == Ok::<(RecordView, SessionView, int), ErrorView>(
            (
                RecordView::Definition(local, definition),
                with_definition(session, local, definition),
                (before.len() + encode_definition_record(local, definition, developer).len()) as int,
            ),
        ),
{
    let data = before + encode_definition_record(local, definition, developer) + after;
    let head = before + seq![definition_header(local, developer)];
    lemma_headers_round_trip(local, developer);
    lemma_definition_round_trip(head, after, definition, developer);
    assert(head + encode_definition(definition, developer) + after =~= data);
    assert(data[before.len() as int] == definition_header(local, developer));
}

/// Writing a data message with its header byte and reading it back gives a
/// data record with exactly the values that were written.
pub proof fn lemma_data_record_round_trip(
    before: Seq<u8>,
    after: Seq<u8>,
    session: SessionView,
    local: u8,
    values: Seq<ValueView>,
    developer_values: Seq<ValueView>,
)
    requires
        local < 16,
        session.definitions.contains_key(local),
        fit(session.definitions[local].fields, values),
        developer_fit(
            session.definitions[local].developer_fields,
            developer_values,
            session.descriptions,
        ),
    ensures
        ({
            let record = data_read_back(session, local, None, values, developer_values);
            parse_record(
                before + encode_data_record(session, local, values, developer_values) + after,
                before.len() as int,
                session,
            ) == Ok::<(RecordView, SessionView, int), ErrorView>(
                (
                    RecordView::Data(record),
                    register(session, record),
                    (before.len() + encode_data_record(
                        session,
                        local,
                        values,
                        developer_values,
                    ).len()) as int,
                ),
            )
        }),
{
    let data = before + encode_data_record(session, local, values, developer_values) + after;
    let lead = before + seq![local];
    lemma_headers_round_trip(local, false);
    lemma_data_round_trip(
        lead,
        after,
        before.len() as int,
        local,
        None,
        session,
        values,
        developer_values,
    );
    assert(lead + encode_data(session, local, values, developer_values) + after =~= data);
    assert(data[before.len() as int] == local);
}

/// Two records that are decoded one after the other, the second in the
/// session that the first has left, are the records of the stretch that
/// they fill.
pub proof fn lemma_two_records(
    data: Seq<u8>,
    at: int,
    mid: int,
    end: int,
    session: SessionView,
    first: (RecordView, SessionView, int),
    second: (RecordView, SessionView, int),
)
    requires
        at < mid < end,
        first.2 == mid,
        second.2 == end,
        parse_record(data, at, session) == Ok::<(RecordView, SessionView, int), ErrorView>(first),
        parse_record(data, mid, first.1) == Ok::<(RecordView, SessionView, int), ErrorView>(second),
    ensures
        parse_records(data, at, end, session) == Ok::<Seq<RecordView>, ErrorView>(
            seq![first.0, second.0],
        ),
{
    assert(parse_records(data, end, end, second.1) == Ok::<Seq<RecordView>, ErrorView>(
        Seq::empty(),
    ));
    assert(parse_records(data, mid, end, first.1) == Ok::<Seq<RecordView>, ErrorView>(
        seq![second.0] + Seq::<RecordView>::empty(),
    ));
    assert(seq![first.0] + (seq![second.0] + Seq::<RecordView>::empty()) =~= seq![
        first.0,
        second.0,
    ]);
}

/// Four stretches of bytes in a row are the same bytes however they are
/// grouped.
pub proof fn lemma_regroup(before: Seq<u8>, first: Seq<u8>, second: Seq<u8>, after: Seq<u8>)
    ensures
        before + first + (second + after) == before + first + second + after,
        (before + first).len() == before.len() + first.len(),
{
    assert(before + first + (second + after) =~= before + first + second + after);
}

/// What a data message is read back as has the global number of its
/// definition and one field for each value that was written.
pub proof fn lemma_read_back_shape(
    session: SessionView,
    local: u8,
    definition: DefinitionView,
    values: Seq<ValueView>,
    developer_values: Seq<ValueView>,
)
    requires
        fit(definition.fields, values),
        developer_fit(definition.developer_fields, developer_values, session.descriptions),
    ensures
        ({
            let defined = with_definition(session, local, definition);
            let record = data_read_back(defined, local, None, values, developer_values);
            &&& defined.definitions.contains_key(local)
            &&& defined.definitions[local] == definition
            &&& defined.descriptions == session.descriptions
            &&& record.global_number == definition.global_number
            &&& record.fields.len() == values.len() + developer_values.len()
        }),
{
}

/// Writing a definition and a data message that matches it, and reading the
/// two back, gives a definition record equal to the definition and then a
/// data record with the definition's global number and with exactly the
/// values that were written: field by field, in order, none missing and none
/// added, the invalid element standing where an element's bytes are the
/// invalid-value pattern. This holds in every session and whatever stands
/// before and after the two messages.
#[verifier::spinoff_prover]
#[verifier::rlimit(40)]
pub proof fn lemma_message_round_trip(
    before: Seq<u8>,
    after: Seq<u8>,
    session: SessionView,
    local: u8,
    definition: DefinitionView,
    developer: bool,
    values: Seq<ValueView>,
    developer_values: Seq<ValueView>,
)
    requires
        local < 16,
        definition_fits(definition, developer),
        fit(definition.fields, values),
        developer_fit(definition.developer_fields, developer_values, session.descriptions),
    ensures
        ({
            let defined = with_definition(session, local, definition);
            let first = encode_definition_record(local, definition, developer);
            let second = encode_data_record(defined, local, values, developer_values);
            let record = data_read_back(defined, local, None, values, developer_values);
            &&& record.global_number == definition.global_number
            &&& record.fields.len() == values.len() + developer_values.len()
            &&& parse_records(
                before + first + second + after,
                before.len() as int,
                (before.len() + first.len() + second.len()) as int,
                session,
            ) == Ok::<Seq<RecordView>, ErrorView>(
                seq![RecordView::Definition(local, definition), RecordView::Data(record)],
            )
        }),
{
    let defined = with_definition(session, local, definition);
    let first = encode_definition_record(local, definition, developer);
    let second = encode_data_record(defined, local, values, developer_values);
    let record = data_read_back(defined, local, None, values, developer_values);
    let at = before.len() as int;
    let mid = (before.len() + first.len()) as int;
    let end = (before.len() + first.len() + second.len()) as int;
    lemma_read_back_shape(session, local, definition, values, developer_values);
    lemma_regroup(before, first, second, after);
    lemma_definition_record_round_trip(
        before,
        second + after,
        session,
        local,
        definition,
        developer,
    );
    lemma_data_record_round_trip(before + first, after, defined, local, values, developer_values);
    lemma_two_records(
        before + first + second + after,
        at,
        mid,
        end,
        session,
        (RecordView::Definition(local, definition), defined, mid),
        (RecordView::Data(record), register(defined, record), end),
    );
}

} // verus!
