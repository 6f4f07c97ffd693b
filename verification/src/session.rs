//! The record decoder: one record at a time, against the definitions and
//! developer registrations that earlier records of the stream have left.

use vstd::prelude::*;
use crate::cursor::Cursor;
use crate::definition::{
    decode_definition, parse_definition, shortfall, Definition, DefinitionView,
    DeveloperFieldDefinition, FieldDefinition,
};
use crate::error::{ErrorKind, ErrorView};
use crate::record::{
    fields_view, record_header_of, DataField, DataFieldView, DataRecord, DataRecordView,
    DecodedRecord, RecordHeader, RecordView,
};
use crate::registry::{DeveloperDataId, DeveloperFieldRegistry, FieldDescription};
use crate::table::DefinitionTable;
use crate::value::{
    base_type_of, decode_value, decode_value_at, BaseType, Scalar, Value, ValueView,
};

verus! {

/// Global message number of the message that describes a developer field.
pub const FIELD_DESCRIPTION: u16 = 206;

/// Global message number of the message that registers a developer data index.
pub const DEVELOPER_DATA_ID: u16 = 207;

/// What a decode session remembers between records.
pub struct SessionView {
    /// The active definition of each local channel.
    pub definitions: Map<u8, DefinitionView>,
    /// The base type of each described developer field.
    pub descriptions: Map<(u8, u8), BaseType>,
    /// The application id of each registered developer data index.
    pub ids: Map<u8, Seq<u8>>,
}

/// The session at the start of a stream: nothing is defined or registered.
pub open spec fn empty_session() -> SessionView {
    SessionView { definitions: Map::empty(), descriptions: Map::empty(), ids: Map::empty() }
}

/// What reading the values of `fields`, one after the other from `at` on,
/// ends in: the decoded fields and the offset after the last of them.
pub open spec fn parse_fields(
    data: Seq<u8>,
    at: int,
    fields: Seq<FieldDefinition>,
    big_endian: bool,
) -> Result<(Seq<DataFieldView>, int), ErrorView>
    decreases fields.len(),
{
    if fields.len() == 0 {
        Ok((Seq::empty(), at))
    } else {
        match parse_fields(data, at, fields.drop_last(), big_endian) {
            Err(error) => Err(error),
            Ok((values, next)) => {
                let field = fields.last();
                if next + field.size > data.len() {
                    Err(shortfall(next, field.size as int, data.len() as int))
                } else {
                    match decode_value(
                        field.base_type,
                        big_endian,
                        data.subrange(next, next + field.size),
                    ) {
                        Err(error) => Err(error),
                        Ok(value) => Ok(
                            (
                                values.push(
                                    DataFieldView {
                                        number: field.number,
                                        developer_index: None,
                                        value,
                                    },
                                ),
                                next + field.size,
                            ),
                        ),
                    }
                }
            },
        }
    }
}

/// What reading the values of the developer fields `fields`, one after the
/// other from `at` on, ends in. A field is read as the base type that its
/// field description registered; a field without one is an error, and
/// none of its bytes are read.
pub open spec fn parse_developer_fields(
    data: Seq<u8>,
    at: int,
    fields: Seq<DeveloperFieldDefinition>,
    big_endian: bool,
    descriptions: Map<(u8, u8), BaseType>,
) -> Result<(Seq<DataFieldView>, int), ErrorView>
    decreases fields.len(),
{
    if fields.len() == 0 {
        Ok((Seq::empty(), at))
    } else {
        match parse_developer_fields(data, at, fields.drop_last(), big_endian, descriptions) {
            Err(error) => Err(error),
            Ok((values, next)) => {
                let field = fields.last();
                if !descriptions.contains_key((field.developer_index, field.number)) {
                    Err(ErrorView::MissingDeveloperDefinitionMessage)
                } else if next + field.size > data.len() {
                    Err(shortfall(next, field.size as int, data.len() as int))
                } else {
                    match decode_value(
                        descriptions[(field.developer_index, field.number)],
                        big_endian,
                        data.subrange(next, next + field.size),
                    ) {
                        Err(error) => Err(error),
                        Ok(value) => Ok(
                            (
                                values.push(
                                    DataFieldView {
                                        number: field.number,
                                        developer_index: Some(field.developer_index),
                                        value,
                                    },
                                ),
                                next + field.size,
                            ),
                        ),
                    }
                }
            },
        }
    }
}

/// What reading a data message ends in, where `at` is the offset after the
/// record's header byte and `header_at` the offset of that byte: the record
/// and the offset after the message.
///
/// The message is laid out by the definition that is active on its local
/// channel: the ordinary fields, then the developer fields. A channel
/// without a definition is an error that names the channel and `header_at`.
pub open spec fn parse_data(
    data: Seq<u8>,
    at: int,
    header_at: int,
    local_number: u8,
    time_offset: Option<u8>,
    session: SessionView,
) -> Result<(DataRecordView, int), ErrorView> {
    if !session.definitions.contains_key(local_number) {
        Err(ErrorView::MissingDefinitionMessage(local_number, header_at as usize))
    } else {
        let definition = session.definitions[local_number];
        match parse_fields(data, at, definition.fields, definition.big_endian) {
            Err(error) => Err(error),
            Ok((fields, next)) => match parse_developer_fields(
                data,
                next,
                definition.developer_fields,
                definition.big_endian,
                session.descriptions,
            ) {
                Err(error) => Err(error),
                Ok((developer_fields, end)) => Ok(
                    (
                        DataRecordView {
                            local_number,
                            global_number: definition.global_number,
                            time_offset,
                            fields: fields + developer_fields,
                        },
                        end,
                    ),
                ),
            },
        }
    }
}

/// The value of the first ordinary field with the given number.
pub open spec fn find_field(fields: Seq<DataFieldView>, number: u8) -> Option<ValueView>
    decreases fields.len(),
{
    if fields.len() == 0 {
        None
    } else if fields[0].number == number && fields[0].developer_index is None {
        Some(fields[0].value)
    } else {
        find_field(fields.drop_first(), number)
    }
}

/// The byte that a value is, if it is a single valid element of a one-byte
/// unsigned base type.
pub open spec fn byte_of(value: ValueView) -> Option<u8> {
    match value {
        ValueView::Single(Scalar::UInt8(byte)) => Some(byte),
        ValueView::Single(Scalar::UInt8z(byte)) => Some(byte),
        ValueView::Single(Scalar::Enum(byte)) => Some(byte),
        ValueView::Single(Scalar::Byte(byte)) => Some(byte),
        _ => None,
    }
}

/// The byte that the first ordinary field with the given number holds.
pub open spec fn byte_field(fields: Seq<DataFieldView>, number: u8) -> Option<u8> {
    match find_field(fields, number) {
        Some(value) => byte_of(value),
        None => None,
    }
}

/// The byte on the wire behind an element of a field of the base type
/// `byte`: the byte itself, and `0xFF` for every other element, which is
/// what the invalid element of that base type was on the wire.
pub open spec fn wire_byte(element: Scalar) -> u8 {
    match element {
        Scalar::Byte(byte) => byte,
        _ => 0xFF,
    }
}

/// The bytes on the wire behind a value, read as a field of the base type
/// `byte`: one byte for each element, as `wire_byte` gives it, and none for
/// a string.
pub open spec fn bytes_of(value: ValueView) -> Seq<u8> {
    match value {
        ValueView::Single(element) => seq![wire_byte(element)],
        ValueView::Array(elements) => elements.map_values(|element: Scalar| wire_byte(element)),
        ValueView::String(_) => Seq::empty(),
    }
}

/// What a field description message declares, when it is complete: the
/// developer data index in field 0, the field definition number in field 1
/// and the identifier of a base type in field 2.
pub open spec fn field_description_of(fields: Seq<DataFieldView>) -> Option<FieldDescription> {
    if byte_field(fields, 0) is Some && byte_field(fields, 1) is Some && byte_field(fields, 2) is Some
        && base_type_of(byte_field(fields, 2)->Some_0) is Some {
        Some(
            FieldDescription {
                developer_index: byte_field(fields, 0)->Some_0,
                number: byte_field(fields, 1)->Some_0,
                base_type: base_type_of(byte_field(fields, 2)->Some_0)->Some_0,
            },
        )
    } else {
        None
    }
}

/// The application id that a developer data id message carries in field 1;
/// no bytes when it has no such field.
pub open spec fn application_id_of(fields: Seq<DataFieldView>) -> Seq<u8> {
    match find_field(fields, 1) {
        Some(value) => bytes_of(value),
        None => Seq::empty(),
    }
}

/// The session after a data message has been decoded in it.
///
/// A field description message that is complete registers its field; a
/// developer data id message that carries a developer data index in field 3
/// registers that index. Every other message leaves the session as it was.
pub open spec fn register(session: SessionView, record: DataRecordView) -> SessionView {
    if record.global_number == FIELD_DESCRIPTION {
        match field_description_of(record.fields) {
            Some(entry) => SessionView {
                descriptions: session.descriptions.insert(
                    (entry.developer_index, entry.number),
                    entry.base_type,
                ),
                ..session
            },
            None => session,
        }
    } else if record.global_number == DEVELOPER_DATA_ID {
        match byte_field(record.fields, 3) {
            Some(index) => SessionView {
                ids: session.ids.insert(index, application_id_of(record.fields)),
                ..session
            },
            None => session,
        }
    } else {
        session
    }
}

/// What decoding one record at `at` ends in: the record, the session after
/// it and the offset after it.
///
/// A definition message becomes the active definition of its local channel.
/// A data message is decoded by the active definition of its channel and may
/// register a developer or a developer field.
pub open spec fn parse_record(data: Seq<u8>, at: int, session: SessionView) -> Result<
    (RecordView, SessionView, int),
    ErrorView,
> {
    if at + 1 > data.len() {
        Err(shortfall(at, 1, data.len() as int))
    } else {
        match record_header_of(data[at]) {
            RecordHeader::Definition { local_number, developer } => match parse_definition(
                data,
                at + 1,
                developer,
            ) {
                Err(error) => Err(error),
                Ok((definition, end)) => Ok(
                    (
                        RecordView::Definition(local_number, definition),
                        SessionView {
                            definitions: session.definitions.insert(local_number, definition),
                            ..session
                        },
                        end,
                    ),
                ),
            },
            RecordHeader::Data { local_number } => data_outcome(
                parse_data(data, at + 1, at, local_number, None, session),
                session,
            ),
            RecordHeader::CompressedTimestamp { local_number, time_offset } => data_outcome(
                parse_data(data, at + 1, at, local_number, Some(time_offset), session),
                session,
            ),
        }
    }
}

/// A decoded data message as the outcome of its record.
pub open spec fn data_outcome(
    parsed: Result<(DataRecordView, int), ErrorView>,
    session: SessionView,
) -> Result<(RecordView, SessionView, int), ErrorView> {
    match parsed {
        Err(error) => Err(error),
        Ok((record, end)) => Ok((RecordView::Data(record), register(session, record), end)),
    }
}

/// What decoding the records from `at` up to `end` ends in: the records in
/// stream order, each decoded in the session that its predecessors left.
pub open spec fn parse_records(data: Seq<u8>, at: int, end: int, session: SessionView) -> Result<
    Seq<RecordView>,
    ErrorView,
>
    decreases data.len() - at,
    via parse_records_terminates
{
    if at >= end {
        Ok(Seq::empty())
    } else {
        match parse_record(data, at, session) {
            Err(error) => Err(error),
            Ok((record, next_session, next)) => {
                match parse_records(data, next, end, next_session) {
                    Err(error) => Err(error),
                    Ok(rest) => Ok(seq![record] + rest),
                }
            },
        }
    }
}

#[via_fn]
proof fn parse_records_terminates(data: Seq<u8>, at: int, end: int, session: SessionView) {
    lemma_record_advances(data, at, session);
}

/// Fields that are read leave the offset inside the input, not before where
/// it was.
pub proof fn lemma_fields_advance(
    data: Seq<u8>,
    at: int,
    fields: Seq<FieldDefinition>,
    big_endian: bool,
)
    requires
        at <= data.len(),
    ensures
        parse_fields(data, at, fields, big_endian) matches Ok((values, end)) ==> at <= end
            <= data.len() && values.len() == fields.len(),
    decreases fields.len(),
{
    if fields.len() > 0 {
        lemma_fields_advance(data, at, fields.drop_last(), big_endian);
    }
}

/// Developer fields that are read leave the offset inside the input, not
/// before where it was.
pub proof fn lemma_developer_fields_advance(
    data: Seq<u8>,
    at: int,
    fields: Seq<DeveloperFieldDefinition>,
    big_endian: bool,
    descriptions: Map<(u8, u8), BaseType>,
)
    requires
        at <= data.len(),
    ensures
        parse_developer_fields(data, at, fields, big_endian, descriptions) matches Ok(
            (values, end),
        ) ==> at <= end <= data.len() && values.len() == fields.len(),
    decreases fields.len(),
{
    if fields.len() > 0 {
        lemma_developer_fields_advance(data, at, fields.drop_last(), big_endian, descriptions);
    }
}

/// A record that is decoded ends after where it began, inside the input.
pub proof fn lemma_record_advances(data: Seq<u8>, at: int, session: SessionView)
    ensures
        parse_record(data, at, session) matches Ok((record, next, end)) ==> at < end <= data.len(),
{
    if at + 1 <= data.len() {
        match record_header_of(data[at]) {
            RecordHeader::Definition { local_number, developer } => {},
            RecordHeader::Data { local_number } => {
                lemma_data_advances(data, at + 1, at, local_number, None, session);
            },
            RecordHeader::CompressedTimestamp { local_number, time_offset } => {
                lemma_data_advances(data, at + 1, at, local_number, Some(time_offset), session);
            },
        }
    }
}

/// A data message that is decoded ends inside the input, not before where
/// it began.
pub proof fn lemma_data_advances(
    data: Seq<u8>,
    at: int,
    header_at: int,
    local_number: u8,
    time_offset: Option<u8>,
    session: SessionView,
)
    requires
        at <= data.len(),
    ensures
        parse_data(data, at, header_at, local_number, time_offset, session) matches Ok(
            (record, end),
        ) ==> at <= end <= data.len(),
{
    if session.definitions.contains_key(local_number) {
        let definition = session.definitions[local_number];
        lemma_fields_advance(data, at, definition.fields, definition.big_endian);
        match parse_fields(data, at, definition.fields, definition.big_endian) {
            Ok((fields, next)) => {
                lemma_developer_fields_advance(
                    data,
                    next,
                    definition.developer_fields,
                    definition.big_endian,
                    session.descriptions,
                );
            },
            Err(_) => {},
        }
    }
}

/// An error among the first `count` fields is the error of all the fields.
pub proof fn lemma_fields_error_sticks(
    data: Seq<u8>,
    at: int,
    fields: Seq<FieldDefinition>,
    big_endian: bool,
    count: int,
)
    requires
        0 <= count <= fields.len(),
        parse_fields(data, at, fields.take(count), big_endian) is Err,
    ensures
        parse_fields(data, at, fields, big_endian) == parse_fields(
            data,
            at,
            fields.take(count),
            big_endian,
        ),
    decreases fields.len(),
{
    if count == fields.len() {
        assert(fields.take(count) =~= fields);
    } else {
        assert(fields.drop_last().take(count) =~= fields.take(count));
        lemma_fields_error_sticks(data, at, fields.drop_last(), big_endian, count);
    }
}

/// An error among the first `count` developer fields is the error of all of them.
pub proof fn lemma_developer_fields_error_sticks(
    data: Seq<u8>,
    at: int,
    fields: Seq<DeveloperFieldDefinition>,
    big_endian: bool,
    descriptions: Map<(u8, u8), BaseType>,
    count: int,
)
    requires
        0 <= count <= fields.len(),
        parse_developer_fields(data, at, fields.take(count), big_endian, descriptions) is Err,
    ensures
        parse_developer_fields(data, at, fields, big_endian, descriptions)
            == parse_developer_fields(data, at, fields.take(count), big_endian, descriptions),
    decreases fields.len(),
{
    if count == fields.len() {
        assert(fields.take(count) =~= fields);
    } else {
        assert(fields.drop_last().take(count) =~= fields.take(count));
        lemma_developer_fields_error_sticks(
            data,
            at,
            fields.drop_last(),
            big_endian,
            descriptions,
            count,
        );
    }
}


/// Reads the values of the ordinary fields of `definition`.
fn read_field_values(cursor: &mut Cursor, definition: &Definition) -> (result: Result<
    Vec<DataField>,
    ErrorKind,
>)
    requires
        old(cursor).wf(),
    ensures
        final(cursor).wf(),
        final(cursor).data() == old(cursor).data(),
        final(cursor).limit() == old(cursor).limit(),
        match result {
            Ok(values) => parse_fields(
                old(cursor).window(),
                old(cursor).position() as int,
                definition.fields@,
                definition.big_endian,
            ) == Ok::<(Seq<DataFieldView>, int), ErrorView>(
                (fields_view(values@), final(cursor).position() as int),
            ),
            Err(error) => parse_fields(
                old(cursor).window(),
                old(cursor).position() as int,
                definition.fields@,
                definition.big_endian,
            ) == Err::<(Seq<DataFieldView>, int), ErrorView>(error@),
        },
{
    let data = cursor.data();
    let ghost window = cursor.window();
    let ghost start = cursor.position() as int;
    let ghost fields = definition.fields@;
    let big_endian = definition.big_endian;
    let count = definition.fields.len();
    let mut values: Vec<DataField> = Vec::new();
    let mut i: usize = 0;
    proof {
        assert(fields_view(values@) =~= Seq::<DataFieldView>::empty());
        assert(fields.take(0) =~= Seq::<FieldDefinition>::empty());
    }
    while i < count
        invariant
            i <= count,
            count == fields.len(),
            fields == definition.fields@,
            start == old(cursor).position(),
            big_endian == definition.big_endian,
            cursor.wf(),
            cursor.data() == data,
            data == old(cursor).data(),
            cursor.limit() == old(cursor).limit(),
            window == data@.take(cursor.limit() as int),
            parse_fields(window, start, fields.take(i as int), big_endian) == Ok::<
                (Seq<DataFieldView>, int),
                ErrorView,
            >((fields_view(values@), cursor.position() as int)),
        decreases count - i,
    {
        let field = definition.fields[i];
        let at = cursor.position();
        proof {
            assert(fields.take(i + 1).drop_last() =~= fields.take(i as int));
            assert(fields.take(i + 1).last() == field);
            assert(at + field.size <= cursor.limit() ==> window.subrange(
                at as int,
                at + field.size,
            ) =~= data@.subrange(at as int, at + field.size));
        }
        match cursor.read(field.size as usize) {
            Err(error) => {
                proof {
                    lemma_fields_error_sticks(window, start, fields, big_endian, i + 1);
                }
                return Err(error);
            },
            Ok(_) => {},
        }
        match decode_value_at(field.base_type, big_endian, data, at, field.size as usize) {
            Err(error) => {
                proof {
                    lemma_fields_error_sticks(window, start, fields, big_endian, i + 1);
                }
                return Err(error);
            },
            Ok(value) => {
                let ghost before = values@;
                let decoded = DataField { number: field.number, developer_index: None, value };
                values.push(decoded);
                proof {
                    assert(fields_view(values@) =~= fields_view(before).push(decoded@));
                }
            },
        }
        i = i + 1;
    }
    proof {
        assert(fields.take(count as int) =~= fields);
    }
    Ok(values)
}

/// Reads the values of the developer fields of `definition` and appends
/// them to `values`.
fn read_developer_values(
    cursor: &mut Cursor,
    definition: &Definition,
    registry: &DeveloperFieldRegistry,
    values: Vec<DataField>,
) -> (result: Result<Vec<DataField>, ErrorKind>)
    requires
        old(cursor).wf(),
    ensures
        final(cursor).wf(),
        final(cursor).data() == old(cursor).data(),
        final(cursor).limit() == old(cursor).limit(),
        match result {
            Ok(all) => parse_developer_fields(
                old(cursor).window(),
                old(cursor).position() as int,
                definition.developer_fields@,
                definition.big_endian,
                registry.descriptions(),
            ) matches Ok((added, end)) && end == final(cursor).position() && fields_view(all@)
                == fields_view(values@) + added,
            Err(error) => parse_developer_fields(
                old(cursor).window(),
                old(cursor).position() as int,
                definition.developer_fields@,
                definition.big_endian,
                registry.descriptions(),
            ) == Err::<(Seq<DataFieldView>, int), ErrorView>(error@),
        },
{
    let data = cursor.data();
    let ghost window = cursor.window();
    let ghost start = cursor.position() as int;
    let ghost fields = definition.developer_fields@;
    let ghost descriptions = registry.descriptions();
    let ghost prefix = fields_view(values@);
    let ghost mut added: Seq<DataFieldView> = Seq::empty();
    let big_endian = definition.big_endian;
    let count = definition.developer_fields.len();
    let mut all = values;
    let mut i: usize = 0;
    proof {
        assert(fields.take(0) =~= Seq::<DeveloperFieldDefinition>::empty());
        assert(prefix + added =~= prefix);
    }
    while i < count
        invariant
            i <= count,
            count == fields.len(),
            fields == definition.developer_fields@,
            start == old(cursor).position(),
            big_endian == definition.big_endian,
            descriptions == registry.descriptions(),
            cursor.wf(),
            cursor.data() == data,
            data == old(cursor).data(),
            cursor.limit() == old(cursor).limit(),
            window == data@.take(cursor.limit() as int),
            fields_view(all@) == prefix + added,
            parse_developer_fields(window, start, fields.take(i as int), big_endian, descriptions)
                == Ok::<(Seq<DataFieldView>, int), ErrorView>((added, cursor.position() as int)),
        decreases count - i,
    {
        let field = definition.developer_fields[i];
        let at = cursor.position();
        proof {
            assert(fields.take(i + 1).drop_last() =~= fields.take(i as int));
            assert(fields.take(i + 1).last() == field);
            assert(at + field.size <= cursor.limit() ==> window.subrange(
                at as int,
                at + field.size,
            ) =~= data@.subrange(at as int, at + field.size));
        }
        let base_type = match registry.resolve(field.developer_index, field.number) {
            Err(error) => {
                proof {
                    lemma_developer_fields_error_sticks(
                        window,
                        start,
                        fields,
                        big_endian,
                        descriptions,
                        i + 1,
                    );
                }
                return Err(error);
            },
            Ok((_, base_type)) => base_type,
        };
        match cursor.read(field.size as usize) {
            Err(error) => {
                proof {
                    lemma_developer_fields_error_sticks(
                        window,
                        start,
                        fields,
                        big_endian,
                        descriptions,
                        i + 1,
                    );
                }
                return Err(error);
            },
            Ok(_) => {},
        }
        match decode_value_at(base_type, big_endian, data, at, field.size as usize) {
            Err(error) => {
                proof {
                    lemma_developer_fields_error_sticks(
                        window,
                        start,
                        fields,
                        big_endian,
                        descriptions,
                        i + 1,
                    );
                }
                return Err(error);
            },
            Ok(value) => {
                let ghost before = all@;
                let decoded = DataField {
                    number: field.number,
                    developer_index: Some(field.developer_index),
                    value,
                };
                all.push(decoded);
                proof {
                    assert(fields_view(all@) =~= fields_view(before).push(decoded@));
                    assert((prefix + added).push(decoded@) =~= prefix + added.push(decoded@));
                    added = added.push(decoded@);
                }
            },
        }
        i = i + 1;
    }
    proof {
        assert(fields.take(count as int) =~= fields);
    }
    Ok(all)
}

/// The value of the first ordinary field with the given number.
pub fn find_value(fields: &Vec<DataField>, number: u8) -> (found: Option<&Value>)
    ensures
        match found {
            Some(value) => find_field(fields_view(fields@), number) == Some(value@),
            None => find_field(fields_view(fields@), number) is None,
        },
{
    let ghost views = fields_view(fields@);
    let mut i: usize = 0;
    proof {
        assert(views.skip(0) =~= views);
    }
    while i < fields.len()
        invariant
            i <= fields@.len(),
            views == fields_view(fields@),
            find_field(views, number) == find_field(views.skip(i as int), number),
        decreases fields@.len() - i,
    {
        proof {
            assert(views.skip(i as int)[0] == fields@[i as int]@);
            assert(views.skip(i as int).drop_first() =~= views.skip(i + 1));
        }
        if fields[i].number == number && fields[i].developer_index.is_none() {
            return Some(&fields[i].value);
        }
        i = i + 1;
    }
    None
}

/// The byte that a value is, if it is a single valid element of a one-byte
/// unsigned base type.
pub fn value_byte(value: &Value) -> (byte: Option<u8>)
    ensures
        byte == byte_of(value@),
{
    match value {
        Value::Single(Scalar::UInt8(byte)) => Some(*byte),
        Value::Single(Scalar::UInt8z(byte)) => Some(*byte),
        Value::Single(Scalar::Enum(byte)) => Some(*byte),
        Value::Single(Scalar::Byte(byte)) => Some(*byte),
        _ => None,
    }
}

/// The byte that the first ordinary field with the given number holds.
pub fn find_byte(fields: &Vec<DataField>, number: u8) -> (byte: Option<u8>)
    ensures
        byte == byte_field(fields_view(fields@), number),
{
    match find_value(fields, number) {
        Some(value) => value_byte(value),
        None => None,
    }
}

fn element_byte(element: Scalar) -> (byte: u8)
    ensures
        byte == wire_byte(element),
{
    match element {
        Scalar::Byte(byte) => byte,
        _ => 0xFF,
    }
}

/// The bytes on the wire behind a value, read as a field of the base type
/// `byte`: the byte of each element that is one, `0xFF` for each that is
/// not, and none for a string.
pub fn value_bytes(value: &Value) -> (bytes: Vec<u8>)
    ensures
        bytes@ == bytes_of(value@),
{
    let mut bytes: Vec<u8> = Vec::new();
    match value {
        Value::Single(element) => {
            bytes.push(element_byte(*element));
            proof {
                assert(bytes@ =~= seq![wire_byte(*element)]);
            }
        },
        Value::Array(elements) => {
            let mut i: usize = 0;
            while i < elements.len()
                invariant
                    i <= elements@.len(),
                    bytes@.len() == i,
                    forall|j: int| 0 <= j < i ==> bytes@[j] == wire_byte(elements@[j]),
                decreases elements@.len() - i,
            {
                bytes.push(element_byte(elements[i]));
                i = i + 1;
            }
            proof {
                assert(bytes@ =~= elements@.map_values(|element: Scalar| wire_byte(element)));
            }
        },
        Value::String(_) => {
            proof {
                assert(bytes@ =~= Seq::<u8>::empty());
            }
        },
    }
    bytes
}

/// The state of a decode session: the definition table and the developer
/// field registry. Both belong to the session alone.
pub struct Session {
    definitions: DefinitionTable,
    developer: DeveloperFieldRegistry,
}

impl View for Session {
    type V = SessionView;

    closed spec fn view(&self) -> SessionView {
        SessionView {
            definitions: self.definitions@,
            descriptions: self.developer.descriptions(),
            ids: self.developer.ids(),
        }
    }
}

impl Session {
    /// The session's tables are well formed.
    pub closed spec fn wf(&self) -> bool {
        self.definitions.wf()
    }

    /// The definition table, to look into.
    pub fn definitions(&self) -> (table: &DefinitionTable)
        requires
            self.wf(),
        ensures
            table.wf(),
            table@ == self@.definitions,
    {
        &self.definitions
    }

    /// The developer field registry, to look into.
    pub fn developer(&self) -> (registry: &DeveloperFieldRegistry)
        ensures
            registry.descriptions() == self@.descriptions,
            registry.ids() == self@.ids,
    {
        &self.developer
    }

    /// A session in which nothing is defined or registered.
    pub fn new() -> (session: Session)
        ensures
            session.wf(),
            session@ == empty_session(),
    {
        Session { definitions: DefinitionTable::new(), developer: DeveloperFieldRegistry::new() }
    }

    /// Registers what a decoded data message declares about developers and
    /// developer fields, if it declares anything.
    pub fn register_record(&mut self, record: &DataRecord)
        requires
            old(self).wf(),
        ensures
            final(self).wf(),
            final(self)@ == register(old(self)@, record@),
    {
        if record.global_number == FIELD_DESCRIPTION {
            let index = find_byte(&record.fields, 0);
            let number = find_byte(&record.fields, 1);
            let id = find_byte(&record.fields, 2);
            match (index, number, id) {
                (Some(developer_index), Some(number), Some(id)) => {
                    match BaseType::from_id(id) {
                        Some(base_type) => {
                            self.developer.register_field_description(
                                FieldDescription { developer_index, number, base_type },
                            );
                        },
                        None => {},
                    }
                },
                _ => {},
            }
        } else if record.global_number == DEVELOPER_DATA_ID {
            match find_byte(&record.fields, 3) {
                Some(developer_index) => {
                    let application_id = match find_value(&record.fields, 1) {
                        Some(value) => value_bytes(value),
                        None => Vec::new(),
                    };
                    self.developer.register_developer_id(
                        DeveloperDataId { developer_index, application_id },
                    );
                },
                None => {},
            }
        }
    }

    /// Reads a data message whose header byte, at `header_at`, has just been
    /// consumed.
    pub fn read_data(
        &self,
        cursor: &mut Cursor,
        header_at: usize,
        local_number: u8,
        time_offset: Option<u8>,
    ) -> (result: Result<DataRecord, ErrorKind>)
        requires
            self.wf(),
            old(cursor).wf(),
        ensures
            final(cursor).wf(),
            final(cursor).data() == old(cursor).data(),
            final(cursor).limit() == old(cursor).limit(),
            match result {
                Ok(record) => parse_data(
                    old(cursor).window(),
                    old(cursor).position() as int,
                    header_at as int,
                    local_number,
                    time_offset,
                    self@,
                ) == Ok::<(DataRecordView, int), ErrorView>(
                    (record@, final(cursor).position() as int),
                ),
                Err(error) => parse_data(
                    old(cursor).window(),
                    old(cursor).position() as int,
                    header_at as int,
                    local_number,
                    time_offset,
                    self@,
                ) == Err::<(DataRecordView, int), ErrorView>(error@),
            },
    {
        let definition = match self.definitions.lookup(local_number, header_at) {
            Err(error) => {
                return Err(error);
            },
            Ok(definition) => definition,
        };
        let values = match read_field_values(cursor, definition) {
            Err(error) => {
                return Err(error);
            },
            Ok(values) => values,
        };
        let fields = match read_developer_values(cursor, definition, &self.developer, values) {
            Err(error) => {
                return Err(error);
            },
            Ok(fields) => fields,
        };
        Ok(
            DataRecord {
                local_number,
                global_number: definition.global_number,
                time_offset,
                fields,
            },
        )
    }

    /// Decodes the record at the cursor and brings the session up to date.
    ///
    /// On an error the session is as it was.
    pub fn decode_record(&mut self, cursor: &mut Cursor) -> (result: Result<
        DecodedRecord,
        ErrorKind,
    >)
        requires
            old(self).wf(),
            old(cursor).wf(),
        ensures
            final(self).wf(),
            final(cursor).wf(),
            final(cursor).data() == old(cursor).data(),
            final(cursor).limit() == old(cursor).limit(),
            match result {
                Ok(record) => parse_record(
                    old(cursor).window(),
                    old(cursor).position() as int,
                    old(self)@,
                ) == Ok::<(RecordView, SessionView, int), ErrorView>(
                    (record@, final(self)@, final(cursor).position() as int),
                ),
                Err(error) => {
                    &&& parse_record(old(cursor).window(), old(cursor).position() as int, old(self)@)
                        == Err::<(RecordView, SessionView, int), ErrorView>(error@)
                    &&& final(self)@ == old(self)@
                },
            },
    {
        let header_at = cursor.position();
        let byte = match cursor.read_u8() {
            Err(error) => {
                return Err(error);
            },
            Ok(byte) => byte,
        };
        match RecordHeader::parse(byte) {
            RecordHeader::Definition { local_number, developer } => {
                let definition = match decode_definition(cursor, developer) {
                    Err(error) => {
                        return Err(error);
                    },
                    Ok(definition) => definition,
                };
                self.definitions.define(local_number, definition.duplicate());
                Ok(DecodedRecord::Definition(local_number, definition))
            },
            RecordHeader::Data { local_number } => {
                let record = match self.read_data(cursor, header_at, local_number, None) {
                    Err(error) => {
                        return Err(error);
                    },
                    Ok(record) => record,
                };
                self.register_record(&record);
                Ok(DecodedRecord::Data(record))
            },
            RecordHeader::CompressedTimestamp { local_number, time_offset } => {
                let record = match self.read_data(
                    cursor,
                    header_at,
                    local_number,
                    Some(time_offset),
                ) {
                    Err(error) => {
                        return Err(error);
                    },
                    Ok(record) => record,
                };
                self.register_record(&record);
                Ok(DecodedRecord::Data(record))
            },
        }
    }
}

} // verus!
