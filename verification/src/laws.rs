//! Laws of the decoder: what holds of every input, whatever it is.

use vstd::prelude::*;
use crate::crc::checksum;
use crate::decoder::{
    end_of_records, parse_body, parse_file, record_window, surplus, DecodedView,
};
use crate::definition::{
    parse_definition, DefinitionView, DeveloperFieldDefinition, FieldDefinition,
};
use crate::endian::{
    be_value, le_value, lemma_be_bound, lemma_le_bound, lemma_orders_agree_iff_palindrome,
    lemma_pow256_values, pow256,
};
use crate::error::{ErrorView, FitObjectView, Needed};
use crate::header::{parse_header, FitHeader};
use crate::record::{record_header_of, DataFieldView, RecordView};
use crate::session::{
    empty_session, lemma_developer_fields_advance, lemma_developer_fields_error_sticks,
    lemma_fields_advance, lemma_record_advances, parse_data, parse_developer_fields,
    parse_fields, parse_record, parse_records, SessionView,
};
use crate::value::{
    decode_elements, decode_scalar, decode_value, scalar_of, width_of, BaseType,
};

verus! {

/// Two different numbers that both fit the width of a base type stand for
/// two different elements.
pub proof fn lemma_elements_differ(base_type: BaseType, a: nat, b: nat)
    requires
        a < pow256(width_of(base_type)),
        b < pow256(width_of(base_type)),
        a != b,
    ensures
        scalar_of(base_type, a) != scalar_of(base_type, b),
{
    lemma_pow256_values();
}

/// Byte order matters for every base type that is wider than one byte: bytes
/// that do not read the same forwards and backwards decode to different
/// elements in the two byte orders.
pub proof fn lemma_byte_order_matters(base_type: BaseType, bytes: Seq<u8>)
    requires
        width_of(base_type) > 1,
        bytes.len() == width_of(base_type),
        bytes != bytes.reverse(),
    ensures
        decode_scalar(base_type, true, bytes) != decode_scalar(base_type, false, bytes),
{
    lemma_orders_agree_iff_palindrome(bytes);
    lemma_be_bound(bytes);
    lemma_le_bound(bytes);
    lemma_elements_differ(base_type, be_value(bytes), le_value(bytes));
}

/// One byte spells the same number in both byte orders.
pub proof fn lemma_one_byte_has_no_order(bytes: Seq<u8>)
    requires
        bytes.len() == 1,
    ensures
        le_value(bytes) == be_value(bytes),
        le_value(bytes) == bytes[0],
{
    reveal_with_fuel(le_value, 2);
    reveal_with_fuel(be_value, 2);
    assert(bytes.drop_first().len() == 0);
    assert(bytes.drop_last().len() == 0);
}

/// Byte order does not matter for a base type that is one byte wide,
/// whatever the size of the field.
pub proof fn lemma_single_byte_types_have_no_order(base_type: BaseType, bytes: Seq<u8>)
    requires
        width_of(base_type) == 1,
    ensures
        decode_value(base_type, true, bytes) == decode_value(base_type, false, bytes),
{
    if bytes.len() == 1 {
        lemma_one_byte_has_no_order(bytes);
    }
    assert forall|i: int| 0 <= i < bytes.len() implies decode_scalar(
        base_type,
        true,
        #[trigger] bytes.subrange(i, i + 1),
    ) == decode_scalar(base_type, false, bytes.subrange(i, i + 1)) by {
        lemma_one_byte_has_no_order(bytes.subrange(i, i + 1));
    }
    assert(decode_elements(base_type, true, bytes) =~= decode_elements(base_type, false, bytes));
}

/// The session in which `definition` has been made the active definition
/// of channel `local`.
pub open spec fn with_definition(session: SessionView, local: u8, definition: DefinitionView) -> SessionView {
    SessionView { definitions: session.definitions.insert(local, definition), ..session }
}

/// A definition replaces the one before it on the same channel: after two
/// definition messages in a row for one channel, the session is the one that
/// the second alone would have left, and a data message on that channel is
/// decoded by the second definition.
pub proof fn lemma_redefinition_replaces(
    data: Seq<u8>,
    session: SessionView,
    local: u8,
    at_first: int,
    at_second: int,
    at_data: int,
    time_offset: Option<u8>,
)
    requires
        parse_record(data, at_first, session) matches Ok((RecordView::Definition(channel, _), _, end))
            && channel == local && end == at_second,
        parse_record(data, at_second, parse_record(data, at_first, session)->Ok_0.1) matches Ok(
            (RecordView::Definition(channel, _), _, _),
        ) && channel == local,
    ensures
        ({
            let after_first = parse_record(data, at_first, session)->Ok_0.1;
            let second = parse_record(data, at_second, after_first)->Ok_0;
            let after_second = second.1;
            &&& second.0 matches RecordView::Definition(_, definition) && after_second
                == with_definition(session, local, definition)
                && after_second.definitions[local] == definition
            &&& parse_data(data, at_data + 1, at_data, local, time_offset, after_second)
                == parse_data(
                    data,
                    at_data + 1,
                    at_data,
                    local,
                    time_offset,
                    with_definition(session, local, second.0->Definition_1),
                )
        }),
{
    let after_first = parse_record(data, at_first, session)->Ok_0.1;
    let second = parse_record(data, at_second, after_first)->Ok_0;
    let definition = second.0->Definition_1;
    assert(after_first.definitions.insert(local, definition) =~= session.definitions.insert(
        local,
        definition,
    ));
}

/// A data message on a channel that has no definition is rejected: the
/// error names the channel and the offset of the record's header byte.
pub proof fn lemma_undefined_channel_is_rejected(data: Seq<u8>, at: int, session: SessionView)
    requires
        0 <= at < data.len(),
        !(record_header_of(data[at]) is Definition),
        !session.definitions.contains_key(record_header_of(data[at]).local()),
    ensures
        parse_record(data, at, session) == Err::<(RecordView, SessionView, int), ErrorView>(
            ErrorView::MissingDefinitionMessage(record_header_of(data[at]).local(), at as usize),
        ),
{
}

/// A developer field that no field description has registered yet is
/// rejected: reading the developer fields fails, and it fails with the
/// missing-developer-definition error if the fields before it can be read.
pub proof fn lemma_undescribed_field_is_rejected(
    data: Seq<u8>,
    at: int,
    fields: Seq<DeveloperFieldDefinition>,
    big_endian: bool,
    descriptions: Map<(u8, u8), BaseType>,
    index: int,
)
    requires
        0 <= index < fields.len(),
        !descriptions.contains_key((fields[index].developer_index, fields[index].number)),
    ensures
        parse_developer_fields(data, at, fields, big_endian, descriptions) is Err,
        parse_developer_fields(data, at, fields.take(index), big_endian, descriptions) is Ok
            ==> parse_developer_fields(data, at, fields, big_endian, descriptions) == Err::<
            (Seq<DataFieldView>, int),
            ErrorView,
        >(ErrorView::MissingDeveloperDefinitionMessage),
{
    let upto = fields.take(index + 1);
    assert(upto.drop_last() =~= fields.take(index));
    assert(upto.last() == fields[index]);
    if parse_developer_fields(data, at, fields.take(index), big_endian, descriptions) is Err {
        lemma_developer_fields_error_sticks(data, at, fields, big_endian, descriptions, index);
    } else {
        lemma_developer_fields_error_sticks(data, at, fields, big_endian, descriptions, index + 1);
    }
}

/// A data message whose definition names a developer field that no field
/// description has registered yet is rejected.
pub proof fn lemma_forward_reference_is_rejected(
    data: Seq<u8>,
    at: int,
    header_at: int,
    local: u8,
    time_offset: Option<u8>,
    session: SessionView,
    index: int,
)
    requires
        session.definitions.contains_key(local),
        0 <= index < session.definitions[local].developer_fields.len(),
        !session.descriptions.contains_key(
            (
                session.definitions[local].developer_fields[index].developer_index,
                session.definitions[local].developer_fields[index].number,
            ),
        ),
    ensures
        parse_data(data, at, header_at, local, time_offset, session) is Err,
{
    let definition = session.definitions[local];
    match parse_fields(data, at, definition.fields, definition.big_endian) {
        Ok((fields, next)) => {
            lemma_undescribed_field_is_rejected(
                data,
                next,
                definition.developer_fields,
                definition.big_endian,
                session.descriptions,
                index,
            );
        },
        Err(_) => {},
    }
}


/// A header that is read without error is read from its own bytes alone:
/// any input that starts with the same bytes has the same header.
pub proof fn lemma_header_depends_on_its_bytes(data: Seq<u8>, other: Seq<u8>)
    requires
        parse_header(data) is Ok,
        other.len() >= parse_header(data)->Ok_0.header_size,
        other.take(parse_header(data)->Ok_0.header_size as int) == data.take(
            parse_header(data)->Ok_0.header_size as int,
        ),
    ensures
        parse_header(other) == parse_header(data),
{
    let size = data[0] as int;
    assert(forall|i: int| 0 <= i < size ==> other[i] == other.take(size)[i] && data[i]
        == data.take(size)[i]);
    assert(other.subrange(8, 12) =~= data.subrange(8, 12));
    assert(other.subrange(2, 4) =~= data.subrange(2, 4));
    assert(other.subrange(4, 8) =~= data.subrange(4, 8));
    assert(other.take(12) =~= data.take(12));
    if size == 14 {
        assert(other.subrange(12, 14) =~= data.subrange(12, 14));
    }
}

/// A file that decodes without error holds its header, its record section
/// and its two checksum bytes, and counts what stands between the last two.
pub proof fn lemma_decoded_file_is_complete(data: Seq<u8>)
    requires
        parse_file(data) is Ok,
    ensures
        parse_header(data) is Ok,
        parse_header(data)->Ok_0.header_size <= end_of_records(parse_header(data)->Ok_0),
        end_of_records(parse_header(data)->Ok_0) + 2 <= data.len(),
        data.len() <= usize::MAX ==> parse_file(data)->Ok_0.trailing == data.len() - 2
            - end_of_records(parse_header(data)->Ok_0),
        parse_file(data)->Ok_0.records.len() >= 1,
        parse_file(data)->Ok_0.records[0] == RecordView::Header(parse_header(data)->Ok_0),
{
}

/// Corrupting the two checksum bytes of a file that decodes without error
/// loses nothing: decoding ends in a checksum mismatch that carries the very
/// same records and the same bytes left over, together with a stored and a
/// calculated checksum that differ.
pub proof fn lemma_corrupt_checksum_keeps_records(good: Seq<u8>, bad: Seq<u8>)
    requires
        parse_file(good) is Ok,
        bad.len() == good.len(),
        forall|i: int| 0 <= i < good.len() - 2 ==> bad[i] == good[i],
        bad != good,
    ensures
        ({
            let stored = le_value(bad.skip(bad.len() - 2)) as u16;
            let calculated = checksum(bad.take(bad.len() - 2));
            &&& stored != calculated
            &&& calculated == checksum(good.take(good.len() - 2))
            &&& parse_file(bad) == Err::<DecodedView, ErrorView>(
                ErrorView::InvalidCrc(
                    surplus(good, parse_header(good)->Ok_0),
                    FitObjectView::Records(parse_file(good)->Ok_0.records),
                    stored,
                    calculated,
                ),
            )
        }),
{
    let header = parse_header(good)->Ok_0;
    let end = end_of_records(header);
    let at = good.len() - 2;
    lemma_decoded_file_is_complete(good);
    assert(bad.take(header.header_size as int) =~= good.take(header.header_size as int));
    lemma_header_depends_on_its_bytes(good, bad);
    assert(bad.take(at) =~= good.take(at));
    assert(record_window(bad, header) =~= record_window(good, header));
    assert(surplus(bad, header) =~= surplus(good, header));
    let good_bytes = good.skip(at);
    let bad_bytes = bad.skip(at);
    assert(good_bytes != bad_bytes) by {
        if good_bytes == bad_bytes {
            assert(good_bytes[0] == bad_bytes[0] && good_bytes[1] == bad_bytes[1]);
            assert(bad =~= good);
        }
    }
    reveal_with_fuel(le_value, 3);
    assert(good_bytes.drop_first().drop_first().len() == 0);
    assert(bad_bytes.drop_first().drop_first().len() == 0);
    assert(le_value(good_bytes) == good_bytes[0] + 256 * good_bytes[1]);
    assert(le_value(bad_bytes) == bad_bytes[0] + 256 * bad_bytes[1]);
    assert(le_value(good_bytes) != le_value(bad_bytes)) by {
        if good_bytes[0] == bad_bytes[0] && good_bytes[1] == bad_bytes[1] {
            assert(good_bytes =~= bad_bytes);
        }
    }
}

/// Bytes between the record section and the checksum are left over, counted
/// and otherwise ignored. Take an input made of `body`, which is a header and
/// exactly the record section that it announces, then `left_over`, then the
/// two bytes `stored`. If the records of `body` decode, decoding the input
/// hands out those records and the length of `left_over`, provided `stored`
/// is the checksum of `body` and `left_over` together; if it is not, the
/// mismatch carries the same records and `left_over` itself.
pub proof fn lemma_left_over_bytes_are_counted(body: Seq<u8>, left_over: Seq<u8>, stored: Seq<u8>)
    requires
        parse_header(body) is Ok,
        body.len() == end_of_records(parse_header(body)->Ok_0),
        parse_records(
            body,
            parse_header(body)->Ok_0.header_size as int,
            body.len() as int,
            empty_session(),
        ) is Ok,
        stored.len() == 2,
        body.len() + left_over.len() + 2 <= usize::MAX,
    ensures
        ({
            let header = parse_header(body)->Ok_0;
            let records = seq![RecordView::Header(header)] + parse_records(
                body,
                header.header_size as int,
                body.len() as int,
                empty_session(),
            )->Ok_0;
            let expected = le_value(stored) as u16;
            let calculated = checksum(body + left_over);
            parse_file(body + left_over + stored) == (if expected == calculated {
                Ok::<DecodedView, ErrorView>(
                    DecodedView { records, trailing: left_over.len() as usize },
                )
            } else {
                Err::<DecodedView, ErrorView>(
                    ErrorView::InvalidCrc(
                        left_over,
                        FitObjectView::Records(records),
                        expected,
                        calculated,
                    ),
                )
            })
        }),
{
    let data = body + left_over + stored;
    let header = parse_header(body)->Ok_0;
    let end = end_of_records(header);
    assert(header.header_size <= body.len());
    assert(data.take(header.header_size as int) =~= body.take(header.header_size as int));
    lemma_header_depends_on_its_bytes(body, data);
    assert(record_window(data, header) =~= body);
    assert(data.skip(data.len() - 2) =~= stored);
    assert(data.take(data.len() - 2) =~= body + left_over);
    assert(surplus(data, header) =~= left_over);
}


/// Whether an error is anything but a shortfall of no bytes at all.
pub open spec fn is_no_empty_shortfall(error: ErrorView) -> bool {
    error != ErrorView::UnexpectedEof(Needed::Size(0))
}

/// A definition message that cannot be read for want of bytes wants at
/// least one.
pub proof fn lemma_definition_shortfall(data: Seq<u8>, at: int, developer: bool)
    requires
        0 <= at <= data.len(),
    ensures
        parse_definition(data, at, developer) matches Err(error) ==> is_no_empty_shortfall(error),
{
}

/// Fields that cannot be read for want of bytes want at least one.
pub proof fn lemma_fields_shortfall(
    data: Seq<u8>,
    at: int,
    fields: Seq<FieldDefinition>,
    big_endian: bool,
)
    requires
        0 <= at <= data.len(),
    ensures
        parse_fields(data, at, fields, big_endian) matches Err(error) ==> is_no_empty_shortfall(
            error,
        ),
    decreases fields.len(),
{
    if fields.len() > 0 {
        lemma_fields_shortfall(data, at, fields.drop_last(), big_endian);
        lemma_fields_advance(data, at, fields.drop_last(), big_endian);
    }
}

/// Developer fields that cannot be read for want of bytes want at least one.
pub proof fn lemma_developer_fields_shortfall(
    data: Seq<u8>,
    at: int,
    fields: Seq<DeveloperFieldDefinition>,
    big_endian: bool,
    descriptions: Map<(u8, u8), BaseType>,
)
    requires
        0 <= at <= data.len(),
    ensures
        parse_developer_fields(data, at, fields, big_endian, descriptions) matches Err(error)
            ==> is_no_empty_shortfall(error),
    decreases fields.len(),
{
    if fields.len() > 0 {
        lemma_developer_fields_shortfall(data, at, fields.drop_last(), big_endian, descriptions);
        lemma_developer_fields_advance(data, at, fields.drop_last(), big_endian, descriptions);
    }
}

/// A record that cannot be read for want of bytes wants at least one.
pub proof fn lemma_record_shortfall(data: Seq<u8>, at: int, session: SessionView)
    requires
        0 <= at <= data.len(),
    ensures
        parse_record(data, at, session) matches Err(error) ==> is_no_empty_shortfall(error),
{
    if at + 1 <= data.len() {
        lemma_definition_shortfall(data, at + 1, true);
        lemma_definition_shortfall(data, at + 1, false);
        let local = record_header_of(data[at]).local();
        if session.definitions.contains_key(local) {
            let definition = session.definitions[local];
            lemma_fields_shortfall(data, at + 1, definition.fields, definition.big_endian);
            lemma_fields_advance(data, at + 1, definition.fields, definition.big_endian);
            match parse_fields(data, at + 1, definition.fields, definition.big_endian) {
                Ok((_, next)) => {
                    lemma_developer_fields_shortfall(
                        data,
                        next,
                        definition.developer_fields,
                        definition.big_endian,
                        session.descriptions,
                    );
                },
                Err(_) => {},
            }
        }
    }
}

/// Records that cannot be read for want of bytes want at least one; and
/// records that can be read end inside the input.
pub proof fn lemma_records_shortfall(data: Seq<u8>, at: int, end: int, session: SessionView)
    requires
        0 <= at <= data.len(),
    ensures
        parse_records(data, at, end, session) matches Err(error) ==> is_no_empty_shortfall(error),
        parse_records(data, at, end, session) is Ok ==> end <= data.len(),
    decreases data.len() - at,
{
    if at < end {
        lemma_record_shortfall(data, at, session);
        lemma_record_advances(data, at, session);
        match parse_record(data, at, session) {
            Ok((_, next_session, next)) => {
                lemma_records_shortfall(data, next, end, next_session);
            },
            Err(_) => {},
        }
    }
}

/// The rest of a file that cannot be read for want of bytes wants at
/// least one.
pub proof fn lemma_body_shortfall(data: Seq<u8>, header: FitHeader)
    ensures
        parse_body(data, header) matches Err(error) ==> is_no_empty_shortfall(error),
{
    let start = header.header_size as int;
    if data.len() >= start {
        lemma_records_shortfall(
            record_window(data, header),
            start,
            end_of_records(header),
            empty_session(),
        );
    }
}

/// No shortfall is empty: when a file cannot be decoded for want of bytes
/// and the error says how many are wanted, it is at least one.
pub proof fn lemma_no_shortfall_is_empty(data: Seq<u8>)
    ensures
        parse_file(data) matches Err(error) ==> is_no_empty_shortfall(error),
{
    match parse_header(data) {
        Ok(header) => {
            lemma_body_shortfall(data, header);
        },
        Err(_) => {},
    }
}

} // verus!
