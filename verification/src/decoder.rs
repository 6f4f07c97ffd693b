//! The file decoder: header, records, checksum.

use vstd::prelude::*;
use vstd::slice::slice_to_vec;
use crate::crc::checksum;
use crate::cursor::Cursor;
use crate::definition::shortfall;
use crate::endian::{le_value, lemma_pow256_values, read_unsigned};
use crate::error::{ErrorKind, ErrorView, FitObject, FitObjectView, Needed};
use crate::header::{decode_header, parse_header, FitHeader};
use crate::record::{records_view, DecodedRecord, RecordView};
use crate::session::{empty_session, lemma_record_advances, parse_records, Session};

verus! {

/// A decoded file.
#[derive(Clone, Debug, PartialEq, Eq)]
pub struct Decoded {
    /// The header, then every record of the file in stream order.
    pub records: Vec<DecodedRecord>,
    /// The number of bytes that stand between the record section that the
    /// header announces and the file's checksum.
    pub trailing: usize,
}

/// What a [`Decoded`] holds, as mathematical values.
pub struct DecodedView {
    pub records: Seq<RecordView>,
    pub trailing: usize,
}

impl View for Decoded {
    type V = DecodedView;

    open spec fn view(&self) -> DecodedView {
        DecodedView { records: records_view(self.records@), trailing: self.trailing }
    }
}

impl Decoded {
    /// The trailing-bytes condition of the file: the number of bytes left
    /// over between its record section and its checksum, if there are any.
    pub fn trailing_bytes(&self) -> (condition: Option<ErrorKind>)
        ensures
            condition == (if self.trailing > 0 {
                Some(ErrorKind::TrailingBytes(self.trailing))
            } else {
                None
            }),
    {
        if self.trailing > 0 {
            Some(ErrorKind::TrailingBytes(self.trailing))
        } else {
            None
        }
    }
}

/// The offset at which the record section that `header` announces ends.
pub open spec fn end_of_records(header: FitHeader) -> int {
    header.header_size + header.data_size
}

/// The part of the input that records may be read from: everything before
/// the end of the record section, or all of the input if it ends earlier.
pub open spec fn record_window(data: Seq<u8>, header: FitHeader) -> Seq<u8> {
    if end_of_records(header) <= data.len() {
        data.take(end_of_records(header))
    } else {
        data
    }
}

/// The bytes left over between the record section that `header` announces
/// and the two checksum bytes at the end of the input.
pub open spec fn surplus(data: Seq<u8>, header: FitHeader) -> Seq<u8> {
    data.subrange(end_of_records(header), data.len() - 2)
}

/// What decoding the rest of a file ends in, once its header is known.
///
/// Records are decoded from the end of the header until the record section
/// that the header announces is used up. The last two bytes of the input are
/// the stored checksum, least significant byte first; the calculated
/// checksum covers every byte before them. Bytes that stand between the
/// record section and the checksum are left over: they are not decoded, and
/// the result counts them. If the two checksums differ, the error carries
/// the header and all the records, the stored checksum, the calculated one
/// and the bytes left over.
pub open spec fn parse_body(data: Seq<u8>, header: FitHeader) -> Result<DecodedView, ErrorView> {
    let start = header.header_size as int;
    let end = end_of_records(header);
    if data.len() < start {
        Err(shortfall(0, start, data.len() as int))
    } else {
        match parse_records(record_window(data, header), start, end, empty_session()) {
            Err(error) => Err(error),
            Ok(records) => {
                if end + 2 > data.len() {
                    Err(shortfall(end, 2, data.len() as int))
                } else {
                    let stored = le_value(data.skip(data.len() - 2)) as u16;
                    let calculated = checksum(data.take(data.len() - 2));
                    let all = seq![RecordView::Header(header)] + records;
                    if stored != calculated {
                        Err(
                            ErrorView::InvalidCrc(
                                surplus(data, header),
                                FitObjectView::Records(all),
                                stored,
                                calculated,
                            ),
                        )
                    } else {
                        Ok(
                            DecodedView {
                                records: all,
                                trailing: (data.len() - 2 - end) as usize,
                            },
                        )
                    }
                }
            },
        }
    }
}

/// What decoding a file ends in.
pub open spec fn parse_file(data: Seq<u8>) -> Result<DecodedView, ErrorView> {
    match parse_header(data) {
        Err(error) => Err(error),
        Ok(header) => parse_body(data, header),
    }
}

/// Whether an exec result carries what a spec result says.
pub open spec fn decoded_result_is(
    result: Result<Decoded, ErrorKind>,
    expected: Result<DecodedView, ErrorView>,
) -> bool {
    match result {
        Ok(decoded) => expected == Ok::<DecodedView, ErrorView>(decoded@),
        Err(error) => expected == Err::<DecodedView, ErrorView>(error@),
    }
}

/// Records decoded so far, followed by what decoding the rest ends in.
pub open spec fn followed_by(
    decoded: Seq<RecordView>,
    rest: Result<Seq<RecordView>, ErrorView>,
) -> Result<Seq<RecordView>, ErrorView> {
    match rest {
        Err(error) => Err(error),
        Ok(records) => Ok(decoded + records),
    }
}

/// Decodes the records and the checksum behind a cursor that has just
/// consumed the header.
fn decode_behind_header(cursor: Cursor, header: FitHeader) -> (result: Result<Decoded, ErrorKind>)
    requires
        cursor.wf(),
        cursor.position() == header.header_size,
        cursor.limit() == cursor.data()@.len(),
    ensures
        decoded_result_is(result, parse_body(cursor.data()@, header)),
{
    let mut reader = cursor;
    let data = reader.data();
    let len = data.len();
    let start = reader.position();
    let end: u64 = header.header_size as u64 + header.data_size as u64;
    let limit: usize = if end <= len as u64 {
        end as usize
    } else {
        len
    };
    reader.set_limit(limit);
    let ghost window = reader.window();
    let ghost whole = parse_records(window, start as int, end as int, empty_session());
    let ghost mut decoded: Seq<RecordView> = Seq::empty();
    let mut session = Session::new();
    let mut records: Vec<DecodedRecord> = Vec::new();
    records.push(DecodedRecord::Header(header));
    proof {
        assert(data@.len() == data.len());
        assert(window =~= record_window(data@, header));
        assert(records_view(records@) =~= seq![RecordView::Header(header)] + decoded);
        match whole {
            Ok(all) => {
                assert(decoded + all =~= all);
            },
            Err(_) => {},
        }
    }
    while (reader.position() as u64) < end
        invariant
            session.wf(),
            reader.wf(),
            reader.data() == data,
            data == cursor.data(),
            reader.limit() == limit,
            start == header.header_size,
            start <= data@.len(),
            end == end_of_records(header),
            whole == parse_records(
                record_window(data@, header),
                start as int,
                end as int,
                empty_session(),
            ),
            limit <= data@.len(),
            limit <= end,
            window == data@.take(limit as int),
            records_view(records@) == seq![RecordView::Header(header)] + decoded,
            whole == followed_by(
                decoded,
                parse_records(window, reader.position() as int, end as int, session@),
            ),
        decreases limit - reader.position(),
    {
        proof {
            lemma_record_advances(window, reader.position() as int, session@);
        }
        match session.decode_record(&mut reader) {
            Err(error) => {
                return Err(error);
            },
            Ok(record) => {
                let ghost earlier = records@;
                let ghost view = record@;
                records.push(record);
                proof {
                    assert(records_view(records@) =~= records_view(earlier).push(view));
                    assert(records_view(earlier).push(view) =~= seq![RecordView::Header(header)]
                        + decoded.push(view));
                    match parse_records(window, reader.position() as int, end as int, session@) {
                        Ok(rest) => {
                            assert(decoded + (seq![view] + rest) =~= decoded.push(view) + rest);
                        },
                        Err(_) => {},
                    }
                    decoded = decoded.push(view);
                }
            },
        }
    }
    proof {
        assert(whole == Ok::<Seq<RecordView>, ErrorView>(decoded + Seq::<RecordView>::empty()));
        assert(decoded + Seq::<RecordView>::empty() =~= decoded);
        lemma_pow256_values();
    }
    let at = reader.position();
    if len - at < 2 {
        return Err(ErrorKind::UnexpectedEof(Needed::Size(2 - (len - at))));
    }
    let trailing = len - at - 2;
    reader.set_limit(len);
    let left_over = match reader.read(trailing) {
        Err(error) => {
            return Err(error);
        },
        Ok(bytes) => bytes,
    };
    let calculated = reader.crc();
    let stored = read_unsigned(data, len - 2, 2, false) as u16;
    proof {
        assert(data@.skip(len - 2) =~= data@.subrange(len - 2, len as int));
    }
    if stored != calculated {
        let rest = slice_to_vec(left_over);
        return Err(ErrorKind::InvalidCrc((rest, FitObject::Records(records), stored, calculated)));
    }
    Ok(Decoded { records, trailing })
}

/// Decodes the records and the checksum of a file whose header is known
/// already, as it is after a mismatch of the header's checksum.
pub fn decode_body(data: &[u8], header: FitHeader) -> (result: Result<Decoded, ErrorKind>)
    ensures
        decoded_result_is(result, parse_body(data@, header)),
{
    let start = header.header_size as usize;
    if data.len() < start {
        return Err(ErrorKind::UnexpectedEof(Needed::Size(start - data.len())));
    }
    let mut cursor = Cursor::new(data);
    let skipped = cursor.read(start);
    assert(skipped is Ok);
    decode_behind_header(cursor, header)
}

/// Decodes a file: its header, its records and its checksum.
pub fn decode(data: &[u8]) -> (result: Result<Decoded, ErrorKind>)
    ensures
        decoded_result_is(result, parse_file(data@)),
{
    let mut cursor = Cursor::new(data);
    proof {
        assert(cursor.window() =~= data@);
    }
    match decode_header(&mut cursor) {
        Err(error) => Err(error),
        Ok(header) => decode_behind_header(cursor, header),
    }
}

} // verus!
