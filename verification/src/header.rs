//! The file header: twelve or fourteen bytes that open every FIT file.

use vstd::prelude::*;
use vstd::slice::{slice_subrange, slice_to_vec};
use crate::crc::{checksum, update_crc_range};
use crate::cursor::Cursor;
use crate::endian::{le_value, lemma_pow256_values, read_unsigned};
use crate::error::{ErrorKind, ErrorView, FitObject, FitObjectView, Needed, ParseErrorKind};

verus! {

/// A parsed file header.
#[derive(Clone, Copy, Debug, PartialEq, Eq)]
pub struct FitHeader {
    /// Length of the header in bytes: 12 or 14.
    pub header_size: u8,
    /// Protocol version byte.
    pub protocol_version: u8,
    /// Profile version.
    pub profile_version: u16,
    /// Length in bytes of the record section that follows the header.
    pub data_size: u32,
    /// The header's own checksum, which only a 14-byte header carries.
    pub crc: Option<u16>,
}


/// The four bytes that every header carries at offset 8: the text `.FIT`.
pub open spec fn signature() -> Seq<u8> {
    seq![0x2Eu8, 0x46u8, 0x49u8, 0x54u8]
}

/// The header that the first bytes of `data` spell, where `data` holds at
/// least as many bytes as its first byte announces.
pub open spec fn header_fields(data: Seq<u8>) -> FitHeader {
    FitHeader {
        header_size: data[0],
        protocol_version: data[1],
        profile_version: le_value(data.subrange(2, 4)) as u16,
        data_size: le_value(data.subrange(4, 8)) as u32,
        crc: if data[0] == 14 {
            Some(le_value(data.subrange(12, 14)) as u16)
        } else {
            None
        },
    }
}

/// What reading the header of `data` ends in.
///
/// An empty input cannot say how long its header is. A length other than 12
/// or 14 and a wrong signature break the grammar, at offsets 0 and 8. A
/// 14-byte header whose last two bytes are not the checksum of its first
/// twelve is reported with the header and the bytes after it.
pub open spec fn parse_header(data: Seq<u8>) -> Result<FitHeader, ErrorView> {
    if data.len() == 0 {
        Err(ErrorView::UnexpectedEof(Needed::Unknown))
    } else if data[0] != 12 && data[0] != 14 {
        Err(ErrorView::ParseError(0, ParseErrorKind::Verify))
    } else if data.len() < data[0] {
        Err(ErrorView::UnexpectedEof(Needed::Size((data[0] - data.len()) as usize)))
    } else if data.subrange(8, 12) != signature() {
        Err(ErrorView::ParseError(8, ParseErrorKind::Tag))
    } else {
        let header = header_fields(data);
        if header.crc is Some && header.crc != Some(checksum(data.take(12))) {
            Err(
                ErrorView::InvalidCrc(
                    data.skip(14),
                    FitObjectView::Header(header),
                    header.crc->Some_0,
                    checksum(data.take(12)),
                ),
            )
        } else {
            Ok(header)
        }
    }
}

/// Whether an exec result carries what a spec result says.
pub open spec fn header_result_is(
    result: Result<FitHeader, ErrorKind>,
    expected: Result<FitHeader, ErrorView>,
) -> bool {
    match result {
        Ok(header) => expected == Ok::<FitHeader, ErrorView>(header),
        Err(error) => expected == Err::<FitHeader, ErrorView>(error@),
    }
}

/// Reads the file header at the start of the cursor's buffer.
///
/// The header is consumed when it is returned, also when it is returned
/// inside a checksum mismatch; any other error consumes nothing.
pub fn decode_header(cursor: &mut Cursor) -> (result: Result<FitHeader, ErrorKind>)
    requires
        old(cursor).wf(),
        old(cursor).position() == 0,
    ensures
        final(cursor).wf(),
        final(cursor).data() == old(cursor).data(),
        final(cursor).limit() == old(cursor).limit(),
        header_result_is(result, parse_header(old(cursor).window())),
        match result {
            Ok(header) => final(cursor).position() == header.header_size,
            Err(ErrorKind::InvalidCrc(_)) => final(cursor).position() == 14,
            Err(_) => final(cursor).position() == 0,
        },
{
    let data = cursor.data();
    let limit = cursor.limit();
    let ghost window = cursor.window();
    proof {
        assert(data@.len() == data.len());
        lemma_pow256_values();
    }
    if limit == 0 {
        return Err(ErrorKind::UnexpectedEof(Needed::Unknown));
    }
    let header_size = data[0];
    if header_size != 12 && header_size != 14 {
        return Err(ErrorKind::ParseError(0, ParseErrorKind::Verify));
    }
    if limit < header_size as usize {
        return Err(ErrorKind::UnexpectedEof(Needed::Size(header_size as usize - limit)));
    }
    proof {
        assert(window.subrange(8, 12) =~= seq![data@[8], data@[9], data@[10], data@[11]]);
    }
    if data[8] != 0x2E || data[9] != 0x46 || data[10] != 0x49 || data[11] != 0x54 {
        return Err(ErrorKind::ParseError(8, ParseErrorKind::Tag));
    }
    proof {
        assert(window.subrange(2, 4) =~= data@.subrange(2, 4));
        assert(window.subrange(4, 8) =~= data@.subrange(4, 8));
        assert(window.take(12) =~= data@.subrange(0, 12));
    }
    let protocol_version = data[1];
    let profile_version = read_unsigned(data, 2, 2, false) as u16;
    let data_size = read_unsigned(data, 4, 4, false) as u32;
    let calculated = update_crc_range(0, data, 0, 12);
    let stored = if header_size == 14 {
        proof {
            assert(window.subrange(12, 14) =~= data@.subrange(12, 14));
        }
        Some(read_unsigned(data, 12, 2, false) as u16)
    } else {
        None
    };
    let header = FitHeader { header_size, protocol_version, profile_version, data_size, crc: stored };
    let consumed = cursor.read(header_size as usize);
    assert(consumed is Ok);
    match stored {
        Some(expected) => {
            if expected != calculated {
                let rest = slice_to_vec(slice_subrange(data, 14, limit));
                proof {
                    assert(window.skip(14) =~= data@.subrange(14, limit as int));
                }
                Err(ErrorKind::InvalidCrc((rest, FitObject::Header(header), expected, calculated)))
            } else {
                Ok(header)
            }
        },
        None => Ok(header),
    }
}

} // verus!
