//! Decoded records: what the decoder hands to its caller.

use vstd::prelude::*;
use crate::definition::{Definition, DefinitionView};
use crate::header::FitHeader;
use crate::value::{Value, ValueView};

verus! {

/// One decoded field of a data message.
#[derive(Clone, Debug, PartialEq, Eq)]
pub struct DataField {
    /// Field definition number.
    pub number: u8,
    /// The developer data index, for a developer field.
    pub developer_index: Option<u8>,
    /// The decoded value.
    pub value: Value,
}

/// What a [`DataField`] holds, as mathematical values.
pub struct DataFieldView {
    pub number: u8,
    pub developer_index: Option<u8>,
    pub value: ValueView,
}

impl View for DataField {
    type V = DataFieldView;

    open spec fn view(&self) -> DataFieldView {
        DataFieldView {
            number: self.number,
            developer_index: self.developer_index,
            value: self.value@,
        }
    }
}

/// A decoded data message.
#[derive(Clone, Debug, PartialEq, Eq)]
pub struct DataRecord {
    /// The local channel that the message arrived on.
    pub local_number: u8,
    /// Global message number, taken from the channel's definition.
    pub global_number: u16,
    /// The five-bit time offset of a compressed-timestamp header.
    pub time_offset: Option<u8>,
    /// The fields in wire order: ordinary fields, then developer fields.
    pub fields: Vec<DataField>,
}

/// What a [`DataRecord`] holds, as mathematical values.
pub struct DataRecordView {
    pub local_number: u8,
    pub global_number: u16,
    pub time_offset: Option<u8>,
    pub fields: Seq<DataFieldView>,
}

/// The views of a run of fields.
pub open spec fn fields_view(fields: Seq<DataField>) -> Seq<DataFieldView> {
    fields.map_values(|f: DataField| f@)
}

impl View for DataRecord {
    type V = DataRecordView;

    open spec fn view(&self) -> DataRecordView {
        DataRecordView {
            local_number: self.local_number,
            global_number: self.global_number,
            time_offset: self.time_offset,
            fields: fields_view(self.fields@),
        }
    }
}

/// One item of the decoded stream.
#[derive(Clone, Debug, PartialEq, Eq)]
pub enum DecodedRecord {
    /// The file header.
    Header(FitHeader),
    /// A definition message, with the local channel it was registered on.
    Definition(u8, Definition),
    /// A data message.
    Data(DataRecord),
}

/// What a [`DecodedRecord`] holds, as mathematical values.
pub enum RecordView {
    Header(FitHeader),
    Definition(u8, DefinitionView),
    Data(DataRecordView),
}

impl View for DecodedRecord {
    type V = RecordView;

    open spec fn view(&self) -> RecordView {
        match self {
            DecodedRecord::Header(h) => RecordView::Header(*h),
            DecodedRecord::Definition(local, d) => RecordView::Definition(*local, d@),
            DecodedRecord::Data(d) => RecordView::Data(d@),
        }
    }
}

/// The views of a run of records.
pub open spec fn records_view(records: Seq<DecodedRecord>) -> Seq<RecordView> {
    records.map_values(|r: DecodedRecord| r@)
}


/// The first byte of a record, taken apart.
#[derive(Clone, Copy, Debug, PartialEq, Eq)]
pub enum RecordHeader {
    /// A definition message for a local channel, with or without developer fields.
    Definition { local_number: u8, developer: bool },
    /// A data message on a local channel.
    Data { local_number: u8 },
    /// A data message whose header also carries a five-bit time offset.
    CompressedTimestamp { local_number: u8, time_offset: u8 },
}

/// What a record's first byte says.
///
/// With the top bit set the byte is a compressed-timestamp header: two bits
/// of local channel and five bits of time offset. Otherwise bit 6 tells a
/// definition message from a data message, bit 5 announces developer fields
/// in a definition message, and the low four bits are the local channel.
pub open spec fn record_header_of(byte: u8) -> RecordHeader {
    if byte & 0x80 != 0 {
        RecordHeader::CompressedTimestamp {
            local_number: (byte >> 5) & 0x03,
            time_offset: byte & 0x1F,
        }
    } else if byte & 0x40 != 0 {
        RecordHeader::Definition { local_number: byte & 0x0F, developer: byte & 0x20 != 0 }
    } else {
        RecordHeader::Data { local_number: byte & 0x0F }
    }
}

impl RecordHeader {
    /// The local channel that the header names.
    pub open spec fn local(self) -> u8 {
        match self {
            RecordHeader::Definition { local_number, .. } => local_number,
            RecordHeader::Data { local_number } => local_number,
            RecordHeader::CompressedTimestamp { local_number, .. } => local_number,
        }
    }

    /// Takes a record's first byte apart.
    pub fn parse(byte: u8) -> (header: RecordHeader)
        ensures
            header == record_header_of(byte),
            header.local() < 16,
            header matches RecordHeader::CompressedTimestamp { local_number, time_offset }
                ==> local_number < 4 && time_offset < 32,
    {
        assert((byte >> 5) & 0x03 < 4 && byte & 0x1F < 32 && byte & 0x0F < 16) by (bit_vector);
        if byte & 0x80 != 0 {
            RecordHeader::CompressedTimestamp {
                local_number: (byte >> 5) & 0x03,
                time_offset: byte & 0x1F,
            }
        } else if byte & 0x40 != 0 {
            RecordHeader::Definition { local_number: byte & 0x0F, developer: byte & 0x20 != 0 }
        } else {
            RecordHeader::Data { local_number: byte & 0x0F }
        }
    }
}

/// Every header names one of the sixteen local channels.
pub proof fn lemma_local_number_in_range(byte: u8)
    ensures
        record_header_of(byte).local() < 16,
{
    assert((byte >> 5) & 0x03 < 16 && byte & 0x0F < 16) by (bit_vector);
}

} // verus!
