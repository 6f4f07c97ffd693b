//! The ways in which decoding can fail.

use vstd::prelude::*;
use vstd::string::StringExecFns;
use crate::header::FitHeader;
use crate::text::{append_decimal, append_hexadecimal, decimal, hexadecimal};
use crate::record::{records_view, DecodedRecord, RecordView};

verus! {

/// How many more bytes a read would have needed.
#[derive(Clone, Copy, Debug, PartialEq, Eq)]
pub enum Needed {
    /// More data is needed, but not how much is known.
    Unknown,
    /// This many more bytes are needed. A size of zero says no more than
    /// `Unknown` does, and is worded like it.
    Size(usize),
}

/// Which rule of the grammar a byte pattern broke.
#[derive(Clone, Copy, Debug, PartialEq, Eq)]
pub enum ParseErrorKind {
    /// A fixed byte string was expected and something else was found.
    Tag,
    /// A value was read that the format does not allow in its place.
    Verify,
}

/// What had been decoded when a checksum turned out not to match.
#[derive(Clone, Debug, PartialEq, Eq)]
pub enum FitObject {
    /// The file header, for a mismatch of the header's checksum.
    Header(FitHeader),
    /// Every record of the file, for a mismatch of the file's checksum.
    Records(Vec<DecodedRecord>),
}

/// What a [`FitObject`] holds, as mathematical values.
pub enum FitObjectView {
    Header(FitHeader),
    Records(Seq<RecordView>),
}

impl View for FitObject {
    type V = FitObjectView;

    open spec fn view(&self) -> FitObjectView {
        match self {
            FitObject::Header(h) => FitObjectView::Header(*h),
            FitObject::Records(records) => FitObjectView::Records(records_view(records@)),
        }
    }
}

/// The kind of error that decoding can end in.
#[derive(Debug, PartialEq, Eq)]
pub enum ErrorKind {
    /// Decoding succeeded but the checksum calculated from the data does not
    /// match the stored one. What had been decoded comes along, so that a
    /// caller may choose to go on, and with it the bytes that were not
    /// decoded: those after the header for a mismatch of the header's
    /// checksum, those left over between the record section and the checksum
    /// for a mismatch of the file's. The first number is the stored checksum,
    /// the second the calculated one.
    InvalidCrc((Vec<u8>, FitObject, u16, u16)),
    /// The input could not be acquired; the text says why.
    Io(String),
    /// A data message arrived on a local channel that has no definition:
    /// the channel, and the position of the record's header byte.
    MissingDefinitionMessage(u8, usize),
    /// Bytes are left over between the record section that the header
    /// announces and the file's checksum: their number.
    TrailingBytes(usize),
    /// A byte pattern broke the grammar at the given position.
    ParseError(usize, ParseErrorKind),
    /// The input ended before a read was complete.
    UnexpectedEof(Needed),
    /// A field's bytes cannot be laid out as its base type asks.
    ValueError(String),
    /// A developer field was used before a field description registered it.
    MissingDeveloperDefinitionMessage(),
}

/// What an [`ErrorKind`] holds, as mathematical values.
pub enum ErrorView {
    InvalidCrc(Seq<u8>, FitObjectView, u16, u16),
    Io(Seq<char>),
    MissingDefinitionMessage(u8, usize),
    TrailingBytes(usize),
    ParseError(usize, ParseErrorKind),
    UnexpectedEof(Needed),
    ValueError(Seq<char>),
    MissingDeveloperDefinitionMessage,
}

impl View for ErrorKind {
    type V = ErrorView;

    open spec fn view(&self) -> ErrorView {
        match self {
            ErrorKind::InvalidCrc((rest, object, expected, calculated)) => ErrorView::InvalidCrc(
                rest@,
                object@,
                *expected,
                *calculated,
            ),
            ErrorKind::Io(text) => ErrorView::Io(text@),
            ErrorKind::MissingDefinitionMessage(local, position) => {
                ErrorView::MissingDefinitionMessage(*local, *position)
            },
            ErrorKind::TrailingBytes(count) => ErrorView::TrailingBytes(*count),
            ErrorKind::ParseError(position, kind) => ErrorView::ParseError(*position, *kind),
            ErrorKind::UnexpectedEof(needed) => ErrorView::UnexpectedEof(*needed),
            ErrorKind::ValueError(text) => ErrorView::ValueError(text@),
            ErrorKind::MissingDeveloperDefinitionMessage() => {
                ErrorView::MissingDeveloperDefinitionMessage
            },
        }
    }
}


/// How the parser that reports a broken rule describes that rule.
pub open spec fn description(kind: ParseErrorKind) -> Seq<char> {
    match kind {
        ParseErrorKind::Tag => "Tag"@,
        ParseErrorKind::Verify => "predicate verification"@,
    }
}

/// The text of a parse error at `position`, where `described` is how the
/// parser describes the rule that was broken.
pub open spec fn parse_error_text(position: usize, described: Seq<char>) -> Seq<char> {
    "parser error: '"@ + described + "' at position: "@ + hexadecimal(position as nat)
}

/// The text of an error.
pub open spec fn message_of(error: ErrorView) -> Seq<char> {
    match error {
        ErrorView::InvalidCrc(_, FitObjectView::Header(_), expected, calculated) => {
            "CRC value for header did not match, expected value "@ + decimal(expected as nat)
                + ", calculated value "@ + decimal(calculated as nat)
        },
        ErrorView::InvalidCrc(_, FitObjectView::Records(_), expected, calculated) => {
            "CRC value for data did not match, expected value "@ + decimal(expected as nat)
                + ", calculated value "@ + decimal(calculated as nat)
        },
        ErrorView::Io(text) => "io error: "@ + text,
        ErrorView::MissingDefinitionMessage(local, position) => {
            "No definition found for local message number "@ + decimal(local as nat)
                + " at position "@ + hexadecimal(position as nat)
        },
        ErrorView::TrailingBytes(count) => {
            decimal(count as nat) + " bytes remain past expected EOF location"@
        },
        ErrorView::ParseError(position, kind) => parse_error_text(position, description(kind)),
        ErrorView::UnexpectedEof(Needed::Size(count)) => {
            if count == 0 {
                "parser error: requires more data"@
            } else {
                "parser error: requires "@ + decimal(count as nat) + " more bytes"@
            }
        },
        ErrorView::UnexpectedEof(Needed::Unknown) => "parser error: requires more data"@,
        ErrorView::ValueError(text) => "value error: "@ + text,
        ErrorView::MissingDeveloperDefinitionMessage => {
            "developer field referenced before being defined"@
        },
    }
}

/// The text by which `nom` describes the kind of error that stands for a
/// broken rule: `nom::error::ErrorKind::description`, called on `Tag` or on
/// `Verify`. That the two texts are the ones named here is taken from the
/// source of `nom` and not proved.
#[verifier::external_body]
fn describe(kind: ParseErrorKind) -> (text: String)
    ensures
        text@ == description(kind),
{
    let code = match kind {
        ParseErrorKind::Tag => nom::error::ErrorKind::Tag,
        ParseErrorKind::Verify => nom::error::ErrorKind::Verify,
    };
    code.description().to_owned()
}

fn crc_message(header: bool, expected: u16, calculated: u16) -> (text: String)
    ensures
        text@ == (if header {
            "CRC value for header did not match, expected value "@
        } else {
            "CRC value for data did not match, expected value "@
        }) + decimal(expected as nat) + ", calculated value "@ + decimal(calculated as nat),
{
    let mut text = String::new();
    if header {
        text.append("CRC value for header did not match, expected value ");
    } else {
        text.append("CRC value for data did not match, expected value ");
    }
    append_decimal(&mut text, expected as u64);
    text.append(", calculated value ");
    append_decimal(&mut text, calculated as u64);
    text
}

/// The text of a parse error at `position`, where `described` is how the
/// parser describes the rule that was broken.
pub fn parse_error_message(position: usize, described: &str) -> (text: String)
    ensures
        text@ == parse_error_text(position, described@),
{
    let mut text = String::new();
    text.append("parser error: '");
    text.append(described);
    text.append("' at position: ");
    append_hexadecimal(&mut text, position as u64);
    text
}

impl Needed {
    /// A shortfall of `count` bytes; of an unknown number if `count` is zero.
    pub fn new(count: usize) -> (needed: Needed)
        ensures
            needed == (if count == 0 {
                Needed::Unknown
            } else {
                Needed::Size(count)
            }),
    {
        if count == 0 {
            Needed::Unknown
        } else {
            Needed::Size(count)
        }
    }
}

impl ErrorKind {
    /// The text of the error, for a reader.
    pub fn message(&self) -> (text: String)
        ensures
            text@ == message_of(self@),
    {
        match self {
            ErrorKind::InvalidCrc((_, object, expected, calculated)) => match object {
                FitObject::Header(_) => crc_message(true, *expected, *calculated),
                FitObject::Records(_) => crc_message(false, *expected, *calculated),
            },
            ErrorKind::Io(reason) => {
                let mut text = String::new();
                text.append("io error: ");
                text.append(reason.as_str());
                text
            },
            ErrorKind::MissingDefinitionMessage(local, position) => {
                let mut text = String::new();
                text.append("No definition found for local message number ");
                append_decimal(&mut text, *local as u64);
                text.append(" at position ");
                append_hexadecimal(&mut text, *position as u64);
                text
            },
            ErrorKind::TrailingBytes(count) => {
                let mut text = String::new();
                append_decimal(&mut text, *count as u64);
                text.append(" bytes remain past expected EOF location");
                text
            },
            ErrorKind::ParseError(position, kind) => {
                let described = describe(*kind);
                parse_error_message(*position, described.as_str())
            },
            ErrorKind::UnexpectedEof(Needed::Size(count)) => {
                let mut text = String::new();
                if *count == 0 {
                    text.append("parser error: requires more data");
                } else {
                    text.append("parser error: requires ");
                    append_decimal(&mut text, *count as u64);
                    text.append(" more bytes");
                }
                text
            },
            ErrorKind::UnexpectedEof(Needed::Unknown) => {
                let mut text = String::new();
                text.append("parser error: requires more data");
                text
            },
            ErrorKind::ValueError(reason) => {
                let mut text = String::new();
                text.append("value error: ");
                text.append(reason.as_str());
                text
            },
            ErrorKind::MissingDeveloperDefinitionMessage() => {
                let mut text = String::new();
                text.append("developer field referenced before being defined");
                text
            },
        }
    }

    /// Accepts a checksum mismatch: hands out what had been decoded when the
    /// mismatch was found. Any other error stays an error.
    pub fn recover(self) -> (result: Result<FitObject, ErrorKind>)
        ensures
            match self {
                ErrorKind::InvalidCrc((_, object, _, _)) => result == Ok::<FitObject, ErrorKind>(
                    object,
                ),
                _ => result == Err::<FitObject, ErrorKind>(self),
            },
    {
        match self {
            ErrorKind::InvalidCrc((_, object, _, _)) => Ok(object),
            other => Err(other),
        }
    }
}

} // verus!
