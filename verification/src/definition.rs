//! Definition messages: the layouts that data messages are decoded by.

use vstd::prelude::*;
use crate::cursor::Cursor;
use crate::endian::{lemma_pow256_values, read_unsigned, unsigned_value};
use crate::error::{ErrorKind, ErrorView, Needed, ParseErrorKind};
use crate::value::{base_type_of, BaseType};

verus! {

/// One ordinary field of a definition.
#[derive(Clone, Copy, Debug, PartialEq, Eq)]
pub struct FieldDefinition {
    /// Field definition number, a key into the profile.
    pub number: u8,
    /// Size of the field on the wire, in bytes.
    pub size: u8,
    /// How the field's bytes are to be read.
    pub base_type: BaseType,
}

/// One developer field of a definition.
#[derive(Clone, Copy, Debug, PartialEq, Eq)]
pub struct DeveloperFieldDefinition {
    /// Field definition number, as registered by a field description.
    pub number: u8,
    /// Size of the field on the wire, in bytes.
    pub size: u8,
    /// Which developer registration the field belongs to.
    pub developer_index: u8,
}

/// The layout that is active on one local channel.
#[derive(Clone, Debug, PartialEq, Eq)]
pub struct Definition {
    /// Global message number.
    pub global_number: u16,
    /// Whether multi-byte fields are stored most significant byte first.
    pub big_endian: bool,
    /// Ordinary fields, in wire order.
    pub fields: Vec<FieldDefinition>,
    /// Developer fields, in wire order, after the ordinary ones.
    pub developer_fields: Vec<DeveloperFieldDefinition>,
}

/// What a [`Definition`] holds, as mathematical values.
pub struct DefinitionView {
    pub global_number: u16,
    pub big_endian: bool,
    pub fields: Seq<FieldDefinition>,
    pub developer_fields: Seq<DeveloperFieldDefinition>,
}

impl View for Definition {
    type V = DefinitionView;

    open spec fn view(&self) -> DefinitionView {
        DefinitionView {
            global_number: self.global_number,
            big_endian: self.big_endian,
            fields: self.fields@,
            developer_fields: self.developer_fields@,
        }
    }
}


/// The ordinary field that the three bytes at `at` declare: number, size and
/// base type identifier.
pub open spec fn field_at(data: Seq<u8>, at: int) -> FieldDefinition {
    FieldDefinition {
        number: data[at],
        size: data[at + 1],
        base_type: base_type_of(data[at + 2])->Some_0,
    }
}

/// The developer field that the three bytes at `at` declare: number, size and
/// developer data index.
pub open spec fn developer_field_at(data: Seq<u8>, at: int) -> DeveloperFieldDefinition {
    DeveloperFieldDefinition { number: data[at], size: data[at + 1], developer_index: data[at + 2] }
}

/// The `count` ordinary fields declared from `start` on.
pub open spec fn fields_at(data: Seq<u8>, start: int, count: nat) -> Seq<FieldDefinition> {
    Seq::new(count, |i: int| field_at(data, start + 3 * i))
}

/// The `count` developer fields declared from `start` on.
pub open spec fn developer_fields_at(data: Seq<u8>, start: int, count: nat) -> Seq<
    DeveloperFieldDefinition,
> {
    Seq::new(count, |i: int| developer_field_at(data, start + 3 * i))
}

/// The index of the first of the `count` fields declared from `start` on, not
/// before `from`, whose base type identifier names no base type.
pub open spec fn first_unknown_type(data: Seq<u8>, start: int, count: nat, from: nat) -> Option<nat>
    decreases count - from,
{
    if from >= count {
        None
    } else if base_type_of(data[start + 3 * from + 2]) is None {
        Some(from)
    } else {
        first_unknown_type(data, start, count, from + 1)
    }
}

/// The shortfall of a read of `count` bytes at `at` in an input of `len` bytes.
pub open spec fn shortfall(at: int, count: int, len: int) -> ErrorView {
    ErrorView::UnexpectedEof(Needed::Size((at + count - len) as usize))
}

/// What reading the developer part of a definition message, which starts at
/// `at`, ends in: the definition and the offset after it.
pub open spec fn parse_developer_part(
    data: Seq<u8>,
    at: int,
    global_number: u16,
    big_endian: bool,
    fields: Seq<FieldDefinition>,
) -> Result<(DefinitionView, int), ErrorView> {
    if at + 1 > data.len() {
        Err(shortfall(at, 1, data.len() as int))
    } else if at + 1 + 3 * data[at] > data.len() {
        Err(shortfall(at + 1, 3 * data[at], data.len() as int))
    } else {
        Ok(
            (
                DefinitionView {
                    global_number,
                    big_endian,
                    fields,
                    developer_fields: developer_fields_at(data, at + 1, data[at] as nat),
                },
                at + 1 + 3 * data[at],
            ),
        )
    }
}

/// What reading a definition message ends in, where `at` is the offset after
/// the record's header byte: the definition and the offset after the message.
///
/// The message is a reserved byte, the byte order (0 for little-endian, 1 for
/// big-endian), the global message number in that order, the number of
/// fields and three bytes for each field; when `developer` is set, the number
/// of developer fields and three bytes for each of them follow.
pub open spec fn parse_definition(data: Seq<u8>, at: int, developer: bool) -> Result<
    (DefinitionView, int),
    ErrorView,
> {
    if at + 5 > data.len() {
        Err(shortfall(at, 5, data.len() as int))
    } else if data[at + 1] > 1 {
        Err(ErrorView::ParseError((at + 1) as usize, ParseErrorKind::Verify))
    } else {
        let big_endian = data[at + 1] == 1;
        let global_number = unsigned_value(data.subrange(at + 2, at + 4), big_endian) as u16;
        let count = data[at + 4] as nat;
        let start = at + 5;
        if start + 3 * count > data.len() {
            Err(shortfall(start, 3 * count as int, data.len() as int))
        } else if first_unknown_type(data, start, count, 0) is Some {
            Err(
                ErrorView::ParseError(
                    (start + 3 * first_unknown_type(data, start, count, 0)->Some_0 + 2) as usize,
                    ParseErrorKind::Verify,
                ),
            )
        } else {
            let fields = fields_at(data, start, count);
            if developer {
                parse_developer_part(data, start + 3 * count, global_number, big_endian, fields)
            } else {
                Ok(
                    (
                        DefinitionView {
                            global_number,
                            big_endian,
                            fields,
                            developer_fields: Seq::empty(),
                        },
                        start + 3 * count,
                    ),
                )
            }
        }
    }
}

impl Definition {
    /// A copy of the definition.
    pub fn duplicate(&self) -> (copy: Definition)
        ensures
            copy@ == self@,
    {
        let mut fields: Vec<FieldDefinition> = Vec::new();
        let mut i: usize = 0;
        while i < self.fields.len()
            invariant
                i <= self.fields@.len(),
                fields@ == self.fields@.take(i as int),
            decreases self.fields@.len() - i,
        {
            fields.push(self.fields[i]);
            proof {
                assert(self.fields@.take(i as int).push(self.fields@[i as int])
                    =~= self.fields@.take(i + 1));
            }
            i = i + 1;
        }
        let mut developer_fields: Vec<DeveloperFieldDefinition> = Vec::new();
        let mut j: usize = 0;
        while j < self.developer_fields.len()
            invariant
                j <= self.developer_fields@.len(),
                developer_fields@ == self.developer_fields@.take(j as int),
            decreases self.developer_fields@.len() - j,
        {
            developer_fields.push(self.developer_fields[j]);
            proof {
                assert(self.developer_fields@.take(j as int).push(self.developer_fields@[j as int])
                    =~= self.developer_fields@.take(j + 1));
            }
            j = j + 1;
        }
        proof {
            assert(self.fields@.take(i as int) =~= self.fields@);
            assert(self.developer_fields@.take(j as int) =~= self.developer_fields@);
        }
        Definition {
            global_number: self.global_number,
            big_endian: self.big_endian,
            fields,
            developer_fields,
        }
    }
}

/// Reads the `count` ordinary fields declared from `start` on.
fn read_fields(data: &[u8], limit: usize, start: usize, count: usize) -> (result: Result<
    Vec<FieldDefinition>,
    ErrorKind,
>)
    requires
        start + 3 * count <= limit <= data@.len(),
    ensures
        match result {
            Ok(fields) => {
                &&& first_unknown_type(data@.take(limit as int), start as int, count as nat, 0) is None
                &&& fields@ == fields_at(data@.take(limit as int), start as int, count as nat)
            },
            Err(error) => {
                &&& first_unknown_type(data@.take(limit as int), start as int, count as nat, 0) is Some
                &&& error == ErrorKind::ParseError(
                    (start + 3 * first_unknown_type(
                        data@.take(limit as int),
                        start as int,
                        count as nat,
                        0,
                    )->Some_0 + 2) as usize,
                    ParseErrorKind::Verify,
                )
            },
        },
{
    let ghost window = data@.take(limit as int);
    proof {
        assert(data@.len() == data.len());
    }
    let mut fields: Vec<FieldDefinition> = Vec::new();
    let mut i: usize = 0;
    while i < count
        invariant
            i <= count,
            start + 3 * count <= limit <= data@.len() <= usize::MAX,
            window == data@.take(limit as int),
            fields@.len() == i,
            forall|j: int| 0 <= j < i ==> fields@[j] == field_at(window, start + 3 * j),
            first_unknown_type(window, start as int, count as nat, 0) == first_unknown_type(
                window,
                start as int,
                count as nat,
                i as nat,
            ),
        decreases count - i,
    {
        let field = start + 3 * i;
        match BaseType::from_id(data[field + 2]) {
            None => {
                return Err(ErrorKind::ParseError(field + 2, ParseErrorKind::Verify));
            },
            Some(base_type) => {
                fields.push(FieldDefinition { number: data[field], size: data[field + 1], base_type });
            },
        }
        i = i + 1;
    }
    proof {
        assert(fields@ =~= fields_at(window, start as int, count as nat));
    }
    Ok(fields)
}

/// Reads the `count` developer fields declared from `start` on.
fn read_developer_fields(data: &[u8], limit: usize, start: usize, count: usize) -> (fields: Vec<
    DeveloperFieldDefinition,
>)
    requires
        start + 3 * count <= limit <= data@.len(),
    ensures
        fields@ == developer_fields_at(data@.take(limit as int), start as int, count as nat),
{
    let ghost window = data@.take(limit as int);
    proof {
        assert(data@.len() == data.len());
    }
    let mut fields: Vec<DeveloperFieldDefinition> = Vec::new();
    let mut k: usize = 0;
    while k < count
        invariant
            k <= count,
            start + 3 * count <= limit <= data@.len() <= usize::MAX,
            window == data@.take(limit as int),
            fields@.len() == k,
            forall|j: int| 0 <= j < k ==> fields@[j] == developer_field_at(window, start + 3 * j),
        decreases count - k,
    {
        let field = start + 3 * k;
        fields.push(
            DeveloperFieldDefinition {
                number: data[field],
                size: data[field + 1],
                developer_index: data[field + 2],
            },
        );
        k = k + 1;
    }
    proof {
        assert(fields@ =~= developer_fields_at(window, start as int, count as nat));
    }
    fields
}

/// Reads a definition message whose header byte has just been consumed.
pub fn decode_definition(cursor: &mut Cursor, developer: bool) -> (result: Result<
    Definition,
    ErrorKind,
>)
    requires
        old(cursor).wf(),
    ensures
        final(cursor).wf(),
        final(cursor).data() == old(cursor).data(),
        final(cursor).limit() == old(cursor).limit(),
        final(cursor).position() >= old(cursor).position(),
        match result {
            Ok(definition) => parse_definition(
                old(cursor).window(),
                old(cursor).position() as int,
                developer,
            ) == Ok::<(DefinitionView, int), ErrorView>((definition@, final(cursor).position() as int)),
            Err(error) => parse_definition(
                old(cursor).window(),
                old(cursor).position() as int,
                developer,
            ) == Err::<(DefinitionView, int), ErrorView>(error@),
        },
{
    let data = cursor.data();
    let limit = cursor.limit();
    let at = cursor.position();
    let ghost window = cursor.window();
    proof {
        assert(data@.len() == data.len());
        lemma_pow256_values();
    }
    match cursor.read(5) {
        Err(error) => {
            return Err(error);
        },
        Ok(_) => {},
    }
    let order = data[at + 1];
    if order > 1 {
        return Err(ErrorKind::ParseError(at + 1, ParseErrorKind::Verify));
    }
    let big_endian = order == 1;
    proof {
        assert(window.subrange(at + 2, at + 4) =~= data@.subrange(at + 2, at + 4));
    }
    let global_number = read_unsigned(data, at + 2, 2, big_endian) as u16;
    let count = data[at + 4] as usize;
    let start = at + 5;
    match cursor.read(3 * count) {
        Err(error) => {
            return Err(error);
        },
        Ok(_) => {},
    }
    let fields = match read_fields(data, limit, start, count) {
        Err(error) => {
            return Err(error);
        },
        Ok(fields) => fields,
    };
    if !developer {
        return Ok(
            Definition { global_number, big_endian, fields, developer_fields: Vec::new() },
        );
    }
    let developer_count = match cursor.read_u8() {
        Err(error) => {
            return Err(error);
        },
        Ok(byte) => byte as usize,
    };
    let developer_start = start + 3 * count + 1;
    match cursor.read(3 * developer_count) {
        Err(error) => {
            return Err(error);
        },
        Ok(_) => {},
    }
    let developer_fields = read_developer_fields(data, limit, developer_start, developer_count);
    Ok(Definition { global_number, big_endian, fields, developer_fields })
}

} // verus!
