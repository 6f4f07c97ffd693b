//! A forward-only reader over the input buffer.
//!
//! The cursor remembers how many bytes have been consumed and keeps the
//! checksum of exactly those bytes. Nothing is ever read twice.

use vstd::prelude::*;
use vstd::slice::slice_subrange;
use crate::crc::{checksum, lemma_crc_fold_concat, update_crc_range};
use crate::error::{ErrorKind, Needed};

verus! {

/// A position in a byte buffer, with the checksum of what lies before it.
/// The position only ever moves forward.
pub struct Cursor<'a> {
    data: &'a [u8],
    position: usize,
    limit: usize,
    crc: u16,
}

impl<'a> Cursor<'a> {
    /// The whole input.
    pub closed spec fn spec_data(&self) -> &'a [u8] {
        self.data
    }

    /// Number of bytes consumed so far.
    pub closed spec fn spec_position(&self) -> usize {
        self.position
    }

    /// The offset that reads may not go past.
    pub closed spec fn spec_limit(&self) -> usize {
        self.limit
    }

    /// The running checksum that the cursor keeps.
    pub closed spec fn running_crc(&self) -> u16 {
        self.crc
    }

    /// The cursor is inside its buffer and its checksum is that of the
    /// consumed bytes.
    pub open spec fn wf(&self) -> bool {
        &&& self.position() <= self.limit() <= self.data()@.len()
        &&& self.running_crc() == checksum(self.data()@.take(self.position() as int))
    }

    /// The part of the input that the cursor may read: everything before the limit.
    pub open spec fn window(&self) -> Seq<u8> {
        self.data()@.take(self.limit() as int)
    }

    /// A cursor at the start of `data` that may read all of it.
    pub fn new(data: &'a [u8]) -> (cursor: Cursor<'a>)
        ensures
            cursor.wf(),
            cursor.data() == data,
            cursor.position() == 0,
            cursor.limit() == data@.len(),
    {
        Cursor { data, position: 0, limit: data.len(), crc: 0 }
    }

    /// The whole input.
    #[verifier::when_used_as_spec(spec_data)]
    pub fn data(&self) -> (data: &'a [u8])
        ensures
            data == self.spec_data(),
    {
        self.data
    }

    /// Number of bytes consumed so far.
    #[verifier::when_used_as_spec(spec_position)]
    pub fn position(&self) -> (position: usize)
        ensures
            position == self.spec_position(),
    {
        self.position
    }

    /// The offset that reads may not go past.
    #[verifier::when_used_as_spec(spec_limit)]
    pub fn limit(&self) -> (limit: usize)
        ensures
            limit == self.spec_limit(),
    {
        self.limit
    }

    /// Number of bytes that can still be read.
    pub fn remaining(&self) -> (remaining: usize)
        requires
            self.wf(),
        ensures
            remaining == self.limit() - self.position(),
    {
        self.limit - self.position
    }

    /// The checksum of the bytes consumed so far.
    pub fn crc(&self) -> (crc: u16)
        requires
            self.wf(),
        ensures
            crc == checksum(self.data()@.take(self.position() as int)),
    {
        self.crc
    }

    /// Moves the limit, to fence reads in or to open the buffer up again.
    pub(crate) fn set_limit(&mut self, limit: usize)
        requires
            old(self).wf(),
            old(self).position() <= limit <= old(self).data()@.len(),
        ensures
            final(self).wf(),
            final(self).data() == old(self).data(),
            final(self).position() == old(self).position(),
            final(self).limit() == limit,
    {
        self.limit = limit;
    }

    /// Reads the next `count` bytes.
    ///
    /// When fewer than `count` bytes are left before the limit, nothing is
    /// consumed and the error says how many bytes are missing.
    pub fn read(&mut self, count: usize) -> (result: Result<&'a [u8], ErrorKind>)
        requires
            old(self).wf(),
        ensures
            final(self).wf(),
            final(self).data() == old(self).data(),
            final(self).limit() == old(self).limit(),
            match result {
                Ok(bytes) => {
                    &&& old(self).position() + count <= old(self).limit()
                    &&& final(self).position() == old(self).position() + count
                    &&& bytes@ == old(self).data()@.subrange(
                        old(self).position() as int,
                        old(self).position() + count,
                    )
                },
                Err(error) => {
                    &&& old(self).position() + count > old(self).limit()
                    &&& *final(self) == *old(self)
                    &&& error == ErrorKind::UnexpectedEof(
                        Needed::Size((old(self).position() + count - old(self).limit()) as usize),
                    )
                },
            },
    {
        let available = self.limit - self.position;
        if count > available {
            return Err(ErrorKind::UnexpectedEof(Needed::Size(count - available)));
        }
        let start = self.position;
        let end = start + count;
        let bytes = slice_subrange(self.data, start, end);
        proof {
            lemma_crc_fold_concat(
                0,
                self.data@.take(start as int),
                self.data@.subrange(start as int, end as int),
            );
            assert(self.data@.take(start as int) + self.data@.subrange(start as int, end as int)
                =~= self.data@.take(end as int));
        }
        self.crc = update_crc_range(self.crc, self.data, start, end);
        self.position = end;
        Ok(bytes)
    }

    /// Reads the next byte.
    pub fn read_u8(&mut self) -> (result: Result<u8, ErrorKind>)
        requires
            old(self).wf(),
        ensures
            final(self).wf(),
            final(self).data() == old(self).data(),
            final(self).limit() == old(self).limit(),
            match result {
                Ok(byte) => {
                    &&& old(self).position() < old(self).limit()
                    &&& final(self).position() == old(self).position() + 1
                    &&& byte == old(self).data()@[old(self).position() as int]
                },
                Err(error) => {
                    &&& old(self).position() == old(self).limit()
                    &&& *final(self) == *old(self)
                    &&& error == ErrorKind::UnexpectedEof(Needed::Size(1))
                },
            },
    {
        match self.read(1) {
            Ok(bytes) => Ok(bytes[0]),
            Err(error) => Err(error),
        }
    }
}

} // verus!
