//! The byte sources the decoder can range over: an in-memory slice and
//! the UTF-8 bytes of an owned string, behind one lookahead-capable trait.

use vstd::prelude::*;

verus! {

use vstd::utf8::encode_utf8;
use crate::error::Error;

/// A byte source for the decoder: it hands out one byte at a time, offers a
/// true one-byte lookahead, and reports the byte offset consumed so far.
/// `content` is the whole byte run the source ranges over; `offset` is the
/// count of bytes consumed.
pub trait Read {
    spec fn content(&self) -> Seq<u8>;

    spec fn offset(&self) -> int;

    /// Consumes and returns the next byte, or nothing at the end of input.
    fn next_char(&mut self) -> (r: Option<Result<u8, Error>>)
        ensures
            final(self).content() == old(self).content(),
            old(self).offset() < old(self).content().len() ==> r == Some(
                Ok::<u8, Error>(old(self).content()[old(self).offset()]),
            ) && final(self).offset() == old(self).offset() + 1,
            old(self).offset() >= old(self).content().len() ==> r == None::<Result<u8, Error>>
                && final(self).offset() == old(self).offset(),
    ;

    /// The byte the next `next_char` call will return, left unconsumed.
    fn peek_char(&self) -> (r: Option<u8>)
        ensures
            r == (if self.offset() < self.content().len() {
                Some(self.content()[self.offset()])
            } else {
                None::<u8>
            }),
    ;

    /// The byte offset consumed so far, used for diagnostics.
    fn position(&self) -> (r: usize)
        ensures
            r as int == self.offset(),
    ;
}

/// A byte source over an in-memory byte buffer.
pub struct SliceRead<'a> {
    slice: &'a [u8],
    pos: usize,
}

impl<'a> SliceRead<'a> {
    pub fn new(slice: &'a [u8]) -> (r: SliceRead<'a>)
        ensures
            r.content() == slice@,
            r.offset() == 0,
    {
        SliceRead { slice, pos: 0 }
    }
}

impl<'a> Read for SliceRead<'a> {
    closed spec fn content(&self) -> Seq<u8> {
        self.slice@
    }

    closed spec fn offset(&self) -> int {
        self.pos as int
    }

    fn next_char(&mut self) -> (r: Option<Result<u8, Error>>) {
        let n = self.slice.len();
        if self.pos >= n {
            return None;
        }
        let ch = *vstd::slice::slice_index_get(self.slice, self.pos);
        self.pos = self.pos + 1;
        Some(Ok(ch))
    }

    fn peek_char(&self) -> (r: Option<u8>) {
        if self.pos >= self.slice.len() {
            return None;
        }
        Some(*vstd::slice::slice_index_get(self.slice, self.pos))
    }

    fn position(&self) -> (r: usize) {
        self.pos
    }
}

/// A byte source over the UTF-8 bytes of an owned string.
pub struct StringRead<'a> {
    slice_read: SliceRead<'a>,
}

impl<'a> StringRead<'a> {
    pub fn new(s: &'a String) -> (r: StringRead<'a>)
        ensures
            r.content() == encode_utf8(s@),
            r.offset() == 0,
    {
        StringRead { slice_read: SliceRead::new(s.as_str().as_bytes()) }
    }
}

impl<'a> Read for StringRead<'a> {
    closed spec fn content(&self) -> Seq<u8> {
        self.slice_read.content()
    }

    closed spec fn offset(&self) -> int {
        self.slice_read.offset()
    }

    fn next_char(&mut self) -> (r: Option<Result<u8, Error>>) {
        self.slice_read.next_char()
    }

    fn peek_char(&self) -> (r: Option<u8>) {
        self.slice_read.peek_char()
    }

    fn position(&self) -> (r: usize) {
        self.slice_read.position()
    }
}

} // verus!
