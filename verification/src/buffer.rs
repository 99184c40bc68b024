//! A growable buffer with a cursor, for encoding and decoding in place.

#![allow(non_camel_case_types)]

use crate::decode::{dec, end_of, read_term, skip_term, DecodingError};
use crate::encode::{check, enc, encodable, encoding_error, write_term, VERSION_MAGIC};
use crate::term::{EncodingError, Term, TermView};
use vstd::prelude::*;

verus! {

/// Bytes and a cursor into them. Encoding writes at the cursor and moves it
/// to the end of what was written; decoding reads at the cursor and moves
/// it behind what was read.
#[derive(Debug, Clone, PartialEq, Eq)]
pub struct ei_x_buff {
    pub buff: Vec<u8>,
    pub index: usize,
}

impl ei_x_buff {
    /// An empty buffer.
    pub fn new() -> (r: Self)
        ensures
            r.buff@ == Seq::<u8>::empty(),
            r.index == 0,
    {
        ei_x_buff { buff: Vec::new(), index: 0 }
    }

    /// A buffer that holds the version byte, with the cursor behind it.
    pub fn new_with_version() -> (r: Self)
        ensures
            r.buff@ == seq![VERSION_MAGIC],
            r.index == 1,
    {
        let mut buff: Vec<u8> = Vec::new();
        buff.push(VERSION_MAGIC);
        ei_x_buff { buff, index: 1 }
    }

    /// A buffer over bytes that were received, with the cursor at their start.
    pub fn from_bytes(bytes: Vec<u8>) -> (r: Self)
        ensures
            r.buff@ == bytes@,
            r.index == 0,
    {
        ei_x_buff { buff: bytes, index: 0 }
    }

    /// Writes the term at the cursor, in place of whatever stood from there
    /// on, and moves the cursor to the end. A term that cannot be encoded
    /// leaves the buffer as it is; so does a cursor beyond the end, which is
    /// reported as `Unrepresentable`.
    pub fn encode(&mut self, term: &Term) -> (r: Result<(), EncodingError>)
        ensures
            r.is_ok() == (old(self).index <= old(self).buff@.len() && encodable(term@)),
            r.is_ok() ==> final(self).buff@ == old(self).buff@.take(old(self).index as int) + enc(
                term@,
            ) && final(self).index == final(self).buff@.len(),
            r.is_err() ==> *final(self) == *old(self) && r.unwrap_err() == (if old(self).index
                > old(self).buff@.len() {
                EncodingError::Unrepresentable
            } else {
                encoding_error(term@).unwrap()
            }),
    {
        if self.index > self.buff.len() {
            return Err(EncodingError::Unrepresentable);
        }
        match check(term) {
            Ok(()) => {
                self.buff.truncate(self.index);
                assert(self.buff@ =~= old(self).buff@.take(old(self).index as int));
                write_term(term, &mut self.buff);
                self.index = self.buff.len();
                Ok(())
            },
            Err(e) => Err(e),
        }
    }

    /// Decodes the term at the cursor and moves the cursor behind it; on an
    /// error the cursor is left at the item that failed.
    pub fn decode(&mut self) -> (r: Result<Term, DecodingError>)
        ensures
            final(self).buff == old(self).buff,
            match r {
                Ok(t) => dec(old(self).buff@, old(self).index as int) == Ok::<
                    (TermView, int),
                    (DecodingError, int),
                >((t@, final(self).index as int)),
                Err(e) => dec(old(self).buff@, old(self).index as int) == Err::<
                    (TermView, int),
                    (DecodingError, int),
                >((e, final(self).index as int)),
            },
    {
        match read_term(self.buff.as_slice(), self.index) {
            Ok((t, next)) => {
                self.index = next;
                Ok(t)
            },
            Err((e, at)) => {
                self.index = at;
                Err(e)
            },
        }
    }

    /// Moves the cursor over the term at which it stands without building
    /// the term: the cursor ends where decoding would leave it.
    pub fn skip(&mut self) -> (r: Result<(), DecodingError>)
        ensures
            final(self).buff == old(self).buff,
            match r {
                Ok(()) => end_of(dec(old(self).buff@, old(self).index as int)) == Ok::<
                    int,
                    (DecodingError, int),
                >(final(self).index as int),
                Err(e) => end_of(dec(old(self).buff@, old(self).index as int)) == Err::<
                    int,
                    (DecodingError, int),
                >((e, final(self).index as int)),
            },
    {
        match skip_term(self.buff.as_slice(), self.index) {
            Ok(next) => {
                self.index = next;
                Ok(())
            },
            Err((e, at)) => {
                self.index = at;
                Err(e)
            },
        }
    }
}

} // verus!
