//! A forward-only reader over a byte buffer.

use vstd::prelude::*;
use vstd::slice::slice_subrange;
use crate::error::DecodeError;

verus! {

/// What `take` yields on a stream `bytes` read up to `offset`, when asked for `n` bytes:
/// the next `n` bytes, or `Truncated` at `offset` where fewer are left.
pub open spec fn spec_take(bytes: Seq<u8>, offset: int, n: int) -> Result<Seq<u8>, DecodeError> {
    if offset + n <= bytes.len() {
        Ok(bytes.subrange(offset, offset + n))
    } else {
        Err(DecodeError::Truncated { offset: offset as usize })
    }
}

/// The outcome of a `take` with the bytes taken by their view.
pub open spec fn slice_view(taken: Result<&[u8], DecodeError>) -> Result<Seq<u8>, DecodeError> {
    match taken {
        Ok(slice) => Ok(slice@),
        Err(error) => Err(error),
    }
}

/// A position in a byte buffer that only moves forward.
pub struct Cursor<'a> {
    data: &'a [u8],
    pos: usize,
}

impl<'a> Cursor<'a> {
    #[verifier::type_invariant]
    spec fn in_bounds(self) -> bool {
        self.pos <= self.data@.len()
    }

    /// The whole buffer, read and unread.
    pub closed spec fn bytes(&self) -> Seq<u8> {
        self.data@
    }

    /// How many bytes have been consumed.
    pub closed spec fn offset(&self) -> nat {
        self.pos as nat
    }

    /// The bytes not yet consumed.
    pub open spec fn remaining(&self) -> Seq<u8> {
        self.bytes().skip(self.offset() as int)
    }

    /// A cursor at the start of `data`.
    pub fn new(data: &'a [u8]) -> (cursor: Self)
        ensures
            cursor.bytes() == data@,
            cursor.offset() == 0,
    {
        Cursor { data, pos: 0 }
    }

    /// The number of bytes consumed so far.
    pub fn consumed(&self) -> (n: usize)
        ensures
            n == self.offset(),
            n <= self.bytes().len(),
    {
        proof {
            use_type_invariant(self);
        }
        self.pos
    }

    /// Consumes exactly `n` bytes and returns them, or fails with `Truncated` and consumes
    /// nothing where fewer than `n` are left.
    pub fn take(&mut self, n: usize) -> (taken: Result<&'a [u8], DecodeError>)
        ensures
            final(self).bytes() == old(self).bytes(),
            slice_view(taken) == spec_take(old(self).bytes(), old(self).offset() as int, n as int),
            final(self).offset() == old(self).offset() + if taken is Ok {
                n as int
            } else {
                0
            },
            final(self).offset() <= usize::MAX,
    {
        proof {
            use_type_invariant(&*self);
        }
        if n <= self.data.len() - self.pos {
            let start: usize = self.pos;
            let slice = slice_subrange(self.data, start, start + n);
            self.pos = start + n;
            Ok(slice)
        } else {
            Err(DecodeError::Truncated { offset: self.pos })
        }
    }

    /// Consumes one byte and returns it, or returns `None` and consumes nothing at the end of
    /// the buffer.
    pub fn next_byte(&mut self) -> (byte: Option<u8>)
        ensures
            final(self).bytes() == old(self).bytes(),
            match byte {
                Some(b) => {
                    &&& old(self).offset() < old(self).bytes().len()
                    &&& b == old(self).bytes()[old(self).offset() as int]
                    &&& final(self).offset() == old(self).offset() + 1
                },
                None => {
                    &&& old(self).offset() >= old(self).bytes().len()
                    &&& final(self).offset() == old(self).offset()
                },
            },
    {
        proof {
            use_type_invariant(&*self);
        }
        if self.pos < self.data.len() {
            let b: u8 = self.data[self.pos];
            self.pos = self.pos + 1;
            Some(b)
        } else {
            None
        }
    }
}

} // verus!
