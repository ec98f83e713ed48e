//! Buffered reader with peek/consume support.
//!
//! The reader holds the bytes that have arrived and not been used yet. Its caller fetches
//! more whenever an operation reports that too few are there: it asks for the free part of
//! the buffer with [`StreamReader::spare`], reads into it, and reports how much came with
//! [`StreamReader::filled`].

use vstd::prelude::*;
use vstd::slice::slice_subrange;

use crate::error::Error;
use crate::util;

verus! {

pub const DEFAULT_BUFFER_SIZE: usize = 32768;

pub struct StreamReader {
    buf: Vec<u8>,
    start_offset: usize,
    end_offset: usize,
}

impl StreamReader {
    /// The offsets lie in order within the buffer.
    pub closed spec fn wf(self) -> bool {
        self.start_offset <= self.end_offset <= self.buf@.len()
    }

    /// The bytes that have arrived and not been used yet.
    pub closed spec fn unread(self) -> Seq<u8> {
        self.buf@.subrange(self.start_offset as int, self.end_offset as int)
    }

    /// The free bytes behind the unread ones.
    pub closed spec fn free(self) -> Seq<u8> {
        self.buf@.skip(self.end_offset as int)
    }

    /// How many bytes the buffer takes in all.
    pub closed spec fn capacity(self) -> nat {
        self.buf@.len()
    }

    /// A reader with a buffer of the default size.
    pub fn new() -> (r: Self)
        ensures
            r.wf(),
            r.unread() == Seq::<u8>::empty(),
            r.capacity() == DEFAULT_BUFFER_SIZE,
    {
        Self::new_with_buffer_size(DEFAULT_BUFFER_SIZE)
    }

    /// A reader with a buffer of `buffer_size` bytes.
    pub fn new_with_buffer_size(buffer_size: usize) -> (r: Self)
        ensures
            r.wf(),
            r.unread() == Seq::<u8>::empty(),
            r.capacity() == buffer_size,
    {
        let r = Self {
            buf: util::allocate_vec(buffer_size),
            start_offset: 0usize,
            end_offset: 0usize,
        };
        assert(r.unread() =~= Seq::<u8>::empty());
        r
    }

    /// Moves the unread bytes to the front of the buffer.
    fn reset_buf_offset(&mut self)
        requires
            old(self).wf(),
        ensures
            final(self).wf(),
            final(self).unread() == old(self).unread(),
            final(self).capacity() == old(self).capacity(),
            final(self).start_offset == 0,
    {
        if self.start_offset == 0 {
            return ;
        }
        util::move_to_front(&mut self.buf, self.start_offset, self.end_offset);
        self.end_offset = self.end_offset - self.start_offset;
        self.start_offset = 0;
        assert(self.unread() =~= old(self).unread());
    }

    fn is_cache_full(&self) -> (r: bool)
        requires
            self.wf(),
        ensures
            r == (self.unread().len() == self.capacity()),
    {
        self.start_offset == 0 && self.end_offset == self.buf.len()
    }

    /// The free part of the buffer, to read into. A buffer that holds nothing but unread
    /// bytes has none.
    pub fn spare(&mut self) -> (r: Result<&mut [u8], Error>)
        requires
            old(self).wf(),
        ensures
            match r {
                Ok(s) => {
                    &&& old(self).unread().len() < old(self).capacity()
                    &&& s@.len() == old(self).capacity() - old(self).unread().len()
                    &&& final(s)@.len() == s@.len() ==> {
                        &&& final(self).wf()
                        &&& final(self).unread() == old(self).unread()
                        &&& final(self).capacity() == old(self).capacity()
                        &&& final(self).free() == final(s)@
                    }
                },
                Err(e) => {
                    &&& old(self).unread().len() == old(self).capacity()
                    &&& e == Error::CacheFull
                    &&& *final(self) == *old(self)
                },
            },
    {
        if self.is_cache_full() {
            return Err(Error::CacheFull);
        }
        self.reset_buf_offset();
        let (front, back) = self.buf.as_mut_slice().split_at_mut(self.end_offset);
        Ok(back)
    }

    /// Takes note that `n` bytes came into the free part of the buffer. None at all is the
    /// end of the stream.
    pub fn filled(&mut self, n: usize) -> (r: Result<(), Error>)
        requires
            old(self).wf(),
            n <= old(self).free().len(),
        ensures
            final(self).wf(),
            final(self).capacity() == old(self).capacity(),
            match r {
                Ok(_) => {
                    &&& n > 0
                    &&& final(self).unread() == old(self).unread() + old(self).free().take(n as int)
                },
                Err(e) => {
                    &&& n == 0
                    &&& e == Error::EofWhileReading
                    &&& *final(self) == *old(self)
                },
            },
    {
        if n == 0 {
            return Err(Error::EofWhileReading);
        }
        assert(self.buf.len() == self.buf@.len());
        self.end_offset = self.end_offset + n;
        assert(self.unread() =~= old(self).unread() + old(self).free().take(n as int));
        Ok(())
    }

    /// Takes one byte. `None`: more bytes are needed.
    pub fn read_u8(&mut self) -> (r: Option<u8>)
        requires
            old(self).wf(),
        ensures
            final(self).wf(),
            final(self).capacity() == old(self).capacity(),
            match r {
                Some(b) => {
                    &&& old(self).unread().len() >= 1
                    &&& b == old(self).unread()[0]
                    &&& final(self).unread() == old(self).unread().skip(1)
                },
                None => old(self).unread().len() < 1 && *final(self) == *old(self),
            },
    {
        if self.end_offset - self.start_offset < 1 {
            return None;
        }
        let value: u8 = self.buf[self.start_offset];
        self.consume(1);
        Some(value)
    }

    /// Peeks at the first `len` bytes without consuming them. `None`: more bytes are needed.
    pub fn peek_slice(&self, len: usize) -> (r: Result<Option<&[u8]>, Error>)
        requires
            self.wf(),
        ensures
            match r {
                Ok(Some(s)) => {
                    &&& len <= self.unread().len()
                    &&& s@ == self.unread().take(len as int)
                },
                Ok(None) => self.unread().len() < len <= self.capacity(),
                Err(e) => len > self.capacity() && e == Error::ExceedsBuffer,
            },
    {
        if len > self.buf.len() {
            return Err(Error::ExceedsBuffer);
        }
        if self.end_offset - self.start_offset < len {
            return Ok(None);
        }
        let s = slice_subrange(self.buf.as_slice(), self.start_offset, self.start_offset + len);
        assert(s@ =~= self.unread().take(len as int));
        Ok(Some(s))
    }

    /// Consumes (skips) `len` bytes that were previously peeked.
    pub fn consume(&mut self, len: usize)
        requires
            old(self).wf(),
            len <= old(self).unread().len(),
        ensures
            final(self).wf(),
            final(self).capacity() == old(self).capacity(),
            final(self).unread() == old(self).unread().skip(len as int),
    {
        let new_start_offset: usize = self.start_offset + len;
        if new_start_offset == self.end_offset {
            self.start_offset = 0;
            self.end_offset = 0;
        } else {
            self.start_offset = new_start_offset;
        }
        assert(self.unread() =~= old(self).unread().skip(len as int));
    }

    /// Takes a big-endian number of two bytes. `None`: more bytes are needed.
    pub fn read_u16_be(&mut self) -> (r: Option<u16>)
        requires
            old(self).wf(),
        ensures
            final(self).wf(),
            final(self).capacity() == old(self).capacity(),
            match r {
                Some(v) => {
                    &&& old(self).unread().len() >= 2
                    &&& v == util::be16(old(self).unread()[0], old(self).unread()[1])
                    &&& final(self).unread() == old(self).unread().skip(2)
                },
                None => old(self).unread().len() < 2 && *final(self) == *old(self),
            },
    {
        if self.end_offset - self.start_offset < 2 {
            return None;
        }
        let value: u16 = util::get_be16(self.buf.as_slice(), self.start_offset);
        self.consume(2);
        Some(value)
    }

    /// Takes `len` bytes. `None`: more bytes are needed.
    pub fn read_slice(&mut self, len: usize) -> (r: Result<Option<Vec<u8>>, Error>)
        requires
            old(self).wf(),
        ensures
            final(self).wf(),
            final(self).capacity() == old(self).capacity(),
            match r {
                Ok(Some(s)) => {
                    &&& len <= old(self).unread().len()
                    &&& s@ == old(self).unread().take(len as int)
                    &&& final(self).unread() == old(self).unread().skip(len as int)
                },
                Ok(None) => {
                    &&& old(self).unread().len() < len <= old(self).capacity()
                    &&& *final(self) == *old(self)
                },
                Err(e) => {
                    &&& len > old(self).capacity()
                    &&& e == Error::ExceedsBuffer
                    &&& *final(self) == *old(self)
                },
            },
    {
        let s: Vec<u8> = match self.peek_slice(len) {
            Err(e) => {
                return Err(e);
            },
            Ok(None) => {
                return Ok(None);
            },
            Ok(Some(s)) => util::to_vec(s),
        };
        self.consume(len);
        Ok(Some(s))
    }

    /// The bytes that have arrived and not been used yet.
    pub fn unparsed_data(&self) -> (r: &[u8])
        requires
            self.wf(),
        ensures
            r@ == self.unread(),
    {
        slice_subrange(self.buf.as_slice(), self.start_offset, self.end_offset)
    }

    /// A copy of the bytes that have arrived and not been used yet, where there are any.
    pub fn unparsed_data_owned(&self) -> (r: Option<Vec<u8>>)
        requires
            self.wf(),
        ensures
            match r {
                Some(s) => s@.len() > 0 && s@ == self.unread(),
                None => self.unread().len() == 0,
            },
    {
        let unparsed_data = self.unparsed_data();
        if unparsed_data.len() == 0 {
            None
        } else {
            Some(util::to_vec(unparsed_data))
        }
    }
}

/// A reader never holds more than its capacity.
pub proof fn unread_fits(r: StreamReader)
    requires
        r.wf(),
    ensures
        r.unread().len() <= r.capacity(),
{
}

} // verus!
