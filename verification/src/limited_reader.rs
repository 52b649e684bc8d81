//! A reader wrapper that hands out at most a set number of bytes.
use vstd::prelude::*;

verus! {

/// A reader with an optional budget of bytes: reads are cut to the bytes
/// that remain, and each read spends what it returned.
#[derive(Debug)]
pub struct LimitedReader<R> {
    remain: Option<usize>,
    r: R,
}

impl<R> LimitedReader<R> {
    /// The bytes that may still be read; `None` without a limit.
    pub closed spec fn remaining(&self) -> Option<usize> {
        self.remain
    }

    /// The wrapped reader.
    pub closed spec fn reader(&self) -> R {
        self.r
    }

    /// Wraps `r` with an optional limit.
    pub fn new(r: R, limit: Option<usize>) -> (res: LimitedReader<R>)
        ensures
            res.remaining() == limit,
            res.reader() == r,
    {
        LimitedReader { remain: limit, r: r }
    }

    /// Allows exactly `s` more bytes.
    pub fn set_limit(&mut self, s: usize)
        ensures
            final(self).remaining() == Some(s),
            final(self).reader() == old(self).reader(),
    {
        self.remain = Some(s)
    }

    /// Removes the limit.
    pub fn unset_limit(&mut self)
        ensures
            final(self).remaining() is None,
            final(self).reader() == old(self).reader(),
    {
        self.remain = None
    }

    /// The wrapped reader.
    pub fn get_ref(&self) -> (r: &R)
        ensures
            *r == self.reader(),
    {
        &self.r
    }

    /// The wrapped reader, to be used in place.
    pub fn get_mut(&mut self) -> (r: &mut R)
        ensures
            *r == old(self).reader(),
            final(self).reader() == *final(r),
            final(self).remaining() == old(self).remaining(),
    {
        &mut self.r
    }

    /// Gives back the wrapped reader.
    pub fn inner(self) -> (r: R)
        ensures
            r == self.reader(),
    {
        self.r
    }

    /// How many bytes a read into a buffer of `buf_len` bytes may ask the
    /// wrapped reader for: all of them without a limit, else no more than remain.
    pub fn read_len(&self, buf_len: usize) -> (n: usize)
        ensures
            n == match self.remaining() {
                None => buf_len,
                Some(remain) => if remain < buf_len {
                    remain
                } else {
                    buf_len
                },
            },
    {
        match self.remain {
            None => buf_len,
            Some(remain) => if remain < buf_len {
                remain
            } else {
                buf_len
            },
        }
    }

    /// Spends `n` bytes that a read returned.
    pub fn consume(&mut self, n: usize)
        requires
            old(self).remaining() matches Some(remain) ==> n <= remain,
        ensures
            final(self).remaining() == match old(self).remaining() {
                None => None,
                Some(remain) => Some((remain - n) as usize),
            },
            final(self).reader() == old(self).reader(),
    {
        match self.remain {
            None => {},
            Some(remain) => {
                self.remain = Some(remain - n);
            },
        }
    }
}

} // verus!
