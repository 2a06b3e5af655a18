//! Decoders for compressed data that comes from a buffered source.
//!
//! A decoder holds the source, but does not read from it: whoever drives
//! the decoder fetches what the source has buffered, hands it to
//! `read_step`, and tells the source how much of it was consumed.

use vstd::prelude::*;
use crate::mem::{Decompress, DecompressState, Error, Status};

verus! {

/// What is to be done after a step of reading.
#[derive(Clone, Copy, Debug, PartialEq, Eq, Structural)]
pub enum Next {
    /// The read is over, and so many bytes were read.
    Return(usize),
    /// Nothing was read yet: more input is to be fetched for another step.
    Again,
    /// The compressed data is invalid.
    Invalid(Error),
    /// The source is at its end, and the member is not.
    UnexpectedEof,
}

/// What a step of reading did.
#[derive(Clone, Copy, Debug, PartialEq, Eq, Structural)]
pub struct Advance {
    /// Number of bytes of the input that were consumed.
    pub consumed: usize,
    /// What is to be done next.
    pub next: Next,
}

/// What a decoder holds besides its source.
pub struct ReaderState {
    /// The decompression stream.
    pub data: DecompressState,
    /// Whether the member at hand is done with.
    pub done: bool,
    /// Whether all the members of the source are decoded, or the first only.
    pub multi: bool,
}

/// What a step of reading comes to.
pub struct Turn {
    /// The decoder afterwards.
    pub state: ReaderState,
    /// Number of bytes of the input consumed.
    pub consumed: nat,
    /// The data read.
    pub data: Seq<u8>,
    /// What is to be done next.
    pub next: Next,
}

impl ReaderState {
    /// The state of a new decoder.
    pub open spec fn init(multi: bool) -> ReaderState {
        ReaderState { data: DecompressState::init(), done: false, multi }
    }

    /// Whether a read has to look at the source.
    pub open spec fn wants_input(self) -> bool {
        !self.done || self.multi
    }

    /// One step of a read into room for `size` bytes, with what the source
    /// has buffered; empty input means that the source is at its end.
    ///
    /// After the last member nothing is read. After a member that others may
    /// follow, the end of the source ends the reading, and anything else is
    /// given to a new decompression stream. The step reads nothing more once
    /// some data was read. Input that ends inside a member is an unexpected
    /// end.
    pub open spec fn turn(self, input: Seq<u8>, size: nat) -> Turn {
        if self.done && (!self.multi || input.len() == 0) {
            Turn { state: self, consumed: 0, data: Seq::empty(), next: Next::Return(0) }
        } else {
            let stream = if self.done {
                DecompressState::init()
            } else {
                self.data
            };
            let p = stream.step(input, size);
            Turn {
                state: ReaderState {
                    data: p.state,
                    done: p.result == Ok::<Status, Error>(Status::StreamEnd),
                    multi: self.multi,
                },
                consumed: p.consumed,
                data: p.data,
                next: match p.result {
                    Err(e) => Next::Invalid(e),
                    Ok(status) => {
                        if status != Status::StreamEnd && p.consumed == 0 && input.len() == 0
                            && p.data.len() == 0 {
                            Next::UnexpectedEof
                        } else if p.data.len() > 0 || size == 0 {
                            Next::Return(p.data.len() as usize)
                        } else {
                            Next::Again
                        }
                    },
                },
            }
        }
    }
}

/// A decoder of the first member that a source holds. What follows that
/// member is left in the source.
pub struct LzDecoder<R> {
    obj: R,
    data: Decompress,
    done: bool,
    multi: bool,
}

impl<R> LzDecoder<R> {
    /// The decompression stream is well-formed.
    pub closed spec fn wf(&self) -> bool {
        self.data.wf()
    }

    /// The source.
    pub closed spec fn source(&self) -> R {
        self.obj
    }

    /// What the decoder holds besides the source.
    pub closed spec fn state(&self) -> ReaderState {
        ReaderState { data: self.data@, done: self.done, multi: self.multi }
    }

    /// A decoder of the data that `r` holds.
    pub fn new(r: R) -> (d: LzDecoder<R>)
        ensures
            d.wf(),
            d.source() == r,
            d.state() == ReaderState::init(false),
    {
        LzDecoder { obj: r, data: Decompress::new(false), done: false, multi: false }
    }

    /// Sets whether all the members are decoded.
    pub fn multi(self, flag: bool) -> (d: LzDecoder<R>)
        requires
            self.wf(),
        ensures
            d.wf(),
            d.source() == self.source(),
            d.state() == (ReaderState { multi: flag, ..self.state() }),
    {
        let mut d = self;
        d.multi = flag;
        d
    }

    /// The source.
    pub fn get_ref(&self) -> (r: &R)
        ensures
            *r == self.source(),
    {
        &self.obj
    }

    /// The source, to be changed. Bytes taken from it behind the decoder's
    /// back are lost to the decoder.
    pub fn get_mut(&mut self) -> (r: &mut R)
        ensures
            *r == old(self).source(),
            final(self).source() == *final(r),
            final(self).state() == old(self).state(),
            final(self).wf() == old(self).wf(),
    {
        &mut self.obj
    }

    /// Gives up the decoder for its source.
    pub fn into_inner(self) -> (r: R)
        ensures
            r == self.source(),
    {
        self.obj
    }

    /// Number of bytes consumed of the member at hand.
    pub fn total_in(&self) -> (n: u64)
        ensures
            n == self.state().data.total_in,
    {
        self.data.total_in()
    }

    /// Number of bytes read of the member at hand.
    pub fn total_out(&self) -> (n: u64)
        ensures
            n == self.state().data.total_out,
    {
        self.data.total_out()
    }

    /// Whether a read has to look at the source; if not, it reads nothing.
    pub fn wants_input(&self) -> (b: bool)
        ensures
            b == self.state().wants_input(),
    {
        !self.done || self.multi
    }

    /// One step of a read into `buf`, as `turn` says, with `input` being
    /// what the source has buffered. The data read is in the front of `buf`,
    /// and the rest of `buf` is left as it was.
    pub fn read_step(&mut self, input: &[u8], buf: &mut [u8]) -> (r: Advance)
        requires
            old(self).wf(),
        ensures
            final(self).wf(),
            final(self).source() == old(self).source(),
            final(self).state() == old(self).state().turn(input@, old(buf)@.len()).state,
            r.consumed == old(self).state().turn(input@, old(buf)@.len()).consumed,
            r.consumed <= input@.len(),
            r.next == old(self).state().turn(input@, old(buf)@.len()).next,
            final(buf)@.len() == old(buf)@.len(),
            final(buf)@.subrange(
                0,
                old(self).state().turn(input@, old(buf)@.len()).data.len() as int,
            ) == old(self).state().turn(input@, old(buf)@.len()).data,
            final(buf)@.subrange(
                old(self).state().turn(input@, old(buf)@.len()).data.len() as int,
                old(buf)@.len() as int,
            ) == old(buf)@.subrange(
                old(self).state().turn(input@, old(buf)@.len()).data.len() as int,
                old(buf)@.len() as int,
            ),
    {
        if self.done {
            if !self.multi || input.len() == 0 {
                assert(buf@.subrange(0, 0) =~= Seq::<u8>::empty());
                return Advance { consumed: 0, next: Next::Return(0) };
            }
            self.data = Decompress::new(false);
            self.done = false;
        }
        let size: usize = buf.len();
        let r = self.data.advance(input, buf);
        let next: Next = match r.0 {
            Err(e) => Next::Invalid(e),
            Ok(status) => {
                if status == Status::StreamEnd {
                    self.done = true;
                }
                if status != Status::StreamEnd && r.1 == 0 && input.len() == 0 && r.2 == 0 {
                    Next::UnexpectedEof
                } else if r.2 > 0 || size == 0 {
                    Next::Return(r.2)
                } else {
                    Next::Again
                }
            },
        };
        Advance { consumed: r.1, next }
    }
}

/// A decoder of all the members that a source holds.
pub struct MultiLzDecoder<R>(LzDecoder<R>);

impl<R> MultiLzDecoder<R> {
    /// The decoder within is well-formed.
    pub closed spec fn wf(&self) -> bool {
        self.0.wf()
    }

    /// The source.
    pub closed spec fn source(&self) -> R {
        self.0.source()
    }

    /// What the decoder holds besides the source.
    pub closed spec fn state(&self) -> ReaderState {
        self.0.state()
    }

    /// A decoder of the data that `r` holds, of every member.
    pub fn new(r: R) -> (d: MultiLzDecoder<R>)
        ensures
            d.wf(),
            d.source() == r,
            d.state() == ReaderState::init(true),
    {
        MultiLzDecoder(LzDecoder::new(r).multi(true))
    }

    /// The source.
    pub fn get_ref(&self) -> (r: &R)
        ensures
            *r == self.source(),
    {
        self.0.get_ref()
    }

    /// The source, to be changed. Bytes taken from it behind the decoder's
    /// back are lost to the decoder.
    pub fn get_mut(&mut self) -> (r: &mut R)
        ensures
            *r == old(self).source(),
            final(self).source() == *final(r),
            final(self).state() == old(self).state(),
            final(self).wf() == old(self).wf(),
    {
        self.0.get_mut()
    }

    /// Gives up the decoder for its source.
    pub fn into_inner(self) -> (r: R)
        ensures
            r == self.source(),
    {
        self.0.into_inner()
    }

    /// Whether a read has to look at the source; if not, it reads nothing.
    pub fn wants_input(&self) -> (b: bool)
        ensures
            b == self.state().wants_input(),
    {
        self.0.wants_input()
    }

    /// One step of a read into `buf`, as `turn` says, with `input` being
    /// what the source has buffered. The data read is in the front of `buf`,
    /// and the rest of `buf` is left as it was.
    pub fn read_step(&mut self, input: &[u8], buf: &mut [u8]) -> (r: Advance)
        requires
            old(self).wf(),
        ensures
            final(self).wf(),
            final(self).source() == old(self).source(),
            final(self).state() == old(self).state().turn(input@, old(buf)@.len()).state,
            r.consumed == old(self).state().turn(input@, old(buf)@.len()).consumed,
            r.consumed <= input@.len(),
            r.next == old(self).state().turn(input@, old(buf)@.len()).next,
            final(buf)@.len() == old(buf)@.len(),
            final(buf)@.subrange(
                0,
                old(self).state().turn(input@, old(buf)@.len()).data.len() as int,
            ) == old(self).state().turn(input@, old(buf)@.len()).data,
            final(buf)@.subrange(
                old(self).state().turn(input@, old(buf)@.len()).data.len() as int,
                old(buf)@.len() as int,
            ) == old(buf)@.subrange(
                old(self).state().turn(input@, old(buf)@.len()).data.len() as int,
                old(buf)@.len() as int,
            ),
    {
        self.0.read_step(input, buf)
    }
}

} // verus!
