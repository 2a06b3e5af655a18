//! The streaming encoder: data is written to the handle, and the members
//! that hold it are read from it.

use vstd::prelude::*;
use crate::errno::Errno;
use crate::header::{header_bytes, dictionary_byte, HEADER_SIZE};
use crate::lz_encoder::{
    LzEncoderBase,
    LzmaOptions,
    enc_ops,
    is_parse,
    all_parses,
    member_bytes,
    members_bytes,
    members_data,
    LOOKAHEAD,
    MIN_MEMBER_SIZE_LIMIT,
    MAX_MEMBER_SIZE_LIMIT,
};
use crate::lzma::Op;
use crate::range_encoder::RE_BUFFER_SIZE;

verus! {

/// A size as a saturating 64-bit counter holds it.
pub open spec fn sat64(n: int) -> u64 {
    if n > u64::MAX {
        u64::MAX
    } else {
        n as u64
    }
}

/// The streaming encoder.
#[allow(non_camel_case_types)]
pub struct LZ_Encoder {
    eb: LzEncoderBase,
    partial_in_size: u64,
    partial_out_size: u64,
    lz_errno: Errno,
    fatal: bool,
    sync_pending: bool,
}

impl LZ_Encoder {
    /// All the bytes produced since the encoder was opened.
    pub closed spec fn stream(&self) -> Seq<u8> {
        self.eb.stream()
    }

    /// How many of them were read.
    pub closed spec fn drained(&self) -> nat {
        self.eb.drained()
    }

    /// Where in the stream the member at hand starts.
    pub closed spec fn member_start(&self) -> nat {
        self.eb.member_start()
    }

    /// All the data written for the member at hand.
    pub closed spec fn input(&self) -> Seq<u8> {
        self.eb.input()
    }

    /// How much of it was encoded.
    pub closed spec fn encoded(&self) -> nat {
        self.eb.encoded()
    }

    /// The parse of the data encoded so far of the member at hand.
    pub closed spec fn ops(&self) -> Seq<Op> {
        self.eb.ops()
    }

    /// The parses of the members before the one at hand.
    pub closed spec fn history(&self) -> Seq<Seq<Op>> {
        self.eb.history()
    }

    /// Whether the member at hand is complete.
    pub closed spec fn member_complete(&self) -> bool {
        self.eb.member_finished()
    }

    /// Whether the data was declared complete, for good or until a pending
    /// flush is done.
    pub closed spec fn at_stream_end(&self) -> bool {
        self.eb.at_stream_end()
    }

    /// Whether a flush was asked for and is not done.
    pub closed spec fn sync_pending(&self) -> bool {
        self.sync_pending
    }

    /// The dictionary size.
    pub closed spec fn dictionary_size(&self) -> u32 {
        self.eb.dictionary_size()
    }

    /// The limit on the size of the member at hand.
    pub closed spec fn member_size_limit(&self) -> u64 {
        self.eb.member_size_limit()
    }

    /// The latched error.
    pub closed spec fn errno(&self) -> Errno {
        self.lz_errno
    }

    /// Whether the encoder has failed.
    pub closed spec fn fatal(&self) -> bool {
        self.fatal
    }

    /// Number of bytes that can be written now.
    pub closed spec fn write_size(&self) -> nat {
        if self.fatal || self.eb.at_stream_end() {
            0
        } else {
            self.eb.write_size()
        }
    }

    /// Whether the output waiting to be read is short of the size at which
    /// encoding pauses.
    pub open spec fn has_room(&self) -> bool {
        self.pending().len() < RE_BUFFER_SIZE
    }

    /// The byte of every header that stands for the dictionary size.
    pub open spec fn coded_size(&self) -> u8 {
        dictionary_byte(self.dictionary_size())
    }

    /// The bytes produced and not read yet.
    pub open spec fn pending(&self) -> Seq<u8> {
        self.stream().skip(self.drained() as int)
    }

    /// All the data written since the encoder was opened.
    pub open spec fn all_input(&self) -> Seq<u8> {
        members_data(self.history()) + self.input()
    }

    /// Whether the member at hand is complete and all of it read.
    pub open spec fn member_finished(&self) -> bool {
        self.member_complete() && self.pending().len() == 0
    }

    /// Whether all the data was encoded and all the output read.
    pub open spec fn finished(&self) -> bool {
        &&& self.at_stream_end()
        &&& self.encoded() == self.input().len()
        &&& self.member_finished()
    }

    /// Whether encoding can go no further until data is written or the data
    /// is declared complete.
    pub open spec fn starved(&self) -> bool {
        !self.at_stream_end() && self.input().len() - self.encoded() < LOOKAHEAD
    }

    /// What does not change but at `open` and `restart_member`.
    pub open spec fn settings(&self, prev: LZ_Encoder) -> bool {
        self.dictionary_size() == prev.dictionary_size()
    }

    /// Everything but what is read of the output and the error is as it was
    /// in `prev`.
    pub open spec fn same_coding(&self, prev: LZ_Encoder) -> bool {
        &&& self.stream() == prev.stream()
        &&& self.member_start() == prev.member_start()
        &&& self.input() == prev.input()
        &&& self.encoded() == prev.encoded()
        &&& self.ops() == prev.ops()
        &&& self.history() == prev.history()
        &&& self.member_complete() == prev.member_complete()
        &&& self.at_stream_end() == prev.at_stream_end()
        &&& self.sync_pending() == prev.sync_pending()
        &&& self.dictionary_size() == prev.dictionary_size()
        &&& self.member_size_limit() == prev.member_size_limit()
    }

    /// The encoder's parts are well-formed.
    pub closed spec fn wf(&self) -> bool {
        &&& self.eb.wf()
        &&& self.sync_pending ==> self.eb.at_stream_end()
        &&& self.partial_in_size == sat64(members_data(self.eb.history()).len() as int)
        &&& self.partial_out_size == sat64(self.eb.member_start() as int)
    }

    /// What holds of every encoder: the operations chosen so far are a parse
    /// of the data encoded so far of the member at hand, the members before
    /// it are what their parses are coded to, and so is the member at hand
    /// once it is complete.
    pub proof fn lemma_wf(&self)
        requires
            self.wf(),
        ensures
            is_parse(self.ops(), self.dictionary_size()),
            all_parses(self.history(), self.dictionary_size()),
            self.encoded() <= self.input().len(),
            enc_ops(self.ops()).lz.data == self.input().subrange(0, self.encoded() as int),
            self.drained() <= self.stream().len(),
            self.member_start() <= self.stream().len(),
            self.stream().subrange(0, self.member_start() as int) == members_bytes(
                self.coded_size(),
                self.history(),
            ),
            self.member_complete() ==> self.stream().skip(self.member_start() as int)
                == member_bytes(self.coded_size(), self.ops()),
            self.sync_pending() ==> self.at_stream_end(),
    {
        self.eb.lemma_wf();
    }

    /// Encoding then decoding gives the data back: once the member at hand is
    /// complete and holds all the data written for it, as it is when the
    /// encoder is finished, all that the encoder has produced is a stream
    /// that decodes to all the data written, member after member.
    pub proof fn lemma_round_trip(&self)
        requires
            self.wf(),
            self.member_complete(),
            self.encoded() == self.input().len(),
        ensures
            crate::member::decode_stream(self.stream(), true) == Ok::<Seq<u8>, Errno>(
                self.all_input(),
            ),
    {
        crate::buffer::lemma_encoder_round_trip(self.eb);
    }

    /// An encoder for the given parameters, with the header of its first
    /// member ready to be read.
    pub fn open(dictionary_size: u32, match_len_limit: u32, member_size: u64) -> (r: Result<
        LZ_Encoder,
        Errno,
    >)
        ensures
            r is Ok <==> (LzmaOptions { dictionary_size, match_len_limit }).valid()
                && MIN_MEMBER_SIZE_LIMIT <= member_size <= MAX_MEMBER_SIZE_LIMIT,
            r matches Err(e) ==> e == Errno::BadArgument,
            r matches Ok(e) ==> {
                &&& e.wf()
                &&& e.stream() == header_bytes(dictionary_byte(dictionary_size))
                &&& e.drained() == 0
                &&& e.member_start() == 0
                &&& e.input() == Seq::<u8>::empty()
                &&& e.encoded() == 0
                &&& e.ops() == Seq::<Op>::empty()
                &&& e.history() == Seq::<Seq<Op>>::empty()
                &&& !e.member_complete()
                &&& !e.at_stream_end()
                &&& !e.sync_pending()
                &&& e.dictionary_size() == dictionary_size
                &&& e.member_size_limit() == member_size
                &&& e.errno() == Errno::NoError
                &&& !e.fatal()
            },
    {
        let options = LzmaOptions { dictionary_size, match_len_limit };
        if !options.is_valid() || member_size < MIN_MEMBER_SIZE_LIMIT || member_size
            > MAX_MEMBER_SIZE_LIMIT {
            return Err(Errno::BadArgument);
        }
        Ok(
            LZ_Encoder {
                eb: LzEncoderBase::new(options, member_size),
                partial_in_size: 0,
                partial_out_size: 0,
                lz_errno: Errno::NoError,
                fatal: false,
                sync_pending: false,
            },
        )
    }

    /// The latched error.
    pub fn get_errno(&self) -> (e: Errno)
        ensures
            e == self.errno(),
    {
        self.lz_errno
    }

    /// Number of bytes that can be written now.
    pub fn get_write_size(&self) -> (n: usize)
        requires
            self.wf(),
        ensures
            n == self.write_size(),
    {
        if self.fatal || self.eb.is_at_stream_end() {
            0
        } else {
            self.eb.free_bytes()
        }
    }

    /// Whether the member at hand is complete and all of it read.
    pub fn is_member_finished(&self) -> (b: bool)
        requires
            self.wf(),
        ensures
            b == self.member_finished(),
    {
        self.eb.is_member_finished() && self.eb.used_bytes() == 0
    }

    /// Whether all the data was encoded and all the output read.
    pub fn is_finished(&self) -> (b: bool)
        requires
            self.wf(),
        ensures
            b == self.finished(),
    {
        self.eb.is_at_stream_end() && self.eb.available_bytes() == 0
            && self.eb.is_member_finished() && self.eb.used_bytes() == 0
    }

    /// How much of the data of the member at hand was encoded.
    pub fn data_position(&self) -> (n: u64)
        requires
            self.wf(),
        ensures
            n == self.encoded(),
    {
        self.eb.data_position()
    }

    /// Number of bytes produced of the member at hand, those that the range
    /// encoder holds back included.
    pub fn member_position(&self) -> (n: u64)
        requires
            self.wf(),
        ensures
            n >= self.stream().len() - self.member_start(),
            self.member_complete() ==> n == self.stream().len() - self.member_start(),
    {
        proof {
            self.eb.lemma_wf();
        }
        self.eb.member_position()
    }

    /// How much data was encoded since the encoder was opened; it stops at
    /// the largest 64-bit value.
    pub fn total_in_size(&self) -> (n: u64)
        requires
            self.wf(),
        ensures
            n == sat64((members_data(self.history()).len() + self.encoded()) as int),
    {
        self.partial_in_size.saturating_add(self.eb.data_position())
    }

    /// Number of bytes produced since the encoder was opened, those that the
    /// range encoder holds back included; it stops at the largest 64-bit
    /// value.
    pub fn total_out_size(&self) -> (n: u64)
        requires
            self.wf(),
        ensures
            n >= sat64(self.stream().len() as int),
            self.member_complete() ==> n == sat64(self.stream().len() as int),
    {
        proof {
            self.eb.lemma_wf();
        }
        self.partial_out_size.saturating_add(self.eb.member_position())
    }

    /// Writes as much of `buffer` as there is room for, and returns how many
    /// bytes were taken. Nothing is taken while a flush is pending. Writing
    /// after `finish` is a sequence error, and fatal.
    pub fn write(&mut self, buffer: &[u8]) -> (r: Result<usize, Errno>)
        requires
            old(self).wf(),
        ensures
            final(self).wf(),
            final(self).drained() == old(self).drained(),
            old(self).fatal() ==> r == Err::<usize, Errno>(old(self).errno())
                && final(self).same_coding(*old(self)) && final(self).fatal()
                && final(self).errno() == old(self).errno(),
            !old(self).fatal() && old(self).at_stream_end() && !old(self).sync_pending() ==> r
                == Err::<usize, Errno>(Errno::SequenceError) && final(self).same_coding(*old(self))
                && final(self).fatal() && final(self).errno() == Errno::SequenceError,
            !old(self).fatal() && old(self).sync_pending() ==> r == Ok::<usize, Errno>(0)
                && final(self).same_coding(*old(self)) && !final(self).fatal()
                && final(self).errno() == old(self).errno(),
            !old(self).fatal() && !old(self).at_stream_end() ==> {
                &&& r matches Ok(n)
                &&& n == if buffer@.len() <= old(self).write_size() {
                    buffer@.len()
                } else {
                    old(self).write_size()
                }
                &&& final(self).input() == old(self).input() + buffer@.subrange(0, n as int)
                &&& final(self).stream() == old(self).stream()
                &&& final(self).member_start() == old(self).member_start()
                &&& final(self).encoded() == old(self).encoded()
                &&& final(self).ops() == old(self).ops()
                &&& final(self).history() == old(self).history()
                &&& final(self).member_complete() == old(self).member_complete()
                &&& !final(self).at_stream_end()
                &&& !final(self).sync_pending()
                &&& final(self).settings(*old(self))
                &&& final(self).member_size_limit() == old(self).member_size_limit()
                &&& !final(self).fatal()
                &&& final(self).errno() == old(self).errno()
            },
    {
        if self.fatal {
            return Err(self.lz_errno);
        }
        if self.sync_pending {
            return Ok(0);
        }
        if self.eb.is_at_stream_end() {
            self.lz_errno = Errno::SequenceError;
            self.fatal = true;
            return Err(Errno::SequenceError);
        }
        let n: usize = self.eb.write_data(buffer, 0);
        assert(buffer@.subrange(0, 0 + n) =~= buffer@.subrange(0, n as int));
        Ok(n)
    }

    /// Declares the data complete.
    pub fn finish(&mut self)
        requires
            old(self).wf(),
        ensures
            final(self).wf(),
            final(self).drained() == old(self).drained(),
            final(self).stream() == old(self).stream(),
            final(self).member_start() == old(self).member_start(),
            final(self).input() == old(self).input(),
            final(self).encoded() == old(self).encoded(),
            final(self).ops() == old(self).ops(),
            final(self).history() == old(self).history(),
            final(self).member_complete() == old(self).member_complete(),
            final(self).settings(*old(self)),
            final(self).member_size_limit() == old(self).member_size_limit(),
            final(self).fatal() == old(self).fatal(),
            final(self).errno() == old(self).errno(),
            old(self).fatal() ==> final(self).at_stream_end() == old(self).at_stream_end()
                && final(self).sync_pending() == old(self).sync_pending(),
            !old(self).fatal() ==> final(self).at_stream_end() && !final(self).sync_pending(),
    {
        if self.fatal {
            return ;
        }
        self.eb.finish();
        self.sync_pending = false;
    }

    /// Asks for all the data written so far to be put out: the member at
    /// hand ends with that data, and the next one starts when more is
    /// written. Until the flush is done, nothing can be written.
    pub fn sync_flush(&mut self) -> (r: Result<(), Errno>)
        requires
            old(self).wf(),
        ensures
            final(self).wf(),
            final(self).drained() == old(self).drained(),
            final(self).stream() == old(self).stream(),
            final(self).member_start() == old(self).member_start(),
            final(self).input() == old(self).input(),
            final(self).encoded() == old(self).encoded(),
            final(self).ops() == old(self).ops(),
            final(self).history() == old(self).history(),
            final(self).member_complete() == old(self).member_complete(),
            final(self).settings(*old(self)),
            final(self).member_size_limit() == old(self).member_size_limit(),
            final(self).fatal() == old(self).fatal(),
            final(self).errno() == old(self).errno(),
            old(self).fatal() <==> r is Err,
            r matches Err(e) ==> e == old(self).errno(),
            old(self).fatal() || old(self).at_stream_end() ==> final(self).at_stream_end() == old(
                self,
            ).at_stream_end() && final(self).sync_pending() == old(self).sync_pending(),
            !old(self).fatal() && !old(self).at_stream_end() ==> final(self).at_stream_end()
                && final(self).sync_pending(),
    {
        if self.fatal {
            return Err(self.lz_errno);
        }
        if !self.eb.is_at_stream_end() {
            self.eb.finish();
            self.sync_pending = true;
        }
        Ok(())
    }

    /// Starts the next member, with a limit on its size. The member at hand
    /// must be complete and all of it read, else this is a sequence error; a
    /// limit out of bounds is a bad argument. Neither is fatal.
    pub fn restart_member(&mut self, member_size: u64) -> (r: Result<(), Errno>)
        requires
            old(self).wf(),
        ensures
            final(self).wf(),
            final(self).drained() == old(self).drained(),
            final(self).settings(*old(self)),
            final(self).fatal() == old(self).fatal(),
            final(self).at_stream_end() == old(self).at_stream_end(),
            final(self).sync_pending() == old(self).sync_pending(),
            final(self).all_input() == old(self).all_input(),
            r == if old(self).fatal() {
                Err::<(), Errno>(old(self).errno())
            } else if !old(self).member_finished() {
                Err::<(), Errno>(Errno::SequenceError)
            } else if member_size < MIN_MEMBER_SIZE_LIMIT || member_size > MAX_MEMBER_SIZE_LIMIT {
                Err::<(), Errno>(Errno::BadArgument)
            } else {
                Ok::<(), Errno>(())
            },
            final(self).errno() == match r {
                Ok(_) => Errno::NoError,
                Err(e) => e,
            },
            r is Err ==> final(self).same_coding(*old(self)),
            r is Ok ==> {
                &&& final(self).stream() == old(self).stream() + header_bytes(old(self).coded_size())
                &&& final(self).member_start() == old(self).stream().len()
                &&& final(self).input() == old(self).input().skip(old(self).encoded() as int)
                &&& final(self).encoded() == 0
                &&& final(self).ops() == Seq::<Op>::empty()
                &&& final(self).history() == old(self).history().push(old(self).ops())
                &&& !final(self).member_complete()
                &&& final(self).member_size_limit() == member_size
            },
    {
        if self.fatal {
            return Err(self.lz_errno);
        }
        if !self.is_member_finished() {
            self.lz_errno = Errno::SequenceError;
            return Err(Errno::SequenceError);
        }
        if member_size < MIN_MEMBER_SIZE_LIMIT || member_size > MAX_MEMBER_SIZE_LIMIT {
            self.lz_errno = Errno::BadArgument;
            return Err(Errno::BadArgument);
        }
        self.start_next(member_size);
        self.lz_errno = Errno::NoError;
        Ok(())
    }

    /// Starts the next member.
    fn start_next(&mut self, member_size: u64)
        requires
            old(self).wf(),
            old(self).member_complete(),
            MIN_MEMBER_SIZE_LIMIT <= member_size <= MAX_MEMBER_SIZE_LIMIT,
        ensures
            final(self).wf(),
            final(self).drained() == old(self).drained(),
            final(self).settings(*old(self)),
            final(self).fatal() == old(self).fatal(),
            final(self).errno() == old(self).errno(),
            final(self).at_stream_end() == old(self).at_stream_end(),
            final(self).sync_pending() == old(self).sync_pending(),
            final(self).all_input() == old(self).all_input(),
            final(self).stream() == old(self).stream() + header_bytes(old(self).coded_size()),
            final(self).member_start() == old(self).stream().len(),
            final(self).input() == old(self).input().skip(old(self).encoded() as int),
            final(self).encoded() == 0,
            final(self).ops() == Seq::<Op>::empty(),
            final(self).history() == old(self).history().push(old(self).ops()),
            !final(self).member_complete(),
            final(self).member_size_limit() == member_size,
    {
        proof {
            self.eb.lemma_wf();
            assert(self.eb.history().push(self.eb.ops()).drop_last() =~= self.eb.history());
            assert(self.eb.stream().skip(self.eb.member_start() as int).len()
                == self.eb.stream().len() - self.eb.member_start());
        }
        self.partial_in_size = self.partial_in_size.saturating_add(self.eb.data_position());
        self.partial_out_size = self.partial_out_size.saturating_add(self.eb.member_position());
        self.eb.restart_member(member_size);
    }

    /// Encodes as far as can be, does a pending flush whose member is
    /// complete, and reads output into `buffer[from..]`; returns how many
    /// bytes were read.
    fn step(&mut self, buffer: &mut [u8], from: usize) -> (k: usize)
        requires
            old(self).wf(),
            !old(self).fatal(),
            from <= old(buffer)@.len(),
        ensures
            final(self).wf(),
            final(buffer)@.len() == old(buffer)@.len(),
            final(self).settings(*old(self)),
            final(self).fatal() == old(self).fatal(),
            final(self).errno() == old(self).errno(),
            final(self).all_input() == old(self).all_input(),
            final(self).stream().len() >= old(self).stream().len(),
            final(self).stream().subrange(0, old(self).stream().len() as int) == old(self).stream(),
            final(self).drained() == old(self).drained() + k,
            final(self).drained() <= final(self).stream().len(),
            from + k <= old(buffer)@.len(),
            final(buffer)@.subrange(from as int, from + k) == final(self).stream().subrange(
                old(self).drained() as int,
                old(self).drained() + k,
            ),
            final(buffer)@.subrange(0, from as int) == old(buffer)@.subrange(0, from as int),
            final(buffer)@.subrange(from + k, old(buffer)@.len() as int) == old(buffer)@.subrange(
                from + k,
                old(buffer)@.len() as int,
            ),
            k == 0 && from < old(buffer)@.len() ==> final(self).pending().len() == 0 && (
                final(self).member_complete() || final(self).starved()),
            !old(self).sync_pending() ==> !final(self).sync_pending()
                && final(self).at_stream_end() == old(self).at_stream_end()
                && final(self).history() == old(self).history()
                && final(self).input() == old(self).input()
                && final(self).member_start() == old(self).member_start()
                && final(self).member_size_limit() == old(self).member_size_limit()
                && final(self).encoded() >= old(self).encoded(),
    {
        self.advance();
        let ghost s2 = *self;
        let k: usize = self.eb.read_data(buffer, from);
        proof {
            let d0 = old(self).drained() as int;
            assert(s2.pending().subrange(0, k as int) =~= s2.stream().subrange(d0, d0 + k));
        }
        k
    }

    /// Encodes as far as can be, and does a pending flush whose member is
    /// complete.
    fn advance(&mut self)
        requires
            old(self).wf(),
            !old(self).fatal(),
        ensures
            final(self).wf(),
            final(self).settings(*old(self)),
            final(self).fatal() == old(self).fatal(),
            final(self).errno() == old(self).errno(),
            final(self).all_input() == old(self).all_input(),
            final(self).stream().len() >= old(self).stream().len(),
            final(self).stream().subrange(0, old(self).stream().len() as int) == old(self).stream(),
            final(self).drained() == old(self).drained(),
            final(self).drained() <= final(self).stream().len(),
            final(self).pending().len() == 0 ==> final(self).member_complete()
                || final(self).starved(),
            !old(self).sync_pending() ==> !final(self).sync_pending()
                && final(self).at_stream_end() == old(self).at_stream_end()
                && final(self).history() == old(self).history()
                && final(self).input() == old(self).input()
                && final(self).member_start() == old(self).member_start()
                && final(self).member_size_limit() == old(self).member_size_limit()
                && final(self).encoded() >= old(self).encoded(),
    {
        self.eb.encode_member();
        let ghost s1 = *self;
        proof {
            s1.eb.lemma_wf();
        }
        if self.sync_pending && self.eb.is_member_finished() {
            let all: bool = self.eb.available_bytes() == 0;
            let limit: u64 = self.eb.get_member_size_limit();
            self.start_next(limit);
            if all {
                self.eb.resume();
                self.sync_pending = false;
            }
            proof {
                self.eb.lemma_wf();
                assert(header_bytes(s1.coded_size()).len() == HEADER_SIZE);
                assert(self.stream().subrange(0, s1.stream().len() as int) =~= s1.stream());
                Self::lemma_prefix_trans(old(self).stream(), s1.stream(), self.stream());
            }
        }
    }

    /// A sequence that starts with one that starts with a third starts with
    /// the third.
    pub proof fn lemma_prefix_trans(a: Seq<u8>, b: Seq<u8>, c: Seq<u8>)
        requires
            a.len() <= b.len() <= c.len(),
            b.subrange(0, a.len() as int) == a,
            c.subrange(0, b.len() as int) == b,
        ensures
            c.subrange(0, a.len() as int) == a,
    {
        assert forall|j: int| 0 <= j < a.len() implies c[j] == a[j] by {
            assert(c.subrange(0, b.len() as int)[j] == c[j]);
            assert(b.subrange(0, a.len() as int)[j] == b[j]);
        }
        assert(c.subrange(0, a.len() as int) =~= a);
    }

    /// Encodes as far as can be and reads output into the front of `buffer`;
    /// returns how many bytes were read, and leaves the rest of `buffer` as
    /// it was. Encoding goes on for as long as the output waiting to be read
    /// is short of a fixed size, and more is read for as long as `buffer` has
    /// room and there is output. A pending flush is done once its member is
    /// complete: the next member starts, and data can be written again.
    pub fn read(&mut self, buffer: &mut [u8]) -> (r: Result<usize, Errno>)
        requires
            old(self).wf(),
        ensures
            final(self).wf(),
            final(buffer)@.len() == old(buffer)@.len(),
            final(self).settings(*old(self)),
            final(self).fatal() == old(self).fatal(),
            final(self).errno() == old(self).errno(),
            old(self).fatal() <==> r is Err,
            r matches Err(e) ==> e == old(self).errno() && final(self).same_coding(*old(self))
                && final(self).drained() == old(self).drained() && final(buffer)@ == old(
                buffer,
            )@,
            r matches Ok(n) ==> {
                &&& n <= old(buffer)@.len()
                &&& final(self).all_input() == old(self).all_input()
                &&& final(self).stream().len() >= old(self).stream().len()
                &&& final(self).stream().subrange(0, old(self).stream().len() as int) == old(
                    self,
                ).stream()
                &&& final(self).drained() == old(self).drained() + n
                &&& final(self).drained() <= final(self).stream().len()
                &&& final(buffer)@.subrange(0, n as int) == final(self).stream().subrange(
                    old(self).drained() as int,
                    old(self).drained() + n,
                )
                &&& final(buffer)@.subrange(n as int, old(buffer)@.len() as int) == old(
                    buffer,
                )@.subrange(n as int, old(buffer)@.len() as int)
                &&& n < old(buffer)@.len() ==> final(self).pending().len() == 0 && (
                    final(self).member_complete() || final(self).starved())
                &&& !old(self).sync_pending() ==> !final(self).sync_pending()
                    && final(self).at_stream_end() == old(self).at_stream_end()
                    && final(self).history() == old(self).history()
                    && final(self).input() == old(self).input()
                    && final(self).member_start() == old(self).member_start()
                    && final(self).member_size_limit() == old(self).member_size_limit()
                    && final(self).encoded() >= old(self).encoded()
            },
    {
        if self.fatal {
            return Err(self.lz_errno);
        }
        let total: usize = buffer.len();
        let mut filled: usize = 0;
        proof {
            self.eb.lemma_wf();
            assert(self.stream().subrange(0, self.stream().len() as int) =~= self.stream());
            assert(buffer@.subrange(0, 0) =~= self.stream().subrange(
                self.drained() as int,
                self.drained() as int,
            ));
        }
        loop
            invariant_except_break
                filled < total || total == 0,
            invariant
                self.wf(),
                !self.fatal(),
                self.fatal() == old(self).fatal(),
                self.errno() == old(self).errno(),
                total == old(buffer)@.len(),
                buffer@.len() == total,
                filled <= total,
                self.settings(*old(self)),
                self.all_input() == old(self).all_input(),
                self.stream().len() >= old(self).stream().len(),
                self.stream().subrange(0, old(self).stream().len() as int) == old(self).stream(),
                self.drained() == old(self).drained() + filled,
                self.drained() <= self.stream().len(),
                buffer@.subrange(0, filled as int) == self.stream().subrange(
                    old(self).drained() as int,
                    old(self).drained() + filled,
                ),
                buffer@.subrange(filled as int, total as int) == old(buffer)@.subrange(
                    filled as int,
                    total as int,
                ),
                !old(self).sync_pending() ==> !self.sync_pending()
                    && self.at_stream_end() == old(self).at_stream_end()
                    && self.history() == old(self).history()
                    && self.input() == old(self).input()
                    && self.member_start() == old(self).member_start()
                    && self.member_size_limit() == old(self).member_size_limit()
                    && self.encoded() >= old(self).encoded(),
            ensures
                filled < total ==> self.pending().len() == 0 && (self.member_complete()
                    || self.starved()),
            decreases total - filled,
        {
            let ghost s0 = *self;
            let ghost b0 = buffer@;
            let k: usize = self.step(buffer, filled);
            proof {
                let d0 = old(self).drained() as int;
                let st = self.stream();
                Self::lemma_prefix_trans(old(self).stream(), s0.stream(), st);
                assert(buffer@.subrange(0, filled + k) =~= st.subrange(d0, d0 + filled + k)) by {
                    assert forall|j: int| 0 <= j < filled + k implies buffer@[j] == st[d0 + j] by {
                        if j < filled {
                            assert(buffer@.subrange(0, filled as int)[j] == buffer@[j]);
                            assert(b0.subrange(0, filled as int)[j] == b0[j]);
                            assert(s0.stream().subrange(d0, d0 + filled)[j] == s0.stream()[d0 + j]);
                            assert(st.subrange(0, s0.stream().len() as int)[d0 + j] == st[d0 + j]);
                        } else {
                            assert(buffer@.subrange(filled as int, filled + k)[j - filled]
                                == buffer@[j]);
                            assert(st.subrange(d0 + filled, d0 + filled + k)[j - filled] == st[d0
                                + j]);
                        }
                    }
                }
                assert(buffer@.subrange(filled + k, total as int) =~= old(buffer)@.subrange(
                    filled + k,
                    total as int,
                )) by {
                    assert forall|j: int| filled + k <= j < total implies buffer@[j] == old(
                        buffer,
                    )@[j] by {
                        assert(buffer@.subrange(filled + k, total as int)[j - filled - k]
                            == buffer@[j]);
                        assert(b0.subrange(filled + k, total as int)[j - filled - k] == b0[j]);
                        assert(b0.subrange(filled as int, total as int)[j - filled] == b0[j]);
                    }
                }
            }
            filled = filled + k;
            if k == 0 || filled == total {
                break ;
            }
        }
        Ok(filled)
    }
}

} // verus!
