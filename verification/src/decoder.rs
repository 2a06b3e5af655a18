//! The streaming decoder: compressed bytes are written to the handle, and
//! the data they hold is read from it.
//!
//! What the handle does is stated over `DecoderState`, a mathematical record
//! of what it holds, and over the functions of that record that follow.

use vstd::prelude::*;
use crate::bit_model::BIT_MODEL_INIT;
use crate::crc::crc32;
use crate::errno::Errno;
use crate::header::{
    parse_header,
    read_header,
    parse_trailer,
    magic,
    HEADER_SIZE,
    TRAILER_SIZE,
    VERSION,
};
use crate::lz_decoder::{LZ_decoder, Dec, Stage, Outcome, lzd_run, trailer_agrees};
use crate::lzma::{Lz, lz_init, NUM_MODELS};
use crate::range_decoder::{Rd, RangeDecoder, rd_loadable, rd_load, LOAD_SIZE, RD_BUFFER_SIZE};
use crate::window::window_size;

verus! {

/// What a decoder holds of the member it is decoding.
#[verifier::ext_equal]
pub struct MemberState {
    /// The probabilities.
    pub probs: Seq<u32>,
    /// The decoded data with its coding state.
    pub lz: Lz,
    /// How many of the decoded bytes were read.
    pub delivered: nat,
    /// The dictionary size that the header announced.
    pub dictionary_size: u32,
    /// Where the decoding stands.
    pub stage: Stage,
    /// How many bytes had been consumed when the member began.
    pub start: nat,
}

impl MemberState {
    /// The decoded bytes that were not read yet.
    pub open spec fn pending(self) -> Seq<u8> {
        self.lz.data.skip(self.delivered as int)
    }

    /// Number of bytes that can be decoded before some must be read.
    pub open spec fn free_space(self) -> int {
        window_size(self.dictionary_size) - 1 - (self.lz.data.len() - self.delivered)
    }
}

/// What a decoder holds.
#[verifier::ext_equal]
pub struct DecoderState {
    /// The bytes written and not consumed yet.
    pub input: Seq<u8>,
    /// Whether `finish` was called.
    pub at_stream_end: bool,
    /// Number of bytes consumed.
    pub total_in: nat,
    /// The code of the range decoder.
    pub code: u32,
    /// The range of the range decoder.
    pub range: u32,
    /// The member being decoded, if one is.
    pub member: Option<MemberState>,
    /// Size of the data of the members done with; it stops at the largest
    /// 64-bit value.
    pub partial_out: u64,
    /// The version byte of the last header read; 0 before the first.
    pub member_version: u8,
    /// The dictionary size of the last header read; 0 before the first.
    pub dictionary_size: u32,
    /// The latched error.
    pub errno: Errno,
    /// Whether the decoder has failed.
    pub fatal: bool,
    /// Whether no header was read yet.
    pub first_header: bool,
    /// Whether the decoder is looking for the next header.
    pub seeking: bool,
}

/// The sum of two sizes, stopping at the largest 64-bit value.
pub open spec fn sat_add(a: u64, b: int) -> u64 {
    if a + b > u64::MAX {
        u64::MAX
    } else {
        (a + b) as u64
    }
}

/// Whether `input`, shorter than a header, could be the start of one: it is
/// the start of the magic, and if it holds a version, that is the right one.
pub open spec fn is_magic_prefix(input: Seq<u8>) -> bool {
    &&& forall|i: int| 0 <= i < input.len() && i < 4 ==> input[i] == #[trigger] magic()[i]
    &&& input.len() > 4 ==> input[4] == VERSION
}

/// Looks for a header in `input`: yields how many bytes lie before the first
/// place where a valid header stands, or where the start of one stands that
/// the input ends in, and whether a whole header was found.
pub open spec fn seek_header(input: Seq<u8>) -> (nat, bool)
    decreases input.len(),
{
    if input.len() == 0 {
        (0, false)
    } else if input.len() >= HEADER_SIZE && parse_header(input.subrange(0, HEADER_SIZE as int))
        is Ok {
        (0, true)
    } else if input.len() < HEADER_SIZE && input[0] == magic()[0] {
        (0, false)
    } else {
        let r = seek_header(input.skip(1));
        (r.0 + 1, r.1)
    }
}

impl DecoderState {
    /// The state of a decoder that was just opened.
    pub open spec fn init() -> DecoderState {
        DecoderState {
            input: Seq::empty(),
            at_stream_end: false,
            total_in: 0,
            code: 0,
            range: 0xFFFF_FFFF,
            member: None,
            partial_out: 0,
            member_version: 0,
            dictionary_size: 0,
            errno: Errno::NoError,
            fatal: false,
            first_header: true,
            seeking: false,
        }
    }

    /// The decoded bytes that were not read yet.
    pub open spec fn pending(self) -> Seq<u8> {
        match self.member {
            Some(m) => m.pending(),
            None => Seq::empty(),
        }
    }

    /// Number of bytes that can be written now.
    pub open spec fn write_size(self) -> nat {
        if self.fatal || self.at_stream_end {
            0
        } else {
            let room = (RD_BUFFER_SIZE - self.input.len()) as nat;
            let left = (u64::MAX - self.total_in - self.input.len()) as nat;
            if room <= left {
                room
            } else {
                left
            }
        }
    }

    /// The state with the error `e` latched.
    pub open spec fn fail(self, e: Errno) -> DecoderState {
        DecoderState { errno: e, fatal: true, ..self }
    }

    /// While the decoder is looking for a header: the input without what
    /// cannot be part of one.
    pub open spec fn seek(self) -> DecoderState {
        if self.seeking {
            let r = seek_header(self.input);
            DecoderState {
                input: self.input.skip(r.0 as int),
                total_in: self.total_in + r.0,
                seeking: !r.1,
                ..self
            }
        } else {
            self
        }
    }

    /// Writing `data`: as much of it as there is room for joins the input.
    /// Yields the new state and how many bytes were taken. Writing after
    /// `finish` is a sequence error.
    pub open spec fn write(self, data: Seq<u8>) -> (DecoderState, Result<nat, Errno>) {
        if self.fatal {
            (self, Err(self.errno))
        } else if self.at_stream_end {
            (self.fail(Errno::SequenceError), Err(Errno::SequenceError))
        } else {
            let n = if data.len() <= self.write_size() {
                data.len()
            } else {
                self.write_size()
            };
            (
                (DecoderState { input: self.input + data.subrange(0, n as int), ..self }).seek(),
                Ok(n),
            )
        }
    }

    /// Taking back the `n` bytes written last.
    pub open spec fn unwrite(self, n: nat) -> DecoderState {
        DecoderState { input: self.input.take(self.input.len() - n), ..self }
    }

    /// Declaring the input complete. A decoder that was still looking for a
    /// header gives the rest of its input up.
    pub open spec fn finish(self) -> DecoderState {
        if self.fatal {
            self
        } else if self.seeking {
            DecoderState {
                input: Seq::empty(),
                total_in: self.total_in + self.input.len(),
                at_stream_end: true,
                seeking: false,
                ..self
            }
        } else {
            DecoderState { at_stream_end: true, ..self }
        }
    }

    /// Leaving the member and the error behind and looking for the next
    /// header.
    pub open spec fn sync_to_member(self) -> DecoderState {
        let r = seek_header(self.input);
        let skipped = if !r.1 && self.at_stream_end {
            self.input.len()
        } else {
            r.0
        };
        DecoderState {
            input: self.input.skip(skipped as int),
            total_in: self.total_in + skipped,
            member: None,
            partial_out: match self.member {
                Some(m) => sat_add(self.partial_out, m.lz.data.len() as int),
                None => self.partial_out,
            },
            errno: Errno::NoError,
            fatal: false,
            seeking: !r.1 && !self.at_stream_end,
            ..self
        }
    }

    /// A member that is done with, all its data read, leaves.
    pub open spec fn retire(self) -> DecoderState {
        match self.member {
            Some(m) => {
                if m.stage == Stage::Finished && m.delivered == m.lz.data.len() {
                    DecoderState {
                        member: None,
                        partial_out: sat_add(self.partial_out, m.lz.data.len() as int),
                        ..self
                    }
                } else {
                    self
                }
            },
            None => self,
        }
    }

    /// With no member at hand, the next one starts once the input holds its
    /// header and the five bytes that prime the range decoder. A header that
    /// is wrong in any way is a header error, as is a first payload byte
    /// other than 0: the input is rejected as soon as it holds the byte that
    /// is wrong. Input that is complete and ends inside what could be a
    /// header, or before the range decoder is primed, is an unexpected end;
    /// until it is complete, the decoder waits for the rest. Nothing is
    /// consumed on an error. Complete input that ends where a member other
    /// than the first would start is the end of the stream.
    pub open spec fn start(self) -> DecoderState {
        if self.member is Some {
            self
        } else if self.input.len() == 0 && !(self.first_header && self.at_stream_end) {
            self
        } else if self.input.len() < HEADER_SIZE {
            if !is_magic_prefix(self.input) {
                self.fail(Errno::HeaderError)
            } else if self.at_stream_end {
                self.fail(Errno::UnexpectedEof)
            } else {
                self
            }
        } else {
            match parse_header(self.input.subrange(0, HEADER_SIZE as int)) {
                Err(_) => self.fail(Errno::HeaderError),
                Ok(dictionary_size) => {
                    let payload = self.input.skip(HEADER_SIZE as int);
                    if payload.len() >= 1 && payload[0] != 0 {
                        self.fail(Errno::HeaderError)
                    } else if payload.len() < LOAD_SIZE {
                        if self.at_stream_end {
                            self.fail(Errno::UnexpectedEof)
                        } else {
                            self
                        }
                    } else if !rd_loadable(payload) {
                        self.fail(Errno::DataError)
                    } else {
                        DecoderState {
                            input: rd_load(payload).input,
                            total_in: (self.total_in + HEADER_SIZE + LOAD_SIZE) as nat,
                            code: rd_load(payload).code,
                            range: rd_load(payload).range,
                            member: Some(
                                MemberState {
                                    probs: Seq::new(NUM_MODELS as nat, |i: int| BIT_MODEL_INIT),
                                    lz: lz_init(),
                                    delivered: 0,
                                    dictionary_size,
                                    stage: Stage::Decoding,
                                    start: self.total_in,
                                },
                            ),
                            member_version: VERSION,
                            dictionary_size,
                            first_header: false,
                            ..self
                        }
                    }
                },
            }
        }
    }

    /// The payload is decoded as far as the input and the room for data
    /// allow. Input that is complete and ends inside an operation is an
    /// unexpected end; a corrupt payload is a data error.
    pub open spec fn run(self) -> DecoderState {
        match self.member {
            Some(m) => {
                if m.stage == Stage::Decoding {
                    let d = Dec {
                        rd: Rd {
                            code: self.code,
                            range: self.range,
                            input: self.input,
                            starved: false,
                        },
                        probs: m.probs,
                        lz: m.lz,
                    };
                    let r = lzd_run(d, m.dictionary_size, m.free_space());
                    let s = DecoderState {
                        input: r.0.rd.input,
                        total_in: (self.total_in + self.input.len() - r.0.rd.input.len()) as nat,
                        code: r.0.rd.code,
                        range: r.0.rd.range,
                        member: Some(
                            MemberState {
                                probs: r.0.probs,
                                lz: r.0.lz,
                                stage: if r.1 == Outcome::End {
                                    Stage::TrailerPending
                                } else {
                                    Stage::Decoding
                                },
                                ..m
                            },
                        ),
                        ..self
                    };
                    match r.1 {
                        Outcome::NeedSpace => s,
                        Outcome::NeedInput => if self.at_stream_end {
                            s.fail(Errno::UnexpectedEof)
                        } else {
                            s
                        },
                        Outcome::Corrupt => s.fail(Errno::DataError),
                        Outcome::End => s,
                    }
                } else {
                    self
                }
            },
            None => self,
        }
    }

    /// After the marker, the trailer is read once the input holds all of it,
    /// and held against the data and the size of the member. A trailer that
    /// disagrees is a data error; input that is complete and ends inside the
    /// trailer is an unexpected end.
    pub open spec fn trailer(self) -> DecoderState {
        match self.member {
            Some(m) => {
                if self.fatal || m.stage != Stage::TrailerPending {
                    self
                } else if self.input.len() < TRAILER_SIZE {
                    if self.at_stream_end {
                        self.fail(Errno::UnexpectedEof)
                    } else {
                        self
                    }
                } else {
                    let ok = trailer_agrees(
                        parse_trailer(self.input.subrange(0, TRAILER_SIZE as int)),
                        m.lz.data,
                        self.total_in + TRAILER_SIZE - m.start,
                    );
                    let s = DecoderState {
                        input: self.input.skip(TRAILER_SIZE as int),
                        total_in: (self.total_in + TRAILER_SIZE) as nat,
                        member: Some(
                            MemberState {
                                stage: if ok {
                                    Stage::Finished
                                } else {
                                    Stage::TrailerPending
                                },
                                ..m
                            },
                        ),
                        ..self
                    };
                    if ok {
                        s
                    } else {
                        s.fail(Errno::DataError)
                    }
                }
            },
            None => self,
        }
    }

    /// Up to `size` of the pending bytes are read.
    pub open spec fn drain(self, size: nat) -> (DecoderState, Seq<u8>) {
        match self.member {
            Some(m) => {
                let n = if size <= m.pending().len() {
                    size
                } else {
                    m.pending().len()
                };
                (
                    DecoderState {
                        member: Some(MemberState { delivered: m.delivered + n, ..m }),
                        ..self
                    },
                    m.pending().subrange(0, n as int),
                )
            },
            None => (self, Seq::empty()),
        }
    }

    /// Reading up to `size` bytes. A decoder that has failed still hands out
    /// the data decoded before the failure, and fails once that is read. One
    /// that is looking for a header yields nothing. Otherwise a member that is
    /// done with leaves, the next one starts, its payload is decoded and its
    /// trailer read as far as can be, and what was decoded is read.
    pub open spec fn read(self, size: nat) -> (DecoderState, Result<Seq<u8>, Errno>) {
        if self.fatal {
            if self.pending().len() > 0 {
                let r = self.drain(size);
                (r.0, Ok(r.1))
            } else {
                (self, Err(self.errno))
            }
        } else if self.seeking {
            (self, Ok(Seq::empty()))
        } else {
            let s = self.retire().start();
            if s.member is None {
                (
                    s,
                    if s.fatal {
                        Err(s.errno)
                    } else {
                        Ok(Seq::empty())
                    },
                )
            } else {
                let t = s.run().trailer();
                if t.fatal && t.pending().len() == 0 {
                    (t, Err(t.errno))
                } else {
                    let r = t.drain(size);
                    (r.0, Ok(r.1))
                }
            }
        }
    }

    /// Whether all the input was decoded: it is complete and used up, and no
    /// member is unfinished or has data left to read.
    pub open spec fn finished(self) -> bool {
        &&& self.at_stream_end
        &&& self.input.len() == 0
        &&& match self.member {
            Some(m) => m.stage == Stage::Finished && m.pending().len() == 0,
            None => true,
        }
    }

    /// Whether the member at hand is done with and all its data read.
    pub open spec fn member_finished(self) -> bool {
        match self.member {
            Some(m) => m.stage == Stage::Finished && m.pending().len() == 0,
            None => false,
        }
    }

    /// Size of the data decoded so far; it stops at the largest 64-bit value.
    pub open spec fn total_out_size(self) -> u64 {
        match self.member {
            Some(m) => sat_add(self.partial_out, m.lz.data.len() as int),
            None => self.partial_out,
        }
    }
}

/// The streaming decoder.
#[allow(non_camel_case_types)]
pub struct LZ_Decoder {
    rdec: RangeDecoder,
    lz_decoder: Option<LZ_decoder>,
    member_start: u64,
    partial_out_size: u64,
    member_version: u8,
    dictionary_size: u32,
    lz_errno: Errno,
    fatal: bool,
    first_header: bool,
    seeking: bool,
}

impl View for LZ_Decoder {
    type V = DecoderState;

    closed spec fn view(&self) -> DecoderState {
        DecoderState {
            input: self.rdec@.input,
            at_stream_end: self.rdec.at_stream_end(),
            total_in: self.rdec.position(),
            code: self.rdec@.code,
            range: self.rdec@.range,
            member: match self.lz_decoder {
                Some(d) => Some(
                    MemberState {
                        probs: d.probs(),
                        lz: d.lz(),
                        delivered: d.delivered(),
                        dictionary_size: d.dictionary_size(),
                        stage: d.stage(),
                        start: self.member_start as nat,
                    },
                ),
                None => None,
            },
            partial_out: self.partial_out_size,
            member_version: self.member_version,
            dictionary_size: self.dictionary_size,
            errno: self.lz_errno,
            fatal: self.fatal,
            first_header: self.first_header,
            seeking: self.seeking,
        }
    }
}

impl LZ_Decoder {
    /// The parts are well-formed, and nothing read is left undecided.
    pub closed spec fn wf(&self) -> bool {
        &&& self.rdec.wf()
        &&& self.rdec.settled()
        &&& self.rdec.capacity() == RD_BUFFER_SIZE
        &&& match self.lz_decoder {
            Some(d) => d.wf() && self.member_start <= self.rdec.position() && !self.seeking,
            None => true,
        }
    }

    /// A decoder with nothing written to it.
    pub fn open() -> (d: LZ_Decoder)
        ensures
            d.wf(),
            d@ == DecoderState::init(),
    {
        let mut rdec = RangeDecoder::new();
        rdec.checkpoint();
        LZ_Decoder {
            rdec,
            lz_decoder: None,
            member_start: 0,
            partial_out_size: 0,
            member_version: 0,
            dictionary_size: 0,
            lz_errno: Errno::NoError,
            fatal: false,
            first_header: true,
            seeking: false,
        }
    }

    /// Forgets everything, as if the decoder had just been opened.
    pub fn reset(&mut self)
        requires
            old(self).wf(),
        ensures
            final(self).wf(),
            final(self)@ == DecoderState::init(),
    {
        self.rdec.reset();
        self.rdec.checkpoint();
        self.lz_decoder = None;
        self.member_start = 0;
        self.partial_out_size = 0;
        self.member_version = 0;
        self.dictionary_size = 0;
        self.lz_errno = Errno::NoError;
        self.fatal = false;
        self.first_header = true;
        self.seeking = false;
    }

    /// The latched error.
    pub fn errno(&self) -> (e: Errno)
        ensures
            e == self@.errno,
    {
        self.lz_errno
    }

    /// Number of bytes that can be written now.
    pub fn write_size(&self) -> (n: usize)
        requires
            self.wf(),
        ensures
            n == self@.write_size(),
    {
        proof {
            self.rdec.lemma_wf();
        }
        if self.fatal || self.rdec.is_at_stream_end() {
            0
        } else {
            self.rdec.free_bytes()
        }
    }

    /// Whether all the input was decoded.
    pub fn finished(&self) -> (b: bool)
        requires
            self.wf(),
        ensures
            b == self@.finished(),
    {
        let done: bool = match &self.lz_decoder {
            Some(d) => d.member_finished(),
            None => true,
        };
        self.rdec.finished() && done
    }

    /// Whether the member at hand is done with and all its data read.
    pub fn member_finished(&self) -> (b: bool)
        requires
            self.wf(),
        ensures
            b == self@.member_finished(),
    {
        match &self.lz_decoder {
            Some(d) => d.member_finished(),
            None => false,
        }
    }

    /// The version byte of the last header read; 0 before the first.
    pub fn member_version(&self) -> (v: u8)
        ensures
            v == self@.member_version,
    {
        self.member_version
    }

    /// The dictionary size of the last header read; 0 before the first.
    pub fn dictionary_size(&self) -> (d: u32)
        ensures
            d == self@.dictionary_size,
    {
        self.dictionary_size
    }

    /// The CRC-32 of the data decoded so far of the member at hand; 0 if
    /// there is none.
    pub fn data_crc(&self) -> (c: u32)
        requires
            self.wf(),
        ensures
            c == match self@.member {
                Some(m) => crc32(m.lz.data),
                None => 0,
            },
    {
        match &self.lz_decoder {
            Some(d) => d.data_crc(),
            None => 0,
        }
    }

    /// Size of the data decoded so far of the member at hand.
    pub fn data_position(&self) -> (n: u64)
        requires
            self.wf(),
        ensures
            n == match self@.member {
                Some(m) => m.lz.data.len(),
                None => 0,
            },
    {
        match &self.lz_decoder {
            Some(d) => d.data_position(),
            None => 0,
        }
    }

    /// Number of bytes consumed so far of the member at hand.
    pub fn member_position(&self) -> (n: u64)
        requires
            self.wf(),
        ensures
            n == match self@.member {
                Some(m) => self@.total_in - m.start,
                None => 0,
            },
    {
        match &self.lz_decoder {
            Some(d) => self.rdec.consumed_bytes() - self.member_start,
            None => 0,
        }
    }

    /// Number of bytes consumed so far.
    pub fn total_in_size(&self) -> (n: u64)
        requires
            self.wf(),
        ensures
            n == self@.total_in,
    {
        self.rdec.consumed_bytes()
    }

    /// Size of the data decoded so far.
    pub fn total_out_size(&self) -> (n: u64)
        requires
            self.wf(),
        ensures
            n == self@.total_out_size(),
    {
        match &self.lz_decoder {
            Some(d) => self.partial_out_size.saturating_add(d.data_position()),
            None => self.partial_out_size,
        }
    }

    /// Latches an error.
    fn fail(&mut self, e: Errno)
        requires
            old(self).wf(),
        ensures
            final(self).wf(),
            final(self)@ == old(self)@.fail(e),
    {
        self.lz_errno = e;
        self.fatal = true;
    }

    /// Looks for a header, and consumes what lies before it.
    fn find_header(&mut self) -> (found: bool)
        requires
            old(self).wf(),
            old(self).lz_decoder is None,
        ensures
            final(self).wf(),
            final(self).lz_decoder is None,
            seek_header(old(self)@.input).0 <= old(self)@.input.len(),
            found == seek_header(old(self)@.input).1,
            final(self)@ == (DecoderState {
                input: old(self)@.input.skip(seek_header(old(self)@.input).0 as int),
                total_in: old(self)@.total_in + seek_header(old(self)@.input).0,
                ..old(self)@
            }),
    {
        let mut found: bool = false;
        let mut stop: bool = false;
        let ghost mut skipped: nat = 0;
        proof {
            assert(self@.input.skip(0) =~= self@.input);
            assert(magic()[0] == 0x4C);
        }
        while !stop
            invariant
                self.wf(),
                self.lz_decoder is None,
                self@ == (DecoderState {
                    input: old(self)@.input.skip(skipped as int),
                    total_in: old(self)@.total_in + skipped,
                    ..old(self)@
                }),
                skipped <= old(self)@.input.len(),
                seek_header(old(self)@.input) == (
                    seek_header(self@.input).0 + skipped,
                    seek_header(self@.input).1,
                ),
                stop ==> seek_header(self@.input) == (0nat, found),
                !stop ==> !found,
                magic()[0] == 0x4C,
            decreases self@.input.len() + if stop { 0int } else { 1int },
        {
            let avail: usize = self.rdec.available_bytes();
            if avail == 0 {
                stop = true;
            } else if avail >= HEADER_SIZE && self.header_here() {
                found = true;
                stop = true;
            } else if avail < HEADER_SIZE && self.rdec.peek(0) == 0x4C {
                stop = true;
            } else {
                proof {
                    assert(self@.input.skip(1) =~= old(self)@.input.skip(skipped as int + 1));
                    skipped = skipped + 1;
                }
                self.rdec.skip(1);
                self.rdec.checkpoint();
            }
        }
        found
    }

    /// Whether a valid header stands at the front of the input.
    fn header_here(&self) -> (b: bool)
        requires
            self.wf(),
            self@.input.len() >= HEADER_SIZE,
        ensures
            b == (parse_header(self@.input.subrange(0, HEADER_SIZE as int)) is Ok),
    {
        let h: [u8; 6] = [
            self.rdec.peek(0),
            self.rdec.peek(1),
            self.rdec.peek(2),
            self.rdec.peek(3),
            self.rdec.peek(4),
            self.rdec.peek(5),
        ];
        assert(h@ =~= self@.input.subrange(0, HEADER_SIZE as int));
        read_header(&h).is_ok()
    }

    /// Writes as much of `buffer` as there is room for, and returns how many
    /// bytes were taken.
    pub fn write(&mut self, buffer: &[u8]) -> (r: Result<usize, Errno>)
        requires
            old(self).wf(),
        ensures
            final(self).wf(),
            final(self)@ == old(self)@.write(buffer@).0,
            match r {
                Ok(n) => old(self)@.write(buffer@).1 == Ok::<nat, Errno>(n as nat),
                Err(e) => old(self)@.write(buffer@).1 == Err::<nat, Errno>(e),
            },
    {
        if self.fatal {
            return Err(self.lz_errno);
        }
        if self.rdec.is_at_stream_end() {
            self.fail(Errno::SequenceError);
            return Err(Errno::SequenceError);
        }
        proof {
            self.rdec.lemma_wf();
        }
        let n: usize = self.rdec.write_data(buffer, 0);
        self.rdec.checkpoint();
        assert(buffer@.subrange(0, 0 + n) =~= buffer@.subrange(0, n as int));
        if self.seeking {
            let found: bool = self.find_header();
            self.seeking = !found;
        }
        Ok(n)
    }

    /// Number of bytes written and not consumed yet.
    pub fn unread_size(&self) -> (n: usize)
        requires
            self.wf(),
        ensures
            n == self@.input.len(),
    {
        self.rdec.available_bytes()
    }

    /// Takes back the `size` bytes written last, none of which was consumed,
    /// as if they had not been written.
    pub fn unwrite(&mut self, size: usize)
        requires
            old(self).wf(),
            size <= old(self)@.input.len(),
        ensures
            final(self).wf(),
            final(self)@ == old(self)@.unwrite(size as nat),
    {
        self.rdec.unwrite(size);
    }

    /// Declares the input complete.
    pub fn finish(&mut self)
        requires
            old(self).wf(),
        ensures
            final(self).wf(),
            final(self)@ == old(self)@.finish(),
    {
        if self.fatal {
            return ;
        }
        if self.seeking {
            let avail: usize = self.rdec.available_bytes();
            self.rdec.skip(avail);
            self.rdec.checkpoint();
            self.seeking = false;
            assert(self@.input =~= Seq::<u8>::empty());
        }
        self.rdec.finish();
    }

    /// Leaves the member and the error behind and looks for the next header.
    pub fn sync_to_member(&mut self)
        requires
            old(self).wf(),
        ensures
            final(self).wf(),
            final(self)@ == old(self)@.sync_to_member(),
    {
        match self.lz_decoder.take() {
            Some(d) => {
                self.partial_out_size = self.partial_out_size.saturating_add(d.data_position());
            },
            None => {},
        }
        self.seeking = false;
        let found: bool = self.find_header();
        if !found && self.rdec.is_at_stream_end() {
            let avail: usize = self.rdec.available_bytes();
            self.rdec.skip(avail);
            self.rdec.checkpoint();
            proof {
                let r = seek_header(old(self)@.input);
                assert(old(self)@.input.skip(r.0 as int).skip(avail as int) =~= old(self)@.input.skip(
                    old(self)@.input.len() as int,
                ));
            }
        }
        self.seeking = !found && !self.rdec.is_at_stream_end();
        self.lz_errno = Errno::NoError;
        self.fatal = false;
    }

    /// Lets a member that is done with leave.
    fn retire(&mut self)
        requires
            old(self).wf(),
        ensures
            final(self).wf(),
            final(self)@ == old(self)@.retire(),
    {
        let done: bool = match &self.lz_decoder {
            Some(d) => {
                proof {
                    d.lemma_wf();
                }
                d.member_finished()
            },
            None => false,
        };
        if done {
            match self.lz_decoder.take() {
                Some(d) => {
                    self.partial_out_size = self.partial_out_size.saturating_add(
                        d.data_position(),
                    );
                },
                None => {},
            }
        }
    }

    /// Whether the input, shorter than a header, could be the start of one.
    fn magic_prefix(&self) -> (b: bool)
        requires
            self.wf(),
            self@.input.len() < HEADER_SIZE,
        ensures
            b == is_magic_prefix(self@.input),
    {
        let avail: usize = self.rdec.available_bytes();
        let m: [u8; 4] = [0x4C, 0x5A, 0x49, 0x50];
        assert(m@ =~= magic());
        let mut i: usize = 0;
        while i < avail && i < 4
            invariant
                self.wf(),
                avail == self@.input.len(),
                i <= 4,
                i <= avail,
                m@ == magic(),
                forall|j: int| 0 <= j < i ==> self@.input[j] == #[trigger] magic()[j],
            decreases 4 - i,
        {
            if self.rdec.peek(i) != m[i] {
                assert(self@.input[i as int] != magic()[i as int]);
                return false;
            }
            i = i + 1;
        }
        avail <= 4 || self.rdec.peek(4) == VERSION
    }

    /// Starts the next member, if there is none at hand and the input allows.
    fn start(&mut self)
        requires
            old(self).wf(),
            !old(self)@.seeking,
        ensures
            final(self).wf(),
            final(self)@ == old(self)@.start(),
    {
        if self.lz_decoder.is_some() {
            return ;
        }
        let avail: usize = self.rdec.available_bytes();
        let at_end: bool = self.rdec.is_at_stream_end();
        if avail == 0 && !(self.first_header && at_end) {
            return ;
        }
        if avail < HEADER_SIZE {
            if !self.magic_prefix() {
                self.fail(Errno::HeaderError);
            } else if at_end {
                self.fail(Errno::UnexpectedEof);
            }
            return ;
        }
        let h: [u8; 6] = [
            self.rdec.peek(0),
            self.rdec.peek(1),
            self.rdec.peek(2),
            self.rdec.peek(3),
            self.rdec.peek(4),
            self.rdec.peek(5),
        ];
        assert(h@ =~= self@.input.subrange(0, HEADER_SIZE as int));
        match read_header(&h) {
            Err(_) => {
                self.fail(Errno::HeaderError);
            },
            Ok(dictionary_size) => {
                if avail > HEADER_SIZE && self.rdec.peek(HEADER_SIZE) != 0 {
                    self.fail(Errno::HeaderError);
                } else if avail < HEADER_SIZE + LOAD_SIZE {
                    if at_end {
                        self.fail(Errno::UnexpectedEof);
                    }
                } else {
                    let start: u64 = self.rdec.consumed_bytes();
                    self.rdec.skip(HEADER_SIZE);
                    let ok: bool = self.rdec.load();
                    if !ok {
                        let mut none: Vec<u32> = Vec::new();
                        self.rdec.rollback(&mut none);
                        self.fail(Errno::DataError);
                    } else {
                        self.rdec.checkpoint();
                        self.member_start = start;
                        self.lz_decoder = Some(LZ_decoder::new(dictionary_size));
                        self.member_version = VERSION;
                        self.dictionary_size = dictionary_size;
                        self.first_header = false;
                    }
                }
            },
        }
    }

    /// Decodes the payload as far as can be.
    fn run(&mut self)
        requires
            old(self).wf(),
        ensures
            final(self).wf(),
            final(self)@ == old(self)@.run(),
    {
        match self.lz_decoder.take() {
            Some(mut d) => {
                if d.get_stage() == Stage::Decoding {
                    proof {
                        self.rdec.lemma_wf();
                    }
                    let outcome: Outcome = d.decode_member(&mut self.rdec);
                    proof {
                        self.rdec.lemma_wf();
                    }
                    self.lz_decoder = Some(d);
                    match outcome {
                        Outcome::NeedSpace => {},
                        Outcome::NeedInput => {
                            if self.rdec.is_at_stream_end() {
                                self.fail(Errno::UnexpectedEof);
                            }
                        },
                        Outcome::Corrupt => {
                            self.fail(Errno::DataError);
                        },
                        Outcome::End => {},
                    }
                } else {
                    self.lz_decoder = Some(d);
                }
            },
            None => {},
        }
    }

    /// Reads the trailer, if it is due and all there.
    fn trailer(&mut self)
        requires
            old(self).wf(),
        ensures
            final(self).wf(),
            final(self)@ == old(self)@.trailer(),
    {
        if self.fatal {
            return ;
        }
        match self.lz_decoder.take() {
            Some(mut d) => {
                if d.get_stage() == Stage::TrailerPending {
                    let r: Option<bool> = d.verify_trailer(&mut self.rdec, self.member_start);
                    self.lz_decoder = Some(d);
                    match r {
                        None => {
                            if self.rdec.is_at_stream_end() {
                                self.fail(Errno::UnexpectedEof);
                            }
                        },
                        Some(ok) => {
                            if !ok {
                                self.fail(Errno::DataError);
                            }
                        },
                    }
                } else {
                    self.lz_decoder = Some(d);
                }
            },
            None => {},
        }
    }

    /// Number of decoded bytes that were not read yet.
    fn pending_bytes(&self) -> (n: usize)
        requires
            self.wf(),
        ensures
            n == self@.pending().len(),
    {
        match &self.lz_decoder {
            Some(d) => d.used_bytes(),
            None => 0,
        }
    }

    /// Moves pending bytes into the front of `buffer`.
    fn drain(&mut self, buffer: &mut [u8]) -> (n: usize)
        requires
            old(self).wf(),
        ensures
            final(self).wf(),
            final(self)@ == old(self)@.drain(old(buffer)@.len()).0,
            final(buffer)@.len() == old(buffer)@.len(),
            final(buffer)@.subrange(0, n as int) == old(self)@.drain(old(buffer)@.len()).1,
            n == old(self)@.drain(old(buffer)@.len()).1.len(),
            final(buffer)@.subrange(n as int, old(buffer)@.len() as int) == old(buffer)@.subrange(
                n as int,
                old(buffer)@.len() as int,
            ),
    {
        match self.lz_decoder.take() {
            Some(mut d) => {
                let n: usize = d.read_data(buffer);
                self.lz_decoder = Some(d);
                n
            },
            None => {
                assert(buffer@.subrange(0, 0) =~= Seq::<u8>::empty());
                0
            },
        }
    }

    /// Reads decoded data into the front of `buffer`, and returns how many
    /// bytes were read; the rest of `buffer` is left as it was.
    pub fn read(&mut self, buffer: &mut [u8]) -> (r: Result<usize, Errno>)
        requires
            old(self).wf(),
        ensures
            final(self).wf(),
            final(self)@ == old(self)@.read(old(buffer)@.len()).0,
            final(buffer)@.len() == old(buffer)@.len(),
            match r {
                Ok(n) => {
                    &&& n <= old(buffer)@.len()
                    &&& old(self)@.read(old(buffer)@.len()).1 == Ok::<Seq<u8>, Errno>(
                        final(buffer)@.subrange(0, n as int),
                    )
                    &&& final(buffer)@.subrange(n as int, old(buffer)@.len() as int) == old(
                        buffer,
                    )@.subrange(n as int, old(buffer)@.len() as int)
                },
                Err(e) => {
                    &&& old(self)@.read(old(buffer)@.len()).1 == Err::<Seq<u8>, Errno>(e)
                    &&& final(buffer)@ == old(buffer)@
                },
            },
    {
        if self.fatal {
            if self.pending_bytes() > 0 {
                let n: usize = self.drain(buffer);
                return Ok(n);
            }
            return Err(self.lz_errno);
        }
        if self.seeking {
            assert(buffer@.subrange(0, 0) =~= Seq::<u8>::empty());
            return Ok(0);
        }
        self.retire();
        self.start();
        if self.lz_decoder.is_none() {
            if self.fatal {
                return Err(self.lz_errno);
            }
            assert(buffer@.subrange(0, 0) =~= Seq::<u8>::empty());
            return Ok(0);
        }
        self.run();
        self.trailer();
        if self.fatal && self.pending_bytes() == 0 {
            return Err(self.lz_errno);
        }
        let n: usize = self.drain(buffer);
        Ok(n)
    }
}

} // verus!
