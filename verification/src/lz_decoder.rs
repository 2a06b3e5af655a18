//! Decoding of the payload of one member: operations are decoded one after
//! another into the sliding window until the marker, then the trailer is
//! held against what was decoded.

use vstd::prelude::*;
use crate::bit_model::{valid_probs, new_probs, BIT_MODEL_INIT};
use crate::crc::crc32;
use crate::header::{Trailer, parse_trailer, read_trailer, TRAILER_SIZE};
use crate::lzma::{
    Op,
    Context,
    Lz,
    Reps,
    lz_init,
    lz_copy,
    lemma_apply,
    next_state,
    NUM_MODELS,
    MIN_MATCH_LEN,
    MAX_MATCH_LEN,
    MARKER_DISTANCE,
    MIN_DICTIONARY_SIZE,
    MAX_DICTIONARY_SIZE,
};
use crate::op_decoder::{rd_op, decode_op};
use crate::range_decoder::{Rd, RangeDecoder, rd_normalize, undo_journal};
use crate::window::{Window, window_size};

verus! {

/// Where the decoding of a member stands.
#[derive(Clone, Copy, Debug, PartialEq, Eq, Structural)]
pub enum Stage {
    /// Operations are being decoded.
    Decoding,
    /// The marker was decoded; the trailer is to be read.
    TrailerPending,
    /// The trailer was read and agreed with the data.
    Finished,
}

/// The state of the decoding of a payload: the range decoder, the
/// probabilities, and the decoded data with its coding state.
pub struct Dec {
    pub rd: Rd,
    pub probs: Seq<u32>,
    pub lz: Lz,
}

impl Dec {
    /// Every part is well-formed, and no byte is missing.
    pub open spec fn wf(self, dictionary_size: u32) -> bool {
        &&& self.rd.wf()
        &&& !self.rd.starved
        &&& valid_probs(self.probs)
        &&& self.probs.len() == NUM_MODELS
        &&& self.lz.wf(dictionary_size)
    }
}

/// What one step of decoding comes to.
pub enum Step {
    /// The input ran out inside the operation; nothing was decoded.
    Starved,
    /// The code left the range, the operation copies from where there is no
    /// data, or it is a marker of an unknown kind.
    Corrupt,
    /// The marker that ends the payload was decoded.
    End(Dec),
    /// An operation was decoded and applied.
    Next(Dec, Op),
}

/// Decodes one operation and applies it.
pub open spec fn lzd_step(d: Dec, dictionary_size: u32) -> Step {
    let r = rd_op(d.rd, d.probs, d.lz.context());
    if r.0.starved {
        Step::Starved
    } else {
        match r.2 {
            None => Step::Corrupt,
            Some(op) => {
                if op.is_marker() {
                    let n = rd_normalize(r.0);
                    if n.starved {
                        Step::Starved
                    } else if op->Match_len == MIN_MATCH_LEN {
                        Step::End(Dec { rd: n, probs: r.1, lz: d.lz })
                    } else {
                        Step::Corrupt
                    }
                } else if d.lz.admits(op, dictionary_size) {
                    Step::Next(Dec { rd: r.0, probs: r.1, lz: d.lz.apply(op) }, op)
                } else {
                    Step::Corrupt
                }
            },
        }
    }
}

/// Why a run of decoding stopped.
#[derive(Clone, Copy, Debug, PartialEq, Eq, Structural)]
pub enum Outcome {
    /// The window may not have room for another operation.
    NeedSpace,
    /// The input ran out inside an operation.
    NeedInput,
    /// The payload is corrupt.
    Corrupt,
    /// The marker that ends the payload was decoded.
    End,
}

/// Decodes operations for as long as the window, which has room for `free`
/// bytes, is sure to have room for the longest match. Yields the state that
/// is reached and why decoding stopped there. A payload whose data would not
/// fit the 64 bits of the trailer's size is corrupt.
pub open spec fn lzd_run(d: Dec, dictionary_size: u32, free: int) -> (Dec, Outcome)
    decreases free,
{
    if free < MAX_MATCH_LEN {
        (d, Outcome::NeedSpace)
    } else if d.lz.data.len() + MAX_MATCH_LEN > u64::MAX {
        (d, Outcome::Corrupt)
    } else {
        match lzd_step(d, dictionary_size) {
            Step::Starved => (d, Outcome::NeedInput),
            Step::Corrupt => (d, Outcome::Corrupt),
            Step::End(e) => (e, Outcome::End),
            Step::Next(n, op) => {
                if op.out_len() >= 1 {
                    lzd_run(n, dictionary_size, free - op.out_len())
                } else {
                    (d, Outcome::Corrupt)
                }
            },
        }
    }
}

/// Whether a trailer agrees with the data of its member and with the
/// member's size.
pub open spec fn trailer_agrees(t: Trailer, data: Seq<u8>, member_size: int) -> bool {
    &&& t.data_crc == crc32(data)
    &&& t.data_size == data.len()
    &&& t.member_size == member_size
}

/// The decoder of one member's payload.
#[allow(non_camel_case_types)]
pub struct LZ_decoder {
    window: Window,
    probs: Vec<u32>,
    state: u32,
    reps: Reps,
    stage: Stage,
}

impl LZ_decoder {
    /// The decoded data with its coding state.
    pub closed spec fn lz(&self) -> Lz {
        Lz { state: self.state, reps: self.reps, data: self.window.data() }
    }

    /// The probabilities.
    pub closed spec fn probs(&self) -> Seq<u32> {
        self.probs@
    }

    /// How many of the decoded bytes the reader has taken.
    pub closed spec fn delivered(&self) -> nat {
        self.window.delivered()
    }

    /// The dictionary size of the member.
    pub closed spec fn dictionary_size(&self) -> u32 {
        self.window.dictionary_size()
    }

    /// Where the decoding stands.
    pub closed spec fn stage(&self) -> Stage {
        self.stage
    }

    /// Number of bytes that can be decoded before the reader must take some.
    pub open spec fn free_space(&self) -> int {
        window_size(self.dictionary_size()) - 1 - (self.lz().data.len() - self.delivered())
    }

    /// The decoded bytes that the reader has not taken.
    pub open spec fn pending(&self) -> Seq<u8> {
        self.lz().data.skip(self.delivered() as int)
    }

    /// The state of the decoding, with the range decoder's.
    pub open spec fn dec(&self, rd: Rd) -> Dec {
        Dec { rd, probs: self.probs(), lz: self.lz() }
    }

    /// The window, the probabilities and the coding state are well-formed.
    pub closed spec fn wf(&self) -> bool {
        &&& self.window.wf()
        &&& valid_probs(self.probs@)
        &&& self.probs@.len() == NUM_MODELS
        &&& self.lz().wf(self.window.dictionary_size())
    }

    /// The invariant, in terms a caller can use.
    pub proof fn lemma_wf(&self)
        requires
            self.wf(),
        ensures
            valid_probs(self.probs()),
            self.probs().len() == NUM_MODELS,
            self.lz().wf(self.dictionary_size()),
            self.delivered() <= self.lz().data.len() <= u64::MAX,
            MIN_DICTIONARY_SIZE <= self.dictionary_size() <= MAX_DICTIONARY_SIZE,
            self.free_space() >= 0,
    {
        self.window.lemma_wf();
    }

    /// A decoder at the start of a payload.
    pub fn new(dictionary_size: u32) -> (d: LZ_decoder)
        requires
            MIN_DICTIONARY_SIZE <= dictionary_size <= MAX_DICTIONARY_SIZE,
        ensures
            d.wf(),
            d.lz() == lz_init(),
            d.probs() == Seq::new(NUM_MODELS as nat, |i: int| BIT_MODEL_INIT),
            d.delivered() == 0,
            d.dictionary_size() == dictionary_size,
            d.stage() == Stage::Decoding,
    {
        let d = LZ_decoder {
            window: Window::new(dictionary_size),
            probs: new_probs(NUM_MODELS),
            state: 0,
            reps: Reps { rep0: 0, rep1: 0, rep2: 0, rep3: 0 },
            stage: Stage::Decoding,
        };
        assert(d.probs@ =~= Seq::new(NUM_MODELS as nat, |i: int| BIT_MODEL_INIT));
        d
    }

    /// Where the decoding stands.
    pub fn get_stage(&self) -> (s: Stage)
        ensures
            s == self.stage(),
    {
        self.stage
    }

    /// The dictionary size of the member.
    pub fn get_dictionary_size(&self) -> (d: u32)
        ensures
            d == self.dictionary_size(),
    {
        self.window.get_dictionary_size()
    }

    /// Number of bytes decoded so far.
    pub fn data_position(&self) -> (n: u64)
        requires
            self.wf(),
        ensures
            n == self.lz().data.len(),
    {
        self.window.data_position()
    }

    /// The CRC-32 of the bytes decoded so far.
    pub fn data_crc(&self) -> (c: u32)
        requires
            self.wf(),
        ensures
            c == crc32(self.lz().data),
    {
        self.window.data_crc()
    }

    /// Number of decoded bytes that the reader has not taken.
    pub fn used_bytes(&self) -> (n: usize)
        requires
            self.wf(),
        ensures
            n == self.pending().len(),
    {
        proof {
            self.window.lemma_wf();
        }
        self.window.used_bytes()
    }

    /// Whether the trailer was read and all the data taken.
    pub fn member_finished(&self) -> (b: bool)
        requires
            self.wf(),
        ensures
            b == (self.stage() == Stage::Finished && self.pending().len() == 0),
    {
        self.stage == Stage::Finished && self.used_bytes() == 0
    }

    /// Moves as many of the pending bytes as fit into the front of `out`, and
    /// returns how many were moved.
    pub fn read_data(&mut self, out: &mut [u8]) -> (n: usize)
        requires
            old(self).wf(),
        ensures
            final(self).wf(),
            final(self).lz() == old(self).lz(),
            final(self).probs() == old(self).probs(),
            final(self).dictionary_size() == old(self).dictionary_size(),
            final(self).stage() == old(self).stage(),
            n == if old(out)@.len() <= old(self).pending().len() {
                old(out)@.len()
            } else {
                old(self).pending().len()
            },
            final(self).delivered() == old(self).delivered() + n,
            final(self).free_space() == old(self).free_space() + n,
            final(out)@.len() == old(out)@.len(),
            final(out)@.subrange(0, n as int) == old(self).pending().subrange(0, n as int),
            final(out)@.subrange(n as int, old(out)@.len() as int) == old(out)@.subrange(
                n as int,
                old(out)@.len() as int,
            ),
    {
        self.window.read_data(out)
    }

    /// Moves all the pending bytes to the end of `out`.
    pub fn drain_to(&mut self, out: &mut Vec<u8>)
        requires
            old(self).wf(),
        ensures
            final(self).wf(),
            final(self).lz() == old(self).lz(),
            final(self).probs() == old(self).probs(),
            final(self).dictionary_size() == old(self).dictionary_size(),
            final(self).stage() == old(self).stage(),
            final(self).delivered() == final(self).lz().data.len(),
            final(out)@ == old(out)@ + old(self).pending(),
    {
        self.window.drain_to(out);
    }

    /// What selects the models of the next operation.
    fn context(&self) -> (ctx: Context)
        requires
            self.wf(),
        ensures
            ctx == self.lz().context(),
            ctx.wf(),
    {
        let pos: u64 = self.window.data_position();
        Context {
            state: self.state,
            pos_state: (pos % 4) as u32,
            prev_byte: self.window.prev_byte(),
            match_byte: if self.state >= 7 {
                self.window.peek(self.reps.rep0)
            } else {
                0
            },
        }
    }

    /// Whether `op` can follow.
    fn admits(&self, op: Op) -> (b: bool)
        requires
            self.wf(),
            op.wf(),
        ensures
            b == self.lz().admits(op, self.dictionary_size()),
    {
        let pos: u64 = self.window.data_position();
        let dict: u32 = self.window.get_dictionary_size();
        match op {
            Op::Literal { byte } => true,
            Op::ShortRep => (self.reps.rep0 as u64) < pos && self.reps.rep0 < dict,
            Op::Rep { index, len } => {
                let d: u32 = if index == 0 {
                    self.reps.rep0
                } else if index == 1 {
                    self.reps.rep1
                } else if index == 2 {
                    self.reps.rep2
                } else {
                    self.reps.rep3
                };
                (d as u64) < pos && d < dict
            },
            Op::Match { dis, len } => (dis as u64) < pos && dis < dict,
        }
    }

    /// Decodes the bytes of `op` into the window.
    fn apply(&mut self, op: Op)
        requires
            old(self).wf(),
            old(self).lz().admits(op, old(self).dictionary_size()),
            old(self).free_space() >= MAX_MATCH_LEN,
            old(self).lz().data.len() + MAX_MATCH_LEN <= u64::MAX,
        ensures
            final(self).wf(),
            final(self).lz() == old(self).lz().apply(op),
            final(self).probs() == old(self).probs(),
            final(self).delivered() == old(self).delivered(),
            final(self).dictionary_size() == old(self).dictionary_size(),
            final(self).stage() == old(self).stage(),
            final(self).free_space() == old(self).free_space() - op.out_len(),
    {
        proof {
            lemma_apply(self.lz(), op, self.dictionary_size());
            self.window.lemma_wf();
        }
        let r: Reps = self.reps;
        match op {
            Op::Literal { byte } => {
                self.window.put_byte(byte);
            },
            Op::ShortRep => {
                let b: u8 = self.window.peek(r.rep0);
                self.window.put_byte(b);
                assert(lz_copy(old(self).lz().data, r.rep0 as int, 1) == lz_copy(
                    old(self).lz().data.push(b),
                    r.rep0 as int,
                    0,
                ));
            },
            Op::Rep { index, len } => {
                if index == 1 {
                    self.reps = Reps { rep0: r.rep1, rep1: r.rep0, rep2: r.rep2, rep3: r.rep3 };
                } else if index == 2 {
                    self.reps = Reps { rep0: r.rep2, rep1: r.rep0, rep2: r.rep1, rep3: r.rep3 };
                } else if index != 0 {
                    self.reps = Reps { rep0: r.rep3, rep1: r.rep0, rep2: r.rep1, rep3: r.rep2 };
                }
                self.window.copy_block(self.reps.rep0, len);
            },
            Op::Match { dis, len } => {
                self.reps = Reps { rep0: dis, rep1: r.rep0, rep2: r.rep1, rep3: r.rep2 };
                self.window.copy_block(dis, len);
            },
        }
        self.state = next_state(self.state, op);
    }

    /// Decodes operations into the window until it may lack room for the
    /// next, the input runs out, the payload proves corrupt or the marker is
    /// reached. Whatever was read of an operation that could not be decoded
    /// is left in the input.
    pub fn decode_member(&mut self, rdec: &mut RangeDecoder) -> (outcome: Outcome)
        requires
            old(self).wf(),
            old(self).stage() == Stage::Decoding,
            old(rdec).wf(),
            !old(rdec)@.starved,
        ensures
            final(self).wf(),
            final(rdec).wf(),
            (final(self).dec(final(rdec)@), outcome) == lzd_run(
                old(self).dec(old(rdec)@),
                old(self).dictionary_size(),
                old(self).free_space(),
            ),
            final(rdec).settled(),
            final(rdec).fed() == old(rdec).fed(),
            final(rdec).capacity() == old(rdec).capacity(),
            final(rdec).position() >= old(rdec).position(),
            final(rdec).at_stream_end() == old(rdec).at_stream_end(),
            final(self).delivered() == old(self).delivered(),
            final(self).dictionary_size() == old(self).dictionary_size(),
            final(self).stage() == if outcome == Outcome::End {
                Stage::TrailerPending
            } else {
                Stage::Decoding
            },
    {
        let ghost dict = self.dictionary_size();
        loop
            invariant
                self.wf(),
                self.stage() == Stage::Decoding,
                rdec.wf(),
                !rdec@.starved,
                rdec.fed() == old(rdec).fed(),
                rdec.at_stream_end() == old(rdec).at_stream_end(),
                rdec.capacity() == old(rdec).capacity(),
                rdec.position() + rdec.pending() >= old(rdec).position(),
                self.delivered() == old(self).delivered(),
                self.dictionary_size() == dict,
                dict == old(self).dictionary_size(),
                lzd_run(self.dec(rdec@), dict, self.free_space()) == lzd_run(
                    old(self).dec(old(rdec)@),
                    dict,
                    old(self).free_space(),
                ),
            decreases self.free_space(),
        {
            rdec.checkpoint();
            let free: usize = self.window.free_bytes();
            if free < MAX_MATCH_LEN as usize {
                return Outcome::NeedSpace;
            }
            if self.window.data_position() > u64::MAX - MAX_MATCH_LEN as u64 {
                return Outcome::Corrupt;
            }
            let ctx: Context = self.context();
            let ghost before = self.dec(rdec@);
            let ghost probs0 = self.probs@;
            assert(undo_journal(probs0, rdec.journal()) == probs0);
            let r: Option<Op> = decode_op(rdec, &mut self.probs, ctx);
            if rdec.is_starved() {
                rdec.rollback(&mut self.probs);
                return Outcome::NeedInput;
            }
            match r {
                None => {
                    rdec.rollback(&mut self.probs);
                    return Outcome::Corrupt;
                },
                Some(op) => {
                    match op {
                        Op::Match { dis, len } => {
                            if dis == MARKER_DISTANCE {
                                rdec.normalize();
                                if rdec.is_starved() {
                                    rdec.rollback(&mut self.probs);
                                    return Outcome::NeedInput;
                                }
                                if len == MIN_MATCH_LEN {
                                    rdec.checkpoint();
                                    self.stage = Stage::TrailerPending;
                                    return Outcome::End;
                                }
                                rdec.rollback(&mut self.probs);
                                return Outcome::Corrupt;
                            }
                        },
                        _ => {},
                    }
                    if !self.admits(op) {
                        rdec.rollback(&mut self.probs);
                        return Outcome::Corrupt;
                    }
                    self.apply(op);
                },
            }
        }
    }

    /// Reads the trailer, if the input holds all of it, and holds it against
    /// the decoded data and against the size of the member, which started
    /// where the range decoder had consumed `member_start` bytes. Yields
    /// `None` if the trailer is not all there; nothing is read then.
    pub fn verify_trailer(&mut self, rdec: &mut RangeDecoder, member_start: u64) -> (r: Option<
        bool,
    >)
        requires
            old(self).wf(),
            old(self).stage() == Stage::TrailerPending,
            old(rdec).wf(),
            old(rdec).settled(),
            member_start <= old(rdec).position(),
        ensures
            final(self).wf(),
            final(rdec).wf(),
            final(self).lz() == old(self).lz(),
            final(self).probs() == old(self).probs(),
            final(self).delivered() == old(self).delivered(),
            final(self).dictionary_size() == old(self).dictionary_size(),
            final(rdec).fed() == old(rdec).fed(),
            final(rdec).at_stream_end() == old(rdec).at_stream_end(),
            final(rdec).capacity() == old(rdec).capacity(),
            final(rdec).settled(),
            r is None <==> old(rdec)@.input.len() < TRAILER_SIZE,
            r is None ==> final(rdec)@ == old(rdec)@ && final(self).stage() == old(self).stage()
                && final(rdec).position() == old(rdec).position(),
            r matches Some(ok) ==> {
                &&& final(rdec)@ == (Rd {
                    input: old(rdec)@.input.skip(TRAILER_SIZE as int),
                    ..old(rdec)@
                })
                &&& final(rdec).position() == old(rdec).position() + TRAILER_SIZE
                &&& ok == trailer_agrees(
                    parse_trailer(old(rdec)@.input.subrange(0, TRAILER_SIZE as int)),
                    old(self).lz().data,
                    old(rdec).position() + TRAILER_SIZE - member_start,
                )
                &&& final(self).stage() == if ok {
                    Stage::Finished
                } else {
                    Stage::TrailerPending
                }
            },
    {
        proof {
            rdec.lemma_wf();
        }
        if rdec.available_bytes() < TRAILER_SIZE {
            return None;
        }
        let mut bytes: Vec<u8> = Vec::new();
        let mut i: usize = 0;
        while i < TRAILER_SIZE
            invariant
                rdec.wf(),
                rdec@.input.len() >= TRAILER_SIZE,
                i <= TRAILER_SIZE,
                bytes@ == rdec@.input.subrange(0, i as int),
            decreases TRAILER_SIZE - i,
        {
            bytes.push(rdec.peek(i));
            i = i + 1;
            assert(bytes@ =~= rdec@.input.subrange(0, i as int));
        }
        let t: Trailer = read_trailer(bytes.as_slice());
        rdec.skip(TRAILER_SIZE);
        rdec.checkpoint();
        proof {
            rdec.lemma_wf();
        }
        let member_size: u64 = rdec.consumed_bytes() - member_start;
        let ok: bool = t.data_crc == self.window.data_crc() && t.data_size
            == self.window.data_position() && t.member_size == member_size;
        if ok {
            self.stage = Stage::Finished;
        }
        Some(ok)
    }
}

} // verus!
