//! The decoding half of the range coder: a 32-bit `code` that is primed from
//! five bytes and then narrowed one bit at a time.

use vstd::prelude::*;
use vstd::arithmetic::power2::{pow2, lemma_pow2_unfold, lemma_pow2_strictly_increases, lemma2_to64};
use crate::bit_model::{valid_prob, valid_probs, bm_update, b2i, lemma_valid_probs_update};
use crate::cbuffer::CircularBuffer;

verus! {

/// A range at or below this value is widened by one byte before the next bit.
pub const TOP_RANGE: u32 = 0x00FF_FFFF;

/// No coding step leaves a range narrower than this.
pub const MIN_RANGE: u32 = 0x0003_E000;

/// Number of bytes that prime the decoder.
pub const LOAD_SIZE: usize = 5;

/// Capacity of the decoder's input queue.
pub const RD_BUFFER_SIZE: usize = 65536;

/// The state of a range decoder, with the input it has not consumed yet.
#[verifier::ext_equal]
pub struct Rd {
    pub code: u32,
    pub range: u32,
    pub input: Seq<u8>,
    /// Whether a byte was asked for after the input had run out. What was
    /// decoded from then on is void.
    pub starved: bool,
}

impl Rd {
    /// The code lies inside the range, and the range is wide enough for one
    /// byte to restore it.
    pub open spec fn wf(self) -> bool {
        self.range >= MIN_RANGE && self.code < self.range
    }
}

/// Takes the next input byte into the code. Past the end of the input a 0
/// stands in for the byte, and the decoder is marked as starved.
pub open spec fn rd_take_byte(rd: Rd) -> Rd {
    if rd.input.len() > 0 {
        Rd {
            code: (rd.code * 256 + rd.input[0]) as u32,
            range: (rd.range * 256) as u32,
            input: rd.input.skip(1),
            starved: rd.starved,
        }
    } else {
        Rd {
            code: (rd.code * 256) as u32,
            range: (rd.range * 256) as u32,
            input: rd.input,
            starved: true,
        }
    }
}

/// Widens a narrow range by one input byte.
pub open spec fn rd_normalize(rd: Rd) -> Rd {
    if rd.range <= TOP_RANGE {
        rd_take_byte(rd)
    } else {
        rd
    }
}

/// Decodes one bit whose probability of being 0 is `prob / 2048`.
pub open spec fn rd_bit(rd: Rd, prob: u32) -> (Rd, bool) {
    let n = rd_normalize(rd);
    let bound = ((n.range / 2048) * prob) as u32;
    if n.code < bound {
        (Rd { code: n.code, range: bound, input: n.input, starved: n.starved }, false)
    } else {
        (
            Rd {
                code: (n.code - bound) as u32,
                range: (n.range - bound) as u32,
                input: n.input,
                starved: n.starved,
            },
            true,
        )
    }
}

/// Decodes one bit with the model `probs[idx]`, and updates the model.
pub open spec fn rd_model_bit(rd: Rd, probs: Seq<u32>, idx: int) -> (Rd, Seq<u32>, bool) {
    let (rd2, bit) = rd_bit(rd, probs[idx]);
    (rd2, probs.update(idx, bm_update(probs[idx], bit)), bit)
}

/// Walks a bit tree from node `m` down to a leaf: a node `m` below `limit`
/// has its model at `probs[base + m]` and its children at `2m` and `2m + 1`.
/// Returns the leaf, which minus `limit` is the symbol.
pub open spec fn rd_tree(rd: Rd, probs: Seq<u32>, base: int, m: int, limit: int) -> (
    Rd,
    Seq<u32>,
    int,
)
    decreases 2 * limit - m,
{
    if m < 1 || m >= limit {
        (rd, probs, m)
    } else {
        let r = rd_model_bit(rd, probs, base + m);
        rd_tree(r.0, r.1, base, 2 * m + b2i(r.2), limit)
    }
}

/// Walks `n` levels down a bit tree as `rd_tree` does, but reads the symbol
/// with the first bit as the lowest: a 1 bit at a node of depth `k` adds
/// `2^k`. `weight` is the value of the bit at node `m`, `acc` the sum so far.
pub open spec fn rd_tree_reversed(
    rd: Rd,
    probs: Seq<u32>,
    base: int,
    m: int,
    n: nat,
    weight: int,
    acc: int,
) -> (Rd, Seq<u32>, int)
    decreases n,
{
    if n == 0 {
        (rd, probs, acc)
    } else {
        let r = rd_model_bit(rd, probs, base + m);
        rd_tree_reversed(
            r.0,
            r.1,
            base,
            2 * m + b2i(r.2),
            (n - 1) as nat,
            2 * weight,
            if r.2 {
                acc + weight
            } else {
                acc
            },
        )
    }
}

/// Decodes one bit of probability one half. The third component tells
/// whether the code stayed inside the halved range; no encoder produces a
/// stream on which it does not, and the code is then set to 0.
pub open spec fn rd_direct_bit(rd: Rd) -> (Rd, bool, bool) {
    let n = rd_normalize(rd);
    let half = n.range / 2;
    if n.code < half {
        (Rd { code: n.code, range: half, input: n.input, starved: n.starved }, false, true)
    } else if n.code - half < half {
        (
            Rd { code: (n.code - half) as u32, range: half, input: n.input, starved: n.starved },
            true,
            true,
        )
    } else {
        (Rd { code: 0, range: half, input: n.input, starved: n.starved }, true, false)
    }
}

/// Decodes `n` bits of probability one half, the highest first, onto `acc`;
/// `ok` tells whether the code has stayed inside the range so far.
pub open spec fn rd_direct(rd: Rd, n: nat, acc: int, ok: bool) -> (Rd, int, bool)
    decreases n,
{
    if n == 0 {
        (rd, acc, ok)
    } else {
        let r = rd_direct_bit(rd);
        rd_direct(r.0, (n - 1) as nat, 2 * acc + b2i(r.1), ok && r.2)
    }
}

/// Decodes the `n` low bits of a literal that follows a match. While the bits
/// decoded so far agree with those of `mb` (the byte the last distance points
/// at, its undecoded bits in positions 7 down), the model is chosen by `mb`'s
/// next bit as well as by the node.
pub open spec fn rd_matched(
    rd: Rd,
    probs: Seq<u32>,
    base: int,
    mb: int,
    m: int,
    n: nat,
    matching: bool,
) -> (Rd, Seq<u32>, int)
    decreases n,
{
    if n == 0 {
        (rd, probs, m)
    } else {
        let match_bit = mb / 128;
        let idx = if matching {
            base + 0x100 + 0x100 * match_bit + m
        } else {
            base + m
        };
        let r = rd_model_bit(rd, probs, idx);
        rd_matched(
            r.0,
            r.1,
            base,
            (mb % 128) * 2,
            2 * m + b2i(r.2),
            (n - 1) as nat,
            matching && b2i(r.2) == match_bit,
        )
    }
}

/// The big-endian value of four bytes.
pub open spec fn be32(b0: u8, b1: u8, b2: u8, b3: u8) -> int {
    ((b0 * 256 + b1) * 256 + b2) * 256 + b3
}

/// Whether five bytes can prime the decoder: the first is 0 and the other
/// four hold a code inside the initial range.
pub open spec fn rd_loadable(input: Seq<u8>) -> bool {
    &&& input.len() >= LOAD_SIZE
    &&& input[0] == 0
    &&& be32(input[1], input[2], input[3], input[4]) < 0xFFFF_FFFF
}

/// The decoder primed from the first five bytes of `input`.
pub open spec fn rd_load(input: Seq<u8>) -> Rd {
    Rd {
        code: be32(input[1], input[2], input[3], input[4]) as u32,
        range: 0xFFFF_FFFF,
        input: input.skip(LOAD_SIZE as int),
        starved: false,
    }
}

/// The bound that splits a widened range stays clear of both of its ends.
pub proof fn lemma_bound(range: u32, prob: u32)
    by (nonlinear_arith)
    requires
        range > TOP_RANGE,
        valid_prob(prob),
    ensures
        MIN_RANGE <= (range / 2048) * prob,
        (range / 2048) * prob + MIN_RANGE <= range,
{
    let q = range / 2048;
    assert(q >= 8192);
    assert(q * 2048 <= range);
    assert(q * prob >= 8192 * 31);
    assert(q * (2048 - prob) >= 8192 * 31);
    assert(q * 2048 == q * prob + q * (2048 - prob));
}

/// Widening keeps a decoder well-formed and makes its range wide.
pub proof fn lemma_normalize_wf(rd: Rd)
    requires
        rd.wf(),
    ensures
        rd_normalize(rd).wf(),
        rd_normalize(rd).range > TOP_RANGE,
{
}

/// Decoding a modelled bit keeps the decoder and the models well-formed.
pub proof fn lemma_model_bit_wf(rd: Rd, probs: Seq<u32>, idx: int)
    requires
        rd.wf(),
        valid_probs(probs),
        0 <= idx < probs.len(),
    ensures
        rd_model_bit(rd, probs, idx).0.wf(),
        valid_probs(rd_model_bit(rd, probs, idx).1),
        rd_model_bit(rd, probs, idx).1.len() == probs.len(),
{
    let n = rd_normalize(rd);
    lemma_bound(n.range, probs[idx]);
    lemma_valid_probs_update(probs, idx, rd_bit(rd, probs[idx]).1);
}

/// The probabilities as they were before the updates that `journal` records:
/// each entry holds an index and the value that was there.
pub open spec fn undo_journal(probs: Seq<u32>, journal: Seq<(usize, u32)>) -> Seq<u32>
    decreases journal.len(),
{
    if journal.len() == 0 {
        probs
    } else {
        let e = journal.last();
        let p = if e.0 < probs.len() {
            probs.update(e.0 as int, e.1)
        } else {
            probs
        };
        undo_journal(p, journal.drop_last())
    }
}

/// Recording an update before making it leaves what the journal restores
/// unchanged.
pub proof fn lemma_undo_push(probs: Seq<u32>, journal: Seq<(usize, u32)>, idx: usize, p: u32)
    requires
        idx < probs.len(),
    ensures
        undo_journal(probs.update(idx as int, p), journal.push((idx, probs[idx as int])))
            == undo_journal(probs, journal),
{
    let j2 = journal.push((idx, probs[idx as int]));
    assert(j2.drop_last() =~= journal);
    assert(probs.update(idx as int, p).update(idx as int, probs[idx as int]) =~= probs);
}

/// What every decoding step keeps: the decoder well-formed and at the same
/// checkpoint, the probabilities valid, and what a rollback would restore.
pub open spec fn rd_frame(
    old_rd: RangeDecoder,
    old_probs: Seq<u32>,
    new_rd: RangeDecoder,
    new_probs: Seq<u32>,
) -> bool {
    &&& new_rd.wf()
    &&& new_rd.continues(old_rd)
    &&& valid_probs(new_probs)
    &&& new_probs.len() == old_probs.len()
    &&& undo_journal(new_probs, new_rd.journal()) == undo_journal(old_probs, old_rd.journal())
}

/// The range decoder proper: the code and the range, and the queue of input
/// bytes that were fed and not given up yet.
///
/// Decoding is transactional. `checkpoint` marks a point to come back to;
/// the bytes read after it stay in the queue, and every update of a
/// probability is recorded, until the next `checkpoint` gives the bytes up or
/// `rollback` restores the state of the mark.
pub struct RangeDecoder {
    cb: CircularBuffer,
    pos: usize,
    consumed: u64,
    code: u32,
    range: u32,
    starved: bool,
    saved_code: u32,
    saved_range: u32,
    journal: Vec<(usize, u32)>,
    at_stream_end: bool,
}

impl View for RangeDecoder {
    type V = Rd;

    closed spec fn view(&self) -> Rd {
        Rd {
            code: self.code,
            range: self.range,
            input: self.cb@.skip(self.pos as int),
            starved: self.starved,
        }
    }
}

impl RangeDecoder {
    /// The queue is sound, the coder state and the saved one are well-formed,
    /// and the number of bytes ever fed fits a `u64`.
    pub closed spec fn wf(&self) -> bool {
        &&& self.cb.wf()
        &&& self.pos <= self.cb@.len()
        &&& self@.wf()
        &&& self.saved_range >= MIN_RANGE
        &&& self.saved_code < self.saved_range
        &&& self.consumed + self.cb@.len() <= u64::MAX
    }

    /// Number of bytes given up since the decoder was made or reset.
    pub closed spec fn position(&self) -> nat {
        self.consumed as nat
    }

    /// Number of bytes read since the last checkpoint.
    pub closed spec fn pending(&self) -> nat {
        self.pos as nat
    }

    /// Number of bytes in the queue.
    pub closed spec fn queued(&self) -> nat {
        self.cb@.len()
    }

    /// Number of bytes that the queue can hold.
    pub closed spec fn capacity(&self) -> nat {
        self.cb.capacity()
    }

    /// Whether the producer has declared the input complete.
    pub closed spec fn at_stream_end(&self) -> bool {
        self.at_stream_end
    }

    /// The updates of probabilities made since the last checkpoint.
    pub closed spec fn journal(&self) -> Seq<(usize, u32)> {
        self.journal@
    }

    /// The state that `rollback` restores.
    pub closed spec fn saved(&self) -> Rd {
        Rd { code: self.saved_code, range: self.saved_range, input: self.cb@, starved: false }
    }

    /// Number of bytes fed since the decoder was made or reset.
    pub open spec fn fed(&self) -> nat {
        self.position() + self.queued()
    }

    /// Number of bytes that can be fed now: what the queue has room for, as
    /// long as the count of bytes fed fits a `u64`.
    pub open spec fn free_space(&self) -> nat {
        let room = (self.capacity() - self.queued()) as nat;
        let left = (u64::MAX - self.fed()) as nat;
        if room <= left {
            room
        } else {
            left
        }
    }

    /// The decoder stands at its checkpoint: nothing was read or updated
    /// since, and no byte is missing.
    pub open spec fn settled(&self) -> bool {
        &&& self.pending() == 0
        &&& !self@.starved
        &&& self.saved() == self@
        &&& self.journal() == Seq::<(usize, u32)>::empty()
    }

    /// `self` is a later state of `prev` with the same checkpoint and the
    /// same queue.
    pub open spec fn continues(&self, prev: RangeDecoder) -> bool {
        &&& self.position() == prev.position()
        &&& self.queued() == prev.queued()
        &&& self.at_stream_end() == prev.at_stream_end()
        &&& self.capacity() == prev.capacity()
        &&& self.saved() == prev.saved()
    }

    /// The invariant, in terms a caller can use.
    pub proof fn lemma_wf(&self)
        requires
            self.wf(),
        ensures
            self@.wf(),
            self.saved().wf(),
            self.fed() <= u64::MAX,
            self.queued() <= self.capacity(),
            self@.input.len() + self.pending() == self.queued(),
            self.saved().input.len() == self.queued(),
            self@.input == self.saved().input.skip(self.pending() as int),
    {
        self.cb.lemma_len_bound();
    }

    /// A decoder with an empty queue.
    pub fn new() -> (rd: RangeDecoder)
        ensures
            rd.wf(),
            rd@.input == Seq::<u8>::empty(),
            !rd@.starved,
            rd@.code == 0,
            rd@.range == 0xFFFF_FFFF,
            rd.position() == 0,
            rd.pending() == 0,
            rd.queued() == 0,
            !rd.at_stream_end(),
            rd.capacity() == RD_BUFFER_SIZE,
    {
        let rd = RangeDecoder {
            cb: CircularBuffer::new(RD_BUFFER_SIZE),
            pos: 0,
            consumed: 0,
            code: 0,
            range: 0xFFFF_FFFF,
            starved: false,
            saved_code: 0,
            saved_range: 0xFFFF_FFFF,
            journal: Vec::new(),
            at_stream_end: false,
        };
        assert(rd@.input =~= Seq::<u8>::empty());
        rd
    }

    /// A decoder whose queue holds up to `capacity` bytes.
    pub fn with_capacity(capacity: usize) -> (rd: RangeDecoder)
        requires
            capacity < usize::MAX,
        ensures
            rd.wf(),
            rd@.input == Seq::<u8>::empty(),
            !rd@.starved,
            rd@.code == 0,
            rd@.range == 0xFFFF_FFFF,
            rd.position() == 0,
            rd.pending() == 0,
            rd.queued() == 0,
            !rd.at_stream_end(),
            rd.capacity() == capacity,
    {
        let rd = RangeDecoder {
            cb: CircularBuffer::new(capacity),
            pos: 0,
            consumed: 0,
            code: 0,
            range: 0xFFFF_FFFF,
            starved: false,
            saved_code: 0,
            saved_range: 0xFFFF_FFFF,
            journal: Vec::new(),
            at_stream_end: false,
        };
        assert(rd@.input =~= Seq::<u8>::empty());
        rd
    }

    /// Drops all input and starts counting from 0 again.
    pub fn reset(&mut self)
        requires
            old(self).wf(),
        ensures
            final(self).wf(),
            final(self)@.input == Seq::<u8>::empty(),
            !final(self)@.starved,
            final(self)@.code == 0,
            final(self)@.range == 0xFFFF_FFFF,
            final(self).position() == 0,
            final(self).pending() == 0,
            final(self).queued() == 0,
            !final(self).at_stream_end(),
            final(self).capacity() == old(self).capacity(),
    {
        self.cb.reset();
        self.pos = 0;
        self.consumed = 0;
        self.code = 0;
        self.range = 0xFFFF_FFFF;
        self.starved = false;
        self.saved_code = 0;
        self.saved_range = 0xFFFF_FFFF;
        self.journal.clear();
        self.at_stream_end = false;
        assert(self@.input =~= Seq::<u8>::empty());
    }

    /// Declares the input complete.
    pub fn finish(&mut self)
        requires
            old(self).wf(),
        ensures
            final(self).wf(),
            final(self)@ == old(self)@,
            final(self).position() == old(self).position(),
            final(self).pending() == old(self).pending(),
            final(self).queued() == old(self).queued(),
            final(self).saved() == old(self).saved(),
            final(self).journal() == old(self).journal(),
            final(self).at_stream_end(),
            final(self).capacity() == old(self).capacity(),
    {
        self.at_stream_end = true;
    }

    /// Whether the input was declared complete.
    pub fn is_at_stream_end(&self) -> (b: bool)
        ensures
            b == self.at_stream_end(),
    {
        self.at_stream_end
    }

    /// Whether the input was declared complete and is used up.
    pub fn finished(&self) -> (b: bool)
        requires
            self.wf(),
        ensures
            b == (self.at_stream_end() && self@.input.len() == 0),
    {
        self.at_stream_end && self.cb.used_bytes() == self.pos
    }

    /// Whether a byte was asked for after the input had run out.
    pub fn is_starved(&self) -> (b: bool)
        ensures
            b == self@.starved,
    {
        self.starved
    }

    /// Number of bytes given up so far.
    pub fn consumed_bytes(&self) -> (n: u64)
        ensures
            n == self.position(),
    {
        self.consumed
    }

    /// Number of bytes that are left to read.
    pub fn available_bytes(&self) -> (n: usize)
        requires
            self.wf(),
        ensures
            n == self@.input.len(),
    {
        self.cb.used_bytes() - self.pos
    }

    /// Number of bytes that can be fed now.
    pub fn free_bytes(&self) -> (n: usize)
        requires
            self.wf(),
        ensures
            n == self.free_space(),
    {
        let used: usize = self.cb.used_bytes();
        let room: usize = self.cb.free_bytes();
        let left: u64 = u64::MAX - self.consumed - used as u64;
        if room as u64 <= left {
            room
        } else {
            left as usize
        }
    }

    /// Feeds as many bytes of `data[from..]` as there is room for, and
    /// returns how many were taken.
    pub fn write_data(&mut self, data: &[u8], from: usize) -> (n: usize)
        requires
            old(self).wf(),
            from <= data@.len(),
        ensures
            final(self).wf(),
            n == if data@.len() - from <= old(self).free_space() {
                data@.len() - from
            } else {
                old(self).free_space() as int
            },
            final(self)@.input == old(self)@.input + data@.subrange(from as int, from + n),
            final(self)@.code == old(self)@.code,
            final(self)@.range == old(self)@.range,
            final(self)@.starved == old(self)@.starved,
            final(self).position() == old(self).position(),
            final(self).pending() == old(self).pending(),
            final(self).queued() == old(self).queued() + n,
            final(self).at_stream_end() == old(self).at_stream_end(),
            final(self).capacity() == old(self).capacity(),
    {
        let free: usize = self.free_bytes();
        let end: usize = if data.len() - from <= free {
            data.len()
        } else {
            from + free
        };
        let part: &[u8] = vstd::slice::slice_subrange(data, 0, end);
        let n: usize = self.cb.write_data(part, from);
        proof {
            assert(part@.subrange(from as int, from + n) =~= data@.subrange(from as int, from + n));
            assert(self@.input =~= old(self)@.input + data@.subrange(from as int, from + n));
        }
        n
    }

    /// Takes back the `n` bytes fed last, of which none was read yet.
    pub fn unwrite(&mut self, n: usize)
        requires
            old(self).wf(),
            old(self).settled(),
            n <= old(self)@.input.len(),
        ensures
            final(self).wf(),
            final(self).settled(),
            final(self)@ == (Rd {
                input: old(self)@.input.take(old(self)@.input.len() - n),
                ..old(self)@
            }),
            final(self).position() == old(self).position(),
            final(self).queued() == old(self).queued() - n,
            final(self).at_stream_end() == old(self).at_stream_end(),
            final(self).capacity() == old(self).capacity(),
    {
        assert(self@.input =~= self.cb@);
        self.cb.unput(n);
        assert(self@.input =~= self.cb@);
    }

    /// The `i`-th byte that is left to read, left in place.
    pub fn peek(&self, i: usize) -> (b: u8)
        requires
            self.wf(),
            i < self@.input.len(),
        ensures
            b == self@.input[i as int],
    {
        let queued: usize = self.cb.used_bytes();
        self.cb.peek(self.pos + i)
    }

    /// Reads `n` bytes without looking at them.
    pub fn skip(&mut self, n: usize)
        requires
            old(self).wf(),
            n <= old(self)@.input.len(),
        ensures
            final(self).wf(),
            final(self).continues(*old(self)),
            final(self).journal() == old(self).journal(),
            final(self).pending() == old(self).pending() + n,
            final(self)@ == (Rd {
                input: old(self)@.input.skip(n as int),
                ..old(self)@
            }),
    {
        let queued: usize = self.cb.used_bytes();
        self.pos = self.pos + n;
        assert(self@.input =~= old(self)@.input.skip(n as int));
    }

    /// Marks the point that `rollback` comes back to, and gives up the bytes
    /// read so far.
    pub fn checkpoint(&mut self)
        requires
            old(self).wf(),
            !old(self)@.starved,
        ensures
            final(self).wf(),
            final(self)@ == old(self)@,
            final(self).saved() == old(self)@,
            final(self).journal() == Seq::<(usize, u32)>::empty(),
            final(self).position() == old(self).position() + old(self).pending(),
            final(self).pending() == 0,
            final(self).queued() == old(self).queued() - old(self).pending(),
            final(self).at_stream_end() == old(self).at_stream_end(),
            final(self).capacity() == old(self).capacity(),
    {
        self.cb.skip(self.pos);
        self.consumed = self.consumed + self.pos as u64;
        self.pos = 0;
        self.saved_code = self.code;
        self.saved_range = self.range;
        self.journal.clear();
        assert(self@.input =~= old(self)@.input);
        assert(self.saved().input =~= old(self)@.input);
    }

    /// Comes back to the last checkpoint: the bytes read since are to be read
    /// again, and the probabilities updated since have their old values.
    pub fn rollback(&mut self, probs: &mut Vec<u32>)
        requires
            old(self).wf(),
        ensures
            final(self).wf(),
            final(self).continues(*old(self)),
            final(self)@ == old(self).saved(),
            final(self).journal() == Seq::<(usize, u32)>::empty(),
            final(self).pending() == 0,
            final(probs)@ == undo_journal(old(probs)@, old(self).journal()),
    {
        self.pos = 0;
        self.code = self.saved_code;
        self.range = self.saved_range;
        self.starved = false;
        assert(self@.input =~= old(self).saved().input);
        while self.journal.len() > 0
            invariant
                self.wf(),
                self.continues(*old(self)),
                self@ == old(self).saved(),
                self.pos == 0,
                undo_journal(probs@, self.journal@) == undo_journal(
                    old(probs)@,
                    old(self).journal(),
                ),
            decreases self.journal@.len(),
        {
            let ghost before = self.journal@;
            let e: Option<(usize, u32)> = self.journal.pop();
            match e {
                Some((idx, p)) => {
                    assert(self.journal@ =~= before.drop_last());
                    if idx < probs.len() {
                        probs[idx] = p;
                    }
                },
                None => {},
            }
        }
    }

    /// Reads the next byte into the code; past the end of the input, marks
    /// the decoder as starved.
    fn take_byte(&mut self)
        requires
            old(self).wf(),
            old(self)@.range <= TOP_RANGE,
        ensures
            final(self).wf(),
            final(self).continues(*old(self)),
            final(self).journal() == old(self).journal(),
            final(self)@ == rd_take_byte(old(self)@),
            final(self)@.range > TOP_RANGE,
    {
        let used: usize = self.cb.used_bytes();
        if self.pos < used {
            let b: u8 = self.cb.peek(self.pos);
            self.pos = self.pos + 1;
            self.code = self.code * 256 + b as u32;
            assert(self@.input =~= old(self)@.input.skip(1));
        } else {
            self.starved = true;
            self.code = self.code * 256;
        }
        self.range = self.range * 256;
    }

    /// Primes the decoder from the next five bytes, if they can prime it.
    /// Either way the five bytes are read.
    pub fn load(&mut self) -> (ok: bool)
        requires
            old(self).wf(),
            old(self)@.input.len() >= LOAD_SIZE,
            !old(self)@.starved,
        ensures
            final(self).wf(),
            final(self).continues(*old(self)),
            final(self).journal() == old(self).journal(),
            final(self).pending() == old(self).pending() + LOAD_SIZE,
            ok == rd_loadable(old(self)@.input),
            ok ==> final(self)@ == rd_load(old(self)@.input),
            final(self)@.input == old(self)@.input.skip(LOAD_SIZE as int),
            !final(self)@.starved,
    {
        let b0: u8 = self.peek(0);
        let b1: u8 = self.peek(1);
        let b2: u8 = self.peek(2);
        let b3: u8 = self.peek(3);
        let b4: u8 = self.peek(4);
        let queued: usize = self.cb.used_bytes();
        self.pos = self.pos + LOAD_SIZE;
        let code: u32 = ((b1 as u32 * 256 + b2 as u32) * 256 + b3 as u32) * 256 + b4 as u32;
        self.range = 0xFFFF_FFFF;
        assert(self@.input =~= old(self)@.input.skip(LOAD_SIZE as int));
        if b0 == 0 && code < 0xFFFF_FFFF {
            self.code = code;
            true
        } else {
            self.code = 0;
            false
        }
    }

    /// Widens a narrow range by one input byte.
    pub fn normalize(&mut self)
        requires
            old(self).wf(),
        ensures
            final(self).wf(),
            final(self).continues(*old(self)),
            final(self).journal() == old(self).journal(),
            final(self)@ == rd_normalize(old(self)@),
            final(self)@.range > TOP_RANGE,
    {
        if self.range <= TOP_RANGE {
            self.take_byte();
        }
    }

    /// Decodes one bit with the model `probs[idx]`, and updates the model.
    pub fn decode_bit(&mut self, probs: &mut Vec<u32>, idx: usize) -> (bit: bool)
        requires
            old(self).wf(),
            valid_probs(old(probs)@),
            idx < old(probs)@.len(),
        ensures
            final(self).wf(),
            final(self).continues(*old(self)),
            valid_probs(final(probs)@),
            final(probs)@.len() == old(probs)@.len(),
            undo_journal(final(probs)@, final(self).journal()) == undo_journal(
                old(probs)@,
                old(self).journal(),
            ),
            (final(self)@, final(probs)@, bit) == rd_model_bit(
                old(self)@,
                old(probs)@,
                idx as int,
            ),
    {
        self.normalize();
        let p: u32 = probs[idx];
        self.journal.push((idx, p));
        proof {
            lemma_bound(self.range, p);
            lemma_valid_probs_update(old(probs)@, idx as int, true);
            lemma_valid_probs_update(old(probs)@, idx as int, false);
            lemma_undo_push(old(probs)@, old(self).journal(), idx, bm_update(p, true));
            lemma_undo_push(old(probs)@, old(self).journal(), idx, bm_update(p, false));
        }
        let bound: u32 = (self.range / 2048) * p;
        if self.code < bound {
            self.range = bound;
            probs[idx] = p + (2048 - p) / 32;
            false
        } else {
            self.code = self.code - bound;
            self.range = self.range - bound;
            probs[idx] = p - p / 32;
            true
        }
    }

    /// Decodes a symbol below `limit` through the bit tree at `probs[base..]`.
    pub fn decode_tree(&mut self, probs: &mut Vec<u32>, base: usize, limit: u32) -> (sym: u32)
        requires
            old(self).wf(),
            valid_probs(old(probs)@),
            1 <= limit <= 0x1_0000,
            base + limit <= old(probs)@.len(),
        ensures
            final(self).wf(),
            final(self).continues(*old(self)),
            valid_probs(final(probs)@),
            final(probs)@.len() == old(probs)@.len(),
            undo_journal(final(probs)@, final(self).journal()) == undo_journal(
                old(probs)@,
                old(self).journal(),
            ),
            sym < limit,
            (final(self)@, final(probs)@, sym + limit) == rd_tree(
                old(self)@,
                old(probs)@,
                base as int,
                1,
                limit as int,
            ),
    {
        let plen: usize = probs.len();
        let mut m: u32 = 1;
        while m < limit
            invariant
                self.wf(),
                self.continues(*old(self)),
                valid_probs(probs@),
                probs@.len() == old(probs)@.len(),
                probs@.len() == plen,
                undo_journal(probs@, self.journal()) == undo_journal(
                    old(probs)@,
                    old(self).journal(),
                ),
                1 <= limit <= 0x1_0000,
                base + limit <= probs@.len(),
                1 <= m < 2 * limit,
                rd_tree(self@, probs@, base as int, m as int, limit as int) == rd_tree(
                    old(self)@,
                    old(probs)@,
                    base as int,
                    1,
                    limit as int,
                ),
            decreases 2 * limit - m,
        {
            let bit: bool = self.decode_bit(probs, base + m as usize);
            m = 2 * m + if bit {
                1
            } else {
                0
            };
        }
        m - limit
    }

    /// Decodes a symbol of `n` bits through the bit tree at `probs[base..]`,
    /// lowest bit first.
    pub fn decode_tree_reversed(&mut self, probs: &mut Vec<u32>, base: usize, n: u32) -> (sym: u32)
        requires
            old(self).wf(),
            valid_probs(old(probs)@),
            n <= 16,
            base + pow2(n as nat) <= old(probs)@.len(),
        ensures
            final(self).wf(),
            final(self).continues(*old(self)),
            valid_probs(final(probs)@),
            final(probs)@.len() == old(probs)@.len(),
            undo_journal(final(probs)@, final(self).journal()) == undo_journal(
                old(probs)@,
                old(self).journal(),
            ),
            sym < pow2(n as nat),
            (final(self)@, final(probs)@, sym as int) == rd_tree_reversed(
                old(self)@,
                old(probs)@,
                base as int,
                1,
                n as nat,
                1,
                0,
            ),
    {
        let plen: usize = probs.len();
        let mut m: u32 = 1;
        let mut weight: u32 = 1;
        let mut sym: u32 = 0;
        let mut i: u32 = 0;
        proof {
            lemma2_to64();
        }
        while i < n
            invariant
                self.wf(),
                self.continues(*old(self)),
                valid_probs(probs@),
                probs@.len() == old(probs)@.len(),
                probs@.len() == plen,
                undo_journal(probs@, self.journal()) == undo_journal(
                    old(probs)@,
                    old(self).journal(),
                ),
                i <= n <= 16,
                base + pow2(n as nat) <= probs@.len(),
                weight == pow2(i as nat),
                weight <= m < 2 * weight,
                sym < weight,
                rd_tree_reversed(
                    self@,
                    probs@,
                    base as int,
                    m as int,
                    (n - i) as nat,
                    weight as int,
                    sym as int,
                ) == rd_tree_reversed(old(self)@, old(probs)@, base as int, 1, n as nat, 1, 0),
            decreases n - i,
        {
            proof {
                lemma_pow2_unfold((i + 1) as nat);
                lemma_pow2_strictly_increases((i + 1) as nat, 17);
                lemma2_to64();
                if i + 1 < n {
                    lemma_pow2_strictly_increases((i + 1) as nat, n as nat);
                }
            }
            let bit: bool = self.decode_bit(probs, base + m as usize);
            if bit {
                m = 2 * m + 1;
                sym = sym + weight;
            } else {
                m = 2 * m;
            }
            weight = 2 * weight;
            i = i + 1;
        }
        sym
    }

    /// Decodes `n` bits of probability one half, the highest first. Yields
    /// `None` if the code left the range on the way.
    pub fn decode_direct(&mut self, n: u32) -> (r: Option<u32>)
        requires
            old(self).wf(),
            n <= 31,
        ensures
            final(self).wf(),
            final(self).continues(*old(self)),
            final(self).journal() == old(self).journal(),
            final(self)@ == rd_direct(old(self)@, n as nat, 0, true).0,
            r is Some == rd_direct(old(self)@, n as nat, 0, true).2,
            r matches Some(sym) ==> sym < pow2(n as nat) && sym == rd_direct(
                old(self)@,
                n as nat,
                0,
                true,
            ).1,
    {
        let mut sym: u32 = 0;
        let mut ok: bool = true;
        let mut i: u32 = 0;
        proof {
            lemma2_to64();
        }
        while i < n
            invariant
                self.wf(),
                self.continues(*old(self)),
                self.journal() == old(self).journal(),
                i <= n <= 31,
                sym < pow2(i as nat),
                rd_direct(self@, (n - i) as nat, sym as int, ok) == rd_direct(
                    old(self)@,
                    n as nat,
                    0,
                    true,
                ),
            decreases n - i,
        {
            proof {
                lemma_pow2_unfold((i + 1) as nat);
                lemma_pow2_strictly_increases((i + 1) as nat, 32);
                lemma2_to64();
            }
            self.normalize();
            let half: u32 = self.range / 2;
            if self.code < half {
                sym = 2 * sym;
            } else if self.code - half < half {
                self.code = self.code - half;
                sym = 2 * sym + 1;
            } else {
                self.code = 0;
                sym = 2 * sym + 1;
                ok = false;
            }
            self.range = half;
            i = i + 1;
        }
        if ok {
            Some(sym)
        } else {
            None
        }
    }

    /// Decodes a literal that follows a match, through the 768 models at
    /// `probs[base..]`; `match_byte` is the byte the last distance points at.
    pub fn decode_matched(&mut self, probs: &mut Vec<u32>, base: usize, match_byte: u8) -> (sym:
        u8)
        requires
            old(self).wf(),
            valid_probs(old(probs)@),
            base + 0x300 <= old(probs)@.len(),
        ensures
            final(self).wf(),
            final(self).continues(*old(self)),
            valid_probs(final(probs)@),
            final(probs)@.len() == old(probs)@.len(),
            undo_journal(final(probs)@, final(self).journal()) == undo_journal(
                old(probs)@,
                old(self).journal(),
            ),
            (final(self)@, final(probs)@, sym + 0x100) == rd_matched(
                old(self)@,
                old(probs)@,
                base as int,
                match_byte as int,
                1,
                8,
                true,
            ),
    {
        let plen: usize = probs.len();
        let mut m: u32 = 1;
        let mut mb: u32 = match_byte as u32;
        let mut matching: bool = true;
        let mut i: u32 = 0;
        proof {
            lemma2_to64();
        }
        while i < 8
            invariant
                probs@.len() == plen,
                self.wf(),
                self.continues(*old(self)),
                valid_probs(probs@),
                probs@.len() == old(probs)@.len(),
                undo_journal(probs@, self.journal()) == undo_journal(
                    old(probs)@,
                    old(self).journal(),
                ),
                base + 0x300 <= probs@.len(),
                i <= 8,
                mb < 256,
                pow2(i as nat) <= m < 2 * pow2(i as nat),
                rd_matched(
                    self@,
                    probs@,
                    base as int,
                    mb as int,
                    m as int,
                    (8 - i) as nat,
                    matching,
                ) == rd_matched(
                    old(self)@,
                    old(probs)@,
                    base as int,
                    match_byte as int,
                    1,
                    8,
                    true,
                ),
            decreases 8 - i,
        {
            proof {
                lemma_pow2_unfold((i + 1) as nat);
                lemma2_to64();
                if i < 7 {
                    lemma_pow2_strictly_increases((i + 1) as nat, 8);
                }
            }
            let match_bit: u32 = mb / 128;
            let idx: usize = if matching {
                base + 0x100 + 0x100 * match_bit as usize + m as usize
            } else {
                base + m as usize
            };
            let bit: bool = self.decode_bit(probs, idx);
            let b: u32 = if bit {
                1
            } else {
                0
            };
            m = 2 * m + b;
            matching = matching && b == match_bit;
            mb = (mb % 128) * 2;
            i = i + 1;
        }
        (m - 0x100) as u8
    }
}

} // verus!
