//! The encoding half of the range coder: an interval, given by its low end
//! and its width, that is narrowed one bit at a time and whose settled high
//! bytes are put out.

use vstd::prelude::*;
use vstd::arithmetic::power2::{pow2, lemma_pow2_unfold, lemma_pow2_strictly_increases, lemma2_to64};
use crate::bit_model::{valid_prob, valid_probs, bm_update, b2i, lemma_valid_probs_update};
use crate::range_decoder::{lemma_bound, TOP_RANGE, MIN_RANGE};

verus! {

/// Capacity of the encoder's output queue.
pub const RE_BUFFER_SIZE: usize = 65536;

/// One coded bit: either with the probability `prob / 2048` of being 0, or
/// with probability one half.
pub enum Ev {
    Bit { prob: u32, bit: bool },
    Direct { bit: bool },
}

/// The state of a range encoder, with the bytes it has put out.
#[verifier::ext_equal]
pub struct Re {
    /// The low end of the interval: 32 bits and a carry.
    pub low: u64,
    /// The width of the interval.
    pub range: u32,
    /// The last byte shifted out of `low`, held back until no carry can
    /// reach it.
    pub cache: u8,
    /// Number of `0xFF` bytes shifted out of `low` after `cache`, held back
    /// likewise.
    pub ff_count: nat,
    /// The bytes put out.
    pub out: Seq<u8>,
}

impl Re {
    /// The interval is wide enough for one byte to restore it, and its high
    /// end has at most one bit of carry.
    pub open spec fn wf(self) -> bool {
        self.range >= MIN_RANGE && self.low + self.range <= 0x1_FFFF_FFFF
    }

    /// Number of bytes put out or held back.
    pub open spec fn len(self) -> nat {
        self.out.len() + self.ff_count + 5
    }
}

/// The state at the start of a payload.
pub open spec fn re_init() -> Re {
    Re { low: 0, range: 0xFFFF_FFFF, cache: 0, ff_count: 0, out: Seq::empty() }
}

/// Shifts the high byte out of `low`. Unless that byte is `0xFF` and no
/// carry stands above it, the bytes held back are put out, with the carry
/// added, and the byte is held back in their place.
pub open spec fn re_shift_low(re: Re) -> Re {
    let low = ((re.low % 0x100_0000) * 256) as u64;
    if re.low < 0xFF00_0000 || re.low > 0xFFFF_FFFF {
        let carry: int = if re.low > 0xFFFF_FFFF {
            1
        } else {
            0
        };
        Re {
            low,
            range: re.range,
            cache: ((re.low / 0x100_0000) % 256) as u8,
            ff_count: 0,
            out: re.out.push(((re.cache + carry) % 256) as u8) + Seq::new(
                re.ff_count,
                |i: int| ((0xFF + carry) % 256) as u8,
            ),
        }
    } else {
        Re { low, range: re.range, cache: re.cache, ff_count: re.ff_count + 1, out: re.out }
    }
}

/// Widens a narrow interval by one byte.
pub open spec fn re_normalize(re: Re) -> Re {
    if re.range <= TOP_RANGE {
        let s = re_shift_low(re);
        Re { range: (re.range * 256) as u32, ..s }
    } else {
        re
    }
}

/// Encodes one bit: the interval is widened if it is narrow, and then split
/// in two parts of which the bit picks one.
pub open spec fn re_event(re: Re, ev: Ev) -> Re {
    let n = re_normalize(re);
    match ev {
        Ev::Bit { prob, bit } => {
            let bound = ((n.range / 2048) * prob) as u32;
            if bit {
                Re { low: (n.low + bound) as u64, range: (n.range - bound) as u32, ..n }
            } else {
                Re { range: bound, ..n }
            }
        },
        Ev::Direct { bit } => {
            let half = n.range / 2;
            if bit {
                Re { low: (n.low + half) as u64, range: half, ..n }
            } else {
                Re { range: half, ..n }
            }
        },
    }
}

/// Encodes a run of bits, the first first.
pub open spec fn re_events(re: Re, evs: Seq<Ev>) -> Re
    decreases evs.len(),
{
    if evs.len() == 0 {
        re
    } else {
        re_events(re_event(re, evs[0]), evs.skip(1))
    }
}

/// Ends a payload: the interval is widened if it is narrow, and all that is
/// held back and the four bytes of `low` are put out.
pub open spec fn re_flush(re: Re) -> Re {
    re_shift_low(re_shift_low(re_shift_low(re_shift_low(re_shift_low(re_normalize(re))))))
}

/// Every event has a probability that the update rule can reach.
pub open spec fn valid_events(evs: Seq<Ev>) -> bool {
    forall|i: int|
        0 <= i < evs.len() ==> (#[trigger] evs[i] matches Ev::Bit { prob, bit } ==> valid_prob(prob))
}

/// A run that starts with `e` is encoded by encoding `e` and then the rest.
pub proof fn lemma_re_events_cons(re: Re, e: Ev, rest: Seq<Ev>)
    ensures
        re_events(re, seq![e] + rest) == re_events(re_event(re, e), rest),
{
    let evs = seq![e] + rest;
    assert(evs[0] == e);
    assert(evs.skip(1) =~= rest);
}

/// A run in two parts is encoded by encoding one part after the other.
pub proof fn lemma_re_events_concat(re: Re, a: Seq<Ev>, b: Seq<Ev>)
    ensures
        re_events(re, a + b) == re_events(re_events(re, a), b),
    decreases a.len(),
{
    if a.len() == 0 {
        assert(a + b =~= b);
    } else {
        assert((a + b)[0] == a[0]);
        assert((a + b).skip(1) =~= a.skip(1) + b);
        lemma_re_events_concat(re_event(re, a[0]), a.skip(1), b);
    }
}

/// Shifting keeps `low` within 32 bits and adds one to the length.
pub proof fn lemma_shift_low(re: Re)
    ensures
        re_shift_low(re).low <= 0xFFFF_FF00,
        re_shift_low(re).len() == re.len() + 1,
        re_shift_low(re).range == re.range,
{
}

/// Encoding one bit keeps the state well-formed and adds at most one to the
/// length.
pub proof fn lemma_re_event(re: Re, ev: Ev)
    requires
        re.wf(),
        ev matches Ev::Bit { prob, bit } ==> valid_prob(prob),
    ensures
        re_event(re, ev).wf(),
        re.len() <= re_event(re, ev).len() <= re.len() + 1,
{
    let n = re_normalize(re);
    lemma_shift_low(re);
    assert(n.wf());
    match ev {
        Ev::Bit { prob, bit } => {
            lemma_bound(n.range, prob);
        },
        Ev::Direct { bit } => {},
    }
}

/// Encoding a run of bits keeps the state well-formed and adds at most the
/// number of bits to the length.
pub proof fn lemma_re_events(re: Re, evs: Seq<Ev>)
    requires
        re.wf(),
        valid_events(evs),
    ensures
        re_events(re, evs).wf(),
        re.len() <= re_events(re, evs).len() <= re.len() + evs.len(),
    decreases evs.len(),
{
    if evs.len() > 0 {
        lemma_re_event(re, evs[0]);
        assert(valid_events(evs.skip(1))) by {
            assert forall|i: int| 0 <= i < evs.skip(1).len() implies (#[trigger] evs.skip(1)[i]
                matches Ev::Bit { prob, bit } ==> valid_prob(prob)) by {
                assert(evs.skip(1)[i] == evs[i + 1]);
            }
        }
        lemma_re_events(re_event(re, evs[0]), evs.skip(1));
    }
}

/// The bits of a symbol of a bit tree, the highest first, with the models
/// they go through: at node `m`, the bit of the symbol that `mask` picks.
/// Yields the events and the probabilities after them.
pub open spec fn tree_events(probs: Seq<u32>, base: int, m: int, sym: int, mask: int) -> (
    Seq<Ev>,
    Seq<u32>,
)
    decreases mask,
{
    if mask <= 0 {
        (Seq::empty(), probs)
    } else {
        let bit = (sym / mask) % 2 == 1;
        let p = probs[base + m];
        let r = tree_events(
            probs.update(base + m, bm_update(p, bit)),
            base,
            2 * m + b2i(bit),
            sym,
            mask / 2,
        );
        (seq![Ev::Bit { prob: p, bit }] + r.0, r.1)
    }
}

/// The `n` low bits of a symbol of a bit tree, the lowest first, with the
/// models they go through.
pub open spec fn tree_reversed_events(probs: Seq<u32>, base: int, m: int, sym: int, n: nat) -> (
    Seq<Ev>,
    Seq<u32>,
)
    decreases n,
{
    if n == 0 {
        (Seq::empty(), probs)
    } else {
        let bit = sym % 2 == 1;
        let p = probs[base + m];
        let r = tree_reversed_events(
            probs.update(base + m, bm_update(p, bit)),
            base,
            2 * m + b2i(bit),
            sym / 2,
            (n - 1) as nat,
        );
        (seq![Ev::Bit { prob: p, bit }] + r.0, r.1)
    }
}

/// The bits of a symbol that `mask` and the masks below it pick, the highest
/// first, each with probability one half.
pub open spec fn direct_events(sym: int, mask: int) -> Seq<Ev>
    decreases mask,
{
    if mask <= 0 {
        Seq::empty()
    } else {
        seq![Ev::Direct { bit: (sym / mask) % 2 == 1 }] + direct_events(sym, mask / 2)
    }
}

/// The `n` high bits of `s`, a literal that follows a match, with the models
/// they go through. While the bits so far agree with those of `mb`, the byte
/// the last distance points at, the model is chosen by `mb`'s next bit as
/// well as by the node.
pub open spec fn matched_events(
    probs: Seq<u32>,
    base: int,
    mb: int,
    s: int,
    m: int,
    n: nat,
    matching: bool,
) -> (Seq<Ev>, Seq<u32>)
    decreases n,
{
    if n == 0 {
        (Seq::empty(), probs)
    } else {
        let match_bit = mb / 128;
        let bit = s / 128 == 1;
        let idx = if matching {
            base + 0x100 + 0x100 * match_bit + m
        } else {
            base + m
        };
        let p = probs[idx];
        let r = matched_events(
            probs.update(idx, bm_update(p, bit)),
            base,
            (mb % 128) * 2,
            (s % 128) * 2,
            2 * m + b2i(bit),
            (n - 1) as nat,
            matching && b2i(bit) == match_bit,
        );
        (seq![Ev::Bit { prob: p, bit }] + r.0, r.1)
    }
}

/// The range encoder proper: the interval, the bytes held back, and the
/// queue of the bytes put out and not read yet.
pub struct RangeEncoder {
    queue: Vec<u8>,
    head: usize,
    low: u64,
    range: u32,
    cache: u8,
    ff_count: u64,
    member_pos: u64,
    stream: Ghost<Seq<u8>>,
    drained: Ghost<nat>,
    payload_start: Ghost<nat>,
}

impl View for RangeEncoder {
    type V = Re;

    closed spec fn view(&self) -> Re {
        Re {
            low: self.low,
            range: self.range,
            cache: self.cache,
            ff_count: self.ff_count as nat,
            out: self.stream@.skip(self.payload_start@ as int),
        }
    }
}

impl RangeEncoder {
    /// All the bytes put into the queue since the encoder was made.
    pub closed spec fn stream(&self) -> Seq<u8> {
        self.stream@
    }

    /// How many of them were read.
    pub closed spec fn drained(&self) -> nat {
        self.drained@
    }

    /// Where in the stream the payload at hand starts.
    pub closed spec fn payload_start(&self) -> nat {
        self.payload_start@
    }

    /// Number of bytes put into the queue since the member at hand started.
    pub closed spec fn member_pos(&self) -> nat {
        self.member_pos as nat
    }

    /// Number of times that a byte can still be shifted out before the size
    /// of the member would pass 64 bits.
    pub open spec fn budget(&self) -> int {
        u64::MAX - self.member_pos() - self@.ff_count
    }

    /// The bytes put out and not read yet.
    pub open spec fn pending(&self) -> Seq<u8> {
        self.stream().skip(self.drained() as int)
    }

    /// The queue holds the end of the stream, and the interval is
    /// well-formed.
    pub closed spec fn wf(&self) -> bool {
        &&& self.head <= self.queue@.len()
        &&& self.drained@ <= self.stream@.len()
        &&& self.payload_start@ <= self.stream@.len()
        &&& self.queue@.skip(self.head as int) == self.stream@.skip(self.drained@ as int)
        &&& self@.wf()
        &&& self.member_pos + self.ff_count <= u64::MAX
        &&& self.member_pos <= self.stream@.len()
    }

    /// The invariant, in terms a caller can use.
    pub proof fn lemma_wf(&self)
        requires
            self.wf(),
        ensures
            self@.wf(),
            self.drained() <= self.stream().len(),
            self.payload_start() <= self.stream().len(),
            self@.out == self.stream().skip(self.payload_start() as int),
            self.budget() >= 0,
            self.member_pos() <= self.stream().len(),
    {
    }

    /// Flushing leaves nothing held back.
    pub proof fn lemma_flushed(re: Re)
        requires
            re.wf(),
        ensures
            re_flush(re).low == 0,
            re_flush(re).cache == 0,
            re_flush(re).ff_count == 0,
            re_flush(re).range == re_normalize(re).range,
    {
        let s0 = re_normalize(re);
        let s1 = re_shift_low(s0);
        let s2 = re_shift_low(s1);
        let s3 = re_shift_low(s2);
        let s4 = re_shift_low(s3);
        assert(s1.low % 0x100 == 0);
        assert(s2.low % 0x1_0000 == 0);
        assert(s3.low % 0x100_0000 == 0);
        assert(s4.low == 0);
    }

    /// An encoder with an empty queue, at the start of a payload.
    pub fn new() -> (re: RangeEncoder)
        ensures
            re.wf(),
            re@ == re_init(),
            re.stream() == Seq::<u8>::empty(),
            re.drained() == 0,
            re.payload_start() == 0,
            re.member_pos() == 0,
    {
        let re = RangeEncoder {
            queue: Vec::new(),
            head: 0,
            low: 0,
            range: 0xFFFF_FFFF,
            cache: 0,
            ff_count: 0,
            member_pos: 0,
            stream: Ghost(Seq::empty()),
            drained: Ghost(0),
            payload_start: Ghost(0),
        };
        assert(re.stream@.skip(0) =~= Seq::<u8>::empty());
        assert(re.queue@.skip(0) =~= Seq::<u8>::empty());
        re
    }

    /// Number of bytes put out of the member at hand, those held back but
    /// for the cache included.
    pub fn member_position(&self) -> (n: u64)
        requires
            self.wf(),
        ensures
            n == self.member_pos() + self@.ff_count,
    {
        self.member_pos + self.ff_count
    }

    /// Number of bytes put out and not read yet.
    pub fn used_bytes(&self) -> (n: usize)
        requires
            self.wf(),
        ensures
            n == self.pending().len(),
    {
        self.queue.len() - self.head
    }

    /// Whether at least `n` more bytes can be shifted out.
    pub fn has_budget(&self, n: usize) -> (b: bool)
        requires
            self.wf(),
        ensures
            b == (self.budget() >= n),
    {
        let left: u64 = u64::MAX - self.member_pos - self.ff_count;
        left >= n as u64
    }

    /// Puts one byte into the queue.
    fn put(&mut self, b: u8)
        requires
            old(self).wf(),
            old(self).member_pos + old(self).ff_count < u64::MAX,
        ensures
            final(self).wf(),
            final(self).stream() == old(self).stream().push(b),
            final(self).drained() == old(self).drained(),
            final(self).payload_start() == old(self).payload_start(),
            final(self).member_pos == old(self).member_pos + 1,
            final(self).low == old(self).low,
            final(self).range == old(self).range,
            final(self).cache == old(self).cache,
            final(self).ff_count == old(self).ff_count,
            final(self)@.out == old(self)@.out.push(b),
    {
        self.queue.push(b);
        self.member_pos = self.member_pos + 1;
        self.stream = Ghost(self.stream@.push(b));
        proof {
            assert(self.queue@.skip(self.head as int) =~= old(self).queue@.skip(
                self.head as int,
            ).push(b));
            assert(self.stream@.skip(self.drained@ as int) =~= old(self).stream@.skip(
                self.drained@ as int,
            ).push(b));
            assert(self@.out =~= old(self)@.out.push(b));
        }
    }

    /// Puts the bytes of `data` into the queue as they are; the payload, if
    /// one follows, starts after them.
    pub fn put_bytes(&mut self, data: &[u8])
        requires
            old(self).wf(),
            old(self).budget() >= data@.len(),
        ensures
            final(self).wf(),
            final(self).stream() == old(self).stream() + data@,
            final(self).drained() == old(self).drained(),
            final(self).payload_start() == final(self).stream().len(),
            final(self).member_pos() == old(self).member_pos() + data@.len(),
            final(self)@ == (Re { out: Seq::<u8>::empty(), ..old(self)@ }),
    {
        let n: usize = data.len();
        let mut i: usize = 0;
        proof {
            assert(old(self).stream() + data@.subrange(0, 0) =~= old(self).stream());
        }
        while i < n
            invariant
                self.wf(),
                i <= n,
                n == data@.len(),
                self.stream() == old(self).stream() + data@.subrange(0, i as int),
                self.drained() == old(self).drained(),
                self.member_pos == old(self).member_pos + i,
                self.low == old(self).low,
                self.range == old(self).range,
                self.cache == old(self).cache,
                self.ff_count == old(self).ff_count,
                old(self).budget() >= n,
                old(self).wf(),
            decreases n - i,
        {
            self.put(data[i]);
            i = i + 1;
            assert(self.stream() =~= old(self).stream() + data@.subrange(0, i as int));
        }
        self.payload_start = Ghost(self.stream@.len());
        proof {
            assert(data@.subrange(0, n as int) =~= data@);
            assert(self@.out =~= Seq::<u8>::empty());
        }
    }

    /// Starts a new member: the queue keeps what it holds, the interval
    /// starts over, and the position in the member is 0 again.
    pub fn reset(&mut self)
        requires
            old(self).wf(),
        ensures
            final(self).wf(),
            final(self)@ == re_init(),
            final(self).stream() == old(self).stream(),
            final(self).drained() == old(self).drained(),
            final(self).payload_start() == final(self).stream().len(),
            final(self).member_pos() == 0,
    {
        self.low = 0;
        self.range = 0xFFFF_FFFF;
        self.cache = 0;
        self.ff_count = 0;
        self.member_pos = 0;
        self.payload_start = Ghost(self.stream@.len());
        proof {
            assert(self@.out =~= Seq::<u8>::empty());
        }
    }

    /// Drops from the queue what was read of it.
    fn compact(&mut self)
        requires
            old(self).wf(),
        ensures
            final(self).wf(),
            final(self)@ == old(self)@,
            final(self).stream() == old(self).stream(),
            final(self).drained() == old(self).drained(),
            final(self).payload_start() == old(self).payload_start(),
            final(self).member_pos() == old(self).member_pos(),
            final(self).head == 0,
    {
        let h: usize = self.head;
        let n: usize = self.queue.len() - h;
        let ghost q0 = self.queue@;
        let mut i: usize = 0;
        while i < n
            invariant
                i <= n,
                h + n == q0.len(),
                q0.len() <= usize::MAX,
                h == old(self).head,
                q0 == old(self).queue@,
                self.queue@.len() == q0.len(),
                forall|j: int| 0 <= j < i ==> self.queue@[j] == q0[h + j],
                forall|j: int| i <= j < q0.len() ==> self.queue@[j] == q0[j],
                self.low == old(self).low,
                self.range == old(self).range,
                self.cache == old(self).cache,
                self.ff_count == old(self).ff_count,
                self.member_pos == old(self).member_pos,
                self.stream == old(self).stream,
                self.drained == old(self).drained,
                self.payload_start == old(self).payload_start,
            decreases n - i,
        {
            let b: u8 = self.queue[h + i];
            self.queue[i] = b;
            i = i + 1;
        }
        self.queue.truncate(n);
        self.head = 0;
        proof {
            assert(self.queue@.skip(0) =~= q0.skip(h as int));
        }
    }

    /// Moves as many of the pending bytes as fit into `out[from..]`, and
    /// returns how many were moved.
    pub fn read_data(&mut self, out: &mut [u8], from: usize) -> (n: usize)
        requires
            old(self).wf(),
            from <= old(out)@.len(),
        ensures
            final(self).wf(),
            final(self)@ == old(self)@,
            final(self).stream() == old(self).stream(),
            final(self).payload_start() == old(self).payload_start(),
            final(self).member_pos() == old(self).member_pos(),
            n == if old(out)@.len() - from <= old(self).pending().len() {
                old(out)@.len() - from
            } else {
                old(self).pending().len() as int
            },
            final(self).drained() == old(self).drained() + n,
            final(out)@.len() == old(out)@.len(),
            final(out)@.subrange(from as int, from + n) == old(self).pending().subrange(
                0,
                n as int,
            ),
            final(out)@.subrange(0, from as int) == old(out)@.subrange(0, from as int),
            final(out)@.subrange(from + n, old(out)@.len() as int) == old(out)@.subrange(
                from + n,
                old(out)@.len() as int,
            ),
    {
        let total: usize = out.len();
        let qlen: usize = self.queue.len();
        let used: usize = qlen - self.head;
        let n: usize = if total - from <= used {
            total - from
        } else {
            used
        };
        let mut i: usize = 0;
        proof {
            assert(out@.subrange(from as int, from as int) =~= Seq::<u8>::empty());
            assert(old(self).pending().subrange(0, 0) =~= Seq::<u8>::empty());
        }
        while i < n
            invariant
                self.wf(),
                self@ == old(self)@,
                self.stream() == old(self).stream(),
                self.payload_start() == old(self).payload_start(),
                self.member_pos() == old(self).member_pos(),
                self.queue@.len() == qlen,
                i <= n,
                from + n <= total,
                total == out@.len(),
                out@.len() == old(out)@.len(),
                n <= old(self).pending().len(),
                self.drained() == old(self).drained() + i,
                out@.subrange(from as int, from + i) == old(self).pending().subrange(0, i as int),
                out@.subrange(0, from as int) == old(out)@.subrange(0, from as int),
                out@.subrange(from + i, total as int) == old(out)@.subrange(from + i, total as int),
            decreases n - i,
        {
            let ghost before = out@;
            let ghost pend = old(self).pending();
            let ghost q = self.queue@.skip(self.head as int);
            assert(q == self.stream@.skip(self.drained@ as int));
            assert(q.len() == old(self).pending().len() - i);
            assert(self.queue@.len() <= usize::MAX);
            assert(q[0] == self.queue@[self.head as int]);
            let b: u8 = self.queue[self.head];
            out[from + i] = b;
            self.head = self.head + 1;
            self.drained = Ghost((self.drained@ + 1) as nat);
            i = i + 1;
            proof {
                assert(self.queue@.skip(self.head as int) =~= q.skip(1));
                assert(self.stream@.skip(self.drained@ as int) =~= q.skip(1));
                assert(b == pend[i - 1]);
                assert(out@.subrange(from as int, from + i) =~= before.subrange(
                    from as int,
                    from + i - 1,
                ).push(b));
                assert(pend.subrange(0, i as int) =~= pend.subrange(0, i - 1).push(b));
                assert(out@.subrange(0, from as int) =~= before.subrange(0, from as int));
                assert(out@.subrange(from + i, total as int) =~= before.subrange(
                    from + i - 1,
                    total as int,
                ).skip(1));
                assert(old(out)@.subrange(from + i, total as int) =~= old(out)@.subrange(
                    from + i - 1,
                    total as int,
                ).skip(1));
            }
        }
        if self.head >= RE_BUFFER_SIZE || self.head == self.queue.len() {
            self.compact();
        }
        n
    }

    /// Moves all the pending bytes to the end of `out`.
    pub fn drain_to(&mut self, out: &mut Vec<u8>)
        requires
            old(self).wf(),
        ensures
            final(self).wf(),
            final(self)@ == old(self)@,
            final(self).stream() == old(self).stream(),
            final(self).payload_start() == old(self).payload_start(),
            final(self).member_pos() == old(self).member_pos(),
            final(self).drained() == final(self).stream().len(),
            final(out)@ == old(out)@ + old(self).pending(),
    {
        let n: usize = self.queue.len();
        let h: usize = self.head;
        let mut i: usize = h;
        proof {
            assert(self.queue@.subrange(h as int, h as int) =~= Seq::<u8>::empty());
            assert(old(out)@ + Seq::<u8>::empty() =~= old(out)@);
        }
        while i < n
            invariant
                h <= i <= n,
                n == self.queue@.len(),
                out@ == old(out)@ + self.queue@.subrange(h as int, i as int),
            decreases n - i,
        {
            out.push(self.queue[i]);
            i = i + 1;
            proof {
                assert(self.queue@.subrange(h as int, i as int) =~= self.queue@.subrange(
                    h as int,
                    i - 1,
                ).push(self.queue@[i - 1]));
                assert(out@ =~= old(out)@ + self.queue@.subrange(h as int, i as int));
            }
        }
        proof {
            assert(self.queue@.subrange(h as int, n as int) =~= self.queue@.skip(h as int));
        }
        self.queue.clear();
        self.head = 0;
        self.drained = Ghost(self.stream@.len());
        proof {
            assert(self.queue@.skip(0) =~= self.stream@.skip(self.stream@.len() as int));
        }
    }

    /// Shifts the high byte out of `low`.
    fn shift_low(&mut self)
        requires
            old(self).wf(),
            old(self).budget() >= 1,
        ensures
            final(self).head <= final(self).queue@.len(),
            final(self).drained@ <= final(self).stream@.len(),
            final(self).queue@.skip(final(self).head as int) == final(self).stream@.skip(
                final(self).drained@ as int,
            ),
            final(self).member_pos + final(self).ff_count <= u64::MAX,
            final(self).member_pos <= final(self).stream@.len(),
            final(self)@ == re_shift_low(old(self)@),
            final(self).drained() == old(self).drained(),
            final(self).payload_start() == old(self).payload_start(),
            final(self).payload_start() <= final(self).stream().len(),
            final(self).stream().len() - final(self).member_pos() == old(self).stream().len() - old(
                self,
            ).member_pos(),
            final(self).stream().len() >= old(self).stream().len(),
            final(self).stream().subrange(0, old(self).stream().len() as int) == old(self).stream(),
            final(self).budget() == old(self).budget() - 1,
            final(self).member_pos() + final(self)@.ff_count == old(self).member_pos() + old(
                self,
            )@.ff_count + 1,
    {
        if self.low < 0xFF00_0000 || self.low > 0xFFFF_FFFF {
            let carry: u8 = if self.low > 0xFFFF_FFFF {
                1
            } else {
                0
            };
            let first: u8 = self.cache.wrapping_add(carry);
            let fill: u8 = 0xFFu8.wrapping_add(carry);
            let ghost ff0 = self.ff_count as nat;
            self.put(first);
            while self.ff_count > 0
                invariant
                    self.wf(),
                    self.ff_count <= ff0,
                    ff0 == old(self).ff_count,
                    self.stream() == old(self).stream().push(first) + Seq::new(
                        (ff0 - self.ff_count) as nat,
                        |i: int| fill,
                    ),
                    self.drained() == old(self).drained(),
                    self.payload_start() == old(self).payload_start(),
                    self.low == old(self).low,
                    self.range == old(self).range,
                    self.cache == old(self).cache,
                    self.member_pos == old(self).member_pos + 1 + (ff0 - self.ff_count),
                    old(self).budget() >= 1,
                    old(self).wf(),
                decreases self.ff_count,
            {
                self.ff_count = self.ff_count - 1;
                self.put(fill);
                assert(self.stream() =~= old(self).stream().push(first) + Seq::new(
                    (ff0 - self.ff_count) as nat,
                    |i: int| fill,
                ));
            }
            self.cache = ((self.low / 0x100_0000) % 256) as u8;
            proof {
                assert(self.stream@.skip(self.payload_start@ as int) =~= old(self)@.out.push(first)
                    + Seq::new(ff0, |i: int| fill));
                assert(self.stream().subrange(0, old(self).stream().len() as int) =~= old(
                    self,
                ).stream());
            }
        } else {
            self.ff_count = self.ff_count + 1;
            proof {
                assert(self.stream().subrange(0, old(self).stream().len() as int) =~= old(
                    self,
                ).stream());
            }
        }
        self.low = (self.low % 0x100_0000) * 256;
    }

    /// Widens a narrow interval by one byte.
    fn normalize(&mut self)
        requires
            old(self).wf(),
            old(self).budget() >= 1,
        ensures
            final(self).wf(),
            final(self)@ == re_normalize(old(self)@),
            final(self)@.range > TOP_RANGE,
            final(self).drained() == old(self).drained(),
            final(self).payload_start() == old(self).payload_start(),
            final(self).stream().len() - final(self).member_pos() == old(self).stream().len() - old(
                self,
            ).member_pos(),
            final(self).stream().len() >= old(self).stream().len(),
            final(self).stream().subrange(0, old(self).stream().len() as int) == old(self).stream(),
            final(self).budget() >= old(self).budget() - 1,
            final(self).member_pos() + final(self)@.ff_count <= old(self).member_pos() + old(
                self,
            )@.ff_count + 1,
    {
        if self.range <= TOP_RANGE {
            self.shift_low();
            self.range = self.range * 256;
        } else {
            assert(self.stream().subrange(0, self.stream().len() as int) =~= self.stream());
        }
    }

    /// What every encoding step keeps: the encoder well-formed, the bytes
    /// read and the start of the payload where they were, and the stream
    /// growing at its end by no more than one byte for each bit.
    pub open spec fn extends(&self, prev: RangeEncoder, bits: int) -> bool {
        &&& self.wf()
        &&& self.drained() == prev.drained()
        &&& self.payload_start() == prev.payload_start()
        &&& self.stream().len() - self.member_pos() == prev.stream().len() - prev.member_pos()
        &&& self.stream().len() >= prev.stream().len()
        &&& self.stream().subrange(0, prev.stream().len() as int) == prev.stream()
        &&& self.budget() >= prev.budget() - bits
        &&& self.member_pos() + self@.ff_count <= prev.member_pos() + prev@.ff_count + bits
    }

    /// Steps that each keep what `extends` states keep it together.
    pub proof fn lemma_extends_trans(
        a: RangeEncoder,
        b: RangeEncoder,
        c: RangeEncoder,
        k1: int,
        k2: int,
    )
        requires
            b.extends(a, k1),
            c.extends(b, k2),
        ensures
            c.extends(a, k1 + k2),
    {
        let n = a.stream().len() as int;
        assert forall|j: int| 0 <= j < n implies c.stream()[j] == a.stream()[j] by {
            assert(c.stream().subrange(0, b.stream().len() as int)[j] == c.stream()[j]);
            assert(b.stream().subrange(0, n)[j] == b.stream()[j]);
        }
        assert(c.stream().subrange(0, n) =~= a.stream());
    }

    /// Encodes one bit with the model `probs[idx]`, and updates the model.
    pub fn encode_bit(&mut self, probs: &mut Vec<u32>, idx: usize, bit: bool)
        requires
            old(self).wf(),
            old(self).budget() >= 1,
            valid_probs(old(probs)@),
            idx < old(probs)@.len(),
        ensures
            final(self).extends(*old(self), 1),
            valid_probs(final(probs)@),
            final(self)@ == re_event(old(self)@, Ev::Bit { prob: old(probs)@[idx as int], bit }),
            final(probs)@ == old(probs)@.update(
                idx as int,
                bm_update(old(probs)@[idx as int], bit),
            ),
    {
        self.normalize();
        let p: u32 = probs[idx];
        proof {
            lemma_bound(self.range, p);
            lemma_valid_probs_update(old(probs)@, idx as int, bit);
        }
        let bound: u32 = (self.range / 2048) * p;
        if bit {
            self.low = self.low + bound as u64;
            self.range = self.range - bound;
            probs[idx] = p - p / 32;
        } else {
            self.range = bound;
            probs[idx] = p + (2048 - p) / 32;
        }
    }

    /// Encodes the `n` low bits of `sym`, the highest first, through the bit
    /// tree at `probs[base..]`.
    pub fn encode_tree(&mut self, probs: &mut Vec<u32>, base: usize, n: u32, sym: u32)
        requires
            old(self).wf(),
            old(self).budget() >= n,
            valid_probs(old(probs)@),
            1 <= n <= 16,
            base + pow2(n as nat) <= old(probs)@.len(),
        ensures
            final(self).extends(*old(self), n as int),
            valid_probs(final(probs)@),
            final(probs)@.len() == old(probs)@.len(),
            final(self)@ == re_events(
                old(self)@,
                tree_events(old(probs)@, base as int, 1, sym as int, pow2((n - 1) as nat) as int).0,
            ),
            final(probs)@ == tree_events(
                old(probs)@,
                base as int,
                1,
                sym as int,
                pow2((n - 1) as nat) as int,
            ).1,
    {
        let plen: usize = probs.len();
        proof {
            lemma2_to64();
            lemma_pow2_strictly_increases((n - 1) as nat, 16);
            vstd::bits::lemma_u32_shl_is_mul(1, (n - 1) as u32);
            assert(self.stream().subrange(0, self.stream().len() as int) =~= self.stream());
        }
        let mut mask: u32 = 1u32 << (n - 1);
        let mut m: u32 = 1;
        let mut i: u32 = 0;
        let ghost target = tree_events(
            old(probs)@,
            base as int,
            1,
            sym as int,
            pow2((n - 1) as nat) as int,
        );
        while i < n
            invariant
                self.extends(*old(self), i as int),
                old(self).budget() >= n,
                valid_probs(probs@),
                probs@.len() == plen,
                plen == old(probs)@.len(),
                i <= n <= 16,
                base + pow2(n as nat) <= plen,
                i < n ==> mask == pow2((n - 1 - i) as nat),
                i == n ==> mask == 0,
                i < n ==> mask > 0,
                pow2(i as nat) <= m < 2 * pow2(i as nat),
                re_events(self@, tree_events(probs@, base as int, m as int, sym as int, mask as int).0)
                    == re_events(old(self)@, target.0),
                tree_events(probs@, base as int, m as int, sym as int, mask as int).1 == target.1,
            decreases n - i,
        {
            let bit: bool = (sym / mask) % 2 == 1;
            proof {
                lemma2_to64();
                lemma_pow2_unfold((i + 1) as nat);
                if i + 1 < n {
                    lemma_pow2_strictly_increases((i + 1) as nat, n as nat);
                    lemma_pow2_unfold((n - 1 - i) as nat);
                }
                let p = probs@[base + m];
                let r = tree_events(
                    probs@.update(base + m, bm_update(p, bit)),
                    base as int,
                    2 * m + b2i(bit),
                    sym as int,
                    mask as int / 2,
                );
                lemma_re_events_cons(self@, Ev::Bit { prob: p, bit }, r.0);
            }
            let ghost prev = *self;
            self.encode_bit(probs, base + m as usize, bit);
            proof {
                Self::lemma_extends_trans(*old(self), prev, *self, i as int, 1);
            }
            m = 2 * m + if bit {
                1
            } else {
                0
            };
            mask = mask / 2;
            i = i + 1;
        }
    }

    /// Encodes the `n` low bits of `sym`, the lowest first, through the bit
    /// tree at `probs[base..]`.
    pub fn encode_tree_reversed(&mut self, probs: &mut Vec<u32>, base: usize, n: u32, sym: u32)
        requires
            old(self).wf(),
            old(self).budget() >= n,
            valid_probs(old(probs)@),
            n <= 16,
            base + pow2(n as nat) <= old(probs)@.len(),
        ensures
            final(self).extends(*old(self), n as int),
            valid_probs(final(probs)@),
            final(probs)@.len() == old(probs)@.len(),
            final(self)@ == re_events(
                old(self)@,
                tree_reversed_events(old(probs)@, base as int, 1, sym as int, n as nat).0,
            ),
            final(probs)@ == tree_reversed_events(
                old(probs)@,
                base as int,
                1,
                sym as int,
                n as nat,
            ).1,
    {
        let plen: usize = probs.len();
        proof {
            lemma2_to64();
            assert(self.stream().subrange(0, self.stream().len() as int) =~= self.stream());
        }
        let mut s: u32 = sym;
        let mut m: u32 = 1;
        let mut i: u32 = 0;
        let ghost target = tree_reversed_events(old(probs)@, base as int, 1, sym as int, n as nat);
        while i < n
            invariant
                self.extends(*old(self), i as int),
                old(self).budget() >= n,
                valid_probs(probs@),
                probs@.len() == plen,
                plen == old(probs)@.len(),
                i <= n <= 16,
                base + pow2(n as nat) <= plen,
                pow2(i as nat) <= m < 2 * pow2(i as nat),
                re_events(
                    self@,
                    tree_reversed_events(probs@, base as int, m as int, s as int, (n - i) as nat).0,
                ) == re_events(old(self)@, target.0),
                tree_reversed_events(probs@, base as int, m as int, s as int, (n - i) as nat).1
                    == target.1,
            decreases n - i,
        {
            let bit: bool = s % 2 == 1;
            proof {
                lemma2_to64();
                lemma_pow2_unfold((i + 1) as nat);
                if i + 1 < n {
                    lemma_pow2_strictly_increases((i + 1) as nat, n as nat);
                }
                let p = probs@[base + m];
                let r = tree_reversed_events(
                    probs@.update(base + m, bm_update(p, bit)),
                    base as int,
                    2 * m + b2i(bit),
                    s as int / 2,
                    (n - i - 1) as nat,
                );
                lemma_re_events_cons(self@, Ev::Bit { prob: p, bit }, r.0);
            }
            let ghost prev = *self;
            self.encode_bit(probs, base + m as usize, bit);
            proof {
                Self::lemma_extends_trans(*old(self), prev, *self, i as int, 1);
            }
            m = 2 * m + if bit {
                1
            } else {
                0
            };
            s = s / 2;
            i = i + 1;
        }
    }

    /// Encodes the `n` low bits of `sym`, the highest first, each with
    /// probability one half.
    pub fn encode_direct(&mut self, sym: u32, n: u32)
        requires
            old(self).wf(),
            old(self).budget() >= n,
            n <= 31,
        ensures
            final(self).extends(*old(self), n as int),
            final(self)@ == re_events(
                old(self)@,
                direct_events(
                    sym as int,
                    if n == 0 {
                        0
                    } else {
                        pow2((n - 1) as nat) as int
                    },
                ),
            ),
    {
        proof {
            lemma2_to64();
            assert(self.stream().subrange(0, self.stream().len() as int) =~= self.stream());
            if n > 0 {
                lemma_pow2_strictly_increases((n - 1) as nat, 31);
                vstd::bits::lemma_u32_shl_is_mul(1, (n - 1) as u32);
            }
        }
        let mut mask: u32 = if n == 0 {
            0
        } else {
            1u32 << (n - 1)
        };
        let mut i: u32 = 0;
        let ghost target = direct_events(sym as int, mask as int);
        while i < n
            invariant
                self.extends(*old(self), i as int),
                old(self).budget() >= n,
                i <= n <= 31,
                i < n ==> mask == pow2((n - 1 - i) as nat),
                i == n ==> mask == 0,
                i < n ==> mask > 0,
                re_events(self@, direct_events(sym as int, mask as int)) == re_events(
                    old(self)@,
                    target,
                ),
            decreases n - i,
        {
            let bit: bool = (sym / mask) % 2 == 1;
            proof {
                lemma2_to64();
                if i + 1 < n {
                    lemma_pow2_unfold((n - 1 - i) as nat);
                }
                lemma_re_events_cons(
                    self@,
                    Ev::Direct { bit },
                    direct_events(sym as int, mask as int / 2),
                );
            }
            let ghost prev = *self;
            self.normalize();
            let half: u32 = self.range / 2;
            if bit {
                self.low = self.low + half as u64;
            }
            self.range = half;
            proof {
                assert(self.extends(prev, 1));
                Self::lemma_extends_trans(*old(self), prev, *self, i as int, 1);
            }
            mask = mask / 2;
            i = i + 1;
        }
    }

    /// Encodes a literal that follows a match, through the 768 models at
    /// `probs[base..]`; `match_byte` is the byte the last distance points at.
    pub fn encode_matched(&mut self, probs: &mut Vec<u32>, base: usize, sym: u8, match_byte: u8)
        requires
            old(self).wf(),
            old(self).budget() >= 8,
            valid_probs(old(probs)@),
            base + 0x300 <= old(probs)@.len(),
        ensures
            final(self).extends(*old(self), 8),
            valid_probs(final(probs)@),
            final(probs)@.len() == old(probs)@.len(),
            final(self)@ == re_events(
                old(self)@,
                matched_events(
                    old(probs)@,
                    base as int,
                    match_byte as int,
                    sym as int,
                    1,
                    8,
                    true,
                ).0,
            ),
            final(probs)@ == matched_events(
                old(probs)@,
                base as int,
                match_byte as int,
                sym as int,
                1,
                8,
                true,
            ).1,
    {
        let plen: usize = probs.len();
        proof {
            lemma2_to64();
            assert(self.stream().subrange(0, self.stream().len() as int) =~= self.stream());
        }
        let mut m: u32 = 1;
        let mut mb: u32 = match_byte as u32;
        let mut s: u32 = sym as u32;
        let mut matching: bool = true;
        let mut i: u32 = 0;
        let ghost target = matched_events(
            old(probs)@,
            base as int,
            match_byte as int,
            sym as int,
            1,
            8,
            true,
        );
        while i < 8
            invariant
                self.extends(*old(self), i as int),
                old(self).budget() >= 8,
                valid_probs(probs@),
                probs@.len() == plen,
                plen == old(probs)@.len(),
                base + 0x300 <= plen,
                i <= 8,
                mb < 256,
                s < 256,
                pow2(i as nat) <= m < 2 * pow2(i as nat),
                re_events(
                    self@,
                    matched_events(
                        probs@,
                        base as int,
                        mb as int,
                        s as int,
                        m as int,
                        (8 - i) as nat,
                        matching,
                    ).0,
                ) == re_events(old(self)@, target.0),
                matched_events(
                    probs@,
                    base as int,
                    mb as int,
                    s as int,
                    m as int,
                    (8 - i) as nat,
                    matching,
                ).1 == target.1,
            decreases 8 - i,
        {
            let match_bit: u32 = mb / 128;
            let b: u32 = s / 128;
            let bit: bool = b == 1;
            let idx: usize = if matching {
                proof {
                    lemma2_to64();
                    lemma_pow2_unfold((i + 1) as nat);
                    if i < 7 {
                        lemma_pow2_strictly_increases((i + 1) as nat, 8);
                    }
                }
                base + 0x100 + 0x100 * match_bit as usize + m as usize
            } else {
                proof {
                    lemma2_to64();
                    lemma_pow2_unfold((i + 1) as nat);
                    if i < 7 {
                        lemma_pow2_strictly_increases((i + 1) as nat, 8);
                    }
                }
                base + m as usize
            };
            proof {
                let p = probs@[idx as int];
                let r = matched_events(
                    probs@.update(idx as int, bm_update(p, bit)),
                    base as int,
                    (mb % 128) * 2,
                    (s % 128) * 2,
                    2 * m + b2i(bit),
                    (8 - i - 1) as nat,
                    matching && b2i(bit) == match_bit,
                );
                lemma_re_events_cons(self@, Ev::Bit { prob: p, bit }, r.0);
            }
            let ghost prev = *self;
            self.encode_bit(probs, idx, bit);
            proof {
                Self::lemma_extends_trans(*old(self), prev, *self, i as int, 1);
            }
            m = 2 * m + b;
            matching = matching && b == match_bit;
            mb = (mb % 128) * 2;
            s = (s % 128) * 2;
            i = i + 1;
        }
    }

    /// Ends a payload: puts out all that is held back and the four bytes of
    /// `low`.
    pub fn flush(&mut self)
        requires
            old(self).wf(),
            old(self).budget() >= 6,
        ensures
            final(self).extends(*old(self), 6),
            final(self)@ == re_flush(old(self)@),
    {
        proof {
            assert(self.stream().subrange(0, self.stream().len() as int) =~= self.stream());
            lemma_shift_low(re_normalize(self@));
            lemma_shift_low(re_shift_low(re_normalize(self@)));
            lemma_shift_low(re_shift_low(re_shift_low(re_normalize(self@))));
            lemma_shift_low(re_shift_low(re_shift_low(re_shift_low(re_normalize(self@)))));
        }
        self.normalize();
        let mut i: u32 = 0;
        let ghost start = self@;
        while i < 5
            invariant
                i <= 5,
                self.extends(*old(self), 1 + i),
                self@.low <= 0xFFFF_FFFF || i == 0,
                old(self).budget() >= 6,
                start == re_normalize(old(self)@),
                i == 0 ==> self@ == start,
                i == 1 ==> self@ == re_shift_low(start),
                i == 2 ==> self@ == re_shift_low(re_shift_low(start)),
                i == 3 ==> self@ == re_shift_low(re_shift_low(re_shift_low(start))),
                i == 4 ==> self@ == re_shift_low(re_shift_low(re_shift_low(re_shift_low(start)))),
                i == 5 ==> self@ == re_flush(old(self)@),
            decreases 5 - i,
        {
            proof {
                lemma_shift_low(self@);
            }
            let ghost prev = *self;
            self.shift_low();
            proof {
                assert(self.extends(prev, 1));
                Self::lemma_extends_trans(*old(self), prev, *self, 1 + i, 1);
            }
            i = i + 1;
        }
    }
}

} // verus!
