//! Why the range decoder reads back what the range encoder wrote.
//!
//! The encoder stands at a number, the big-endian value of the bytes it has
//! put out or holds back, and the decoder's code is the distance from that
//! number to the value of the bytes it has read. The bytes that the encoder
//! ends up putting out lie in every interval it went through, and so the
//! decoder, which goes through the same intervals, sees in each of them on
//! which side of the bound its code lies.

use vstd::prelude::*;
use crate::bit_model::valid_prob;
use crate::range_decoder::{
    Rd,
    rd_take_byte,
    rd_normalize,
    rd_bit,
    rd_direct_bit,
    lemma_bound,
    TOP_RANGE,
};
use crate::range_encoder::{
    Ev,
    Re,
    re_init,
    re_shift_low,
    re_normalize,
    re_event,
    re_events,
    re_flush,
    lemma_re_events_concat,
};

verus! {

/// The value of a run of bytes, the first the most significant.
pub open spec fn be_value(s: Seq<u8>) -> int
    decreases s.len(),
{
    if s.len() == 0 {
        0
    } else {
        be_value(s.drop_last()) * 256 + s.last()
    }
}

/// `k` bytes `b`.
pub open spec fn run_of(b: u8, k: nat) -> Seq<u8> {
    Seq::new(k, |i: int| b)
}

/// `256^n`.
pub open spec fn pow256(n: nat) -> int
    decreases n,
{
    if n == 0 {
        1
    } else {
        256 * pow256((n - 1) as nat)
    }
}

/// The bytes that the encoder has put out or holds back.
pub open spec fn re_held(re: Re) -> Seq<u8> {
    re.out.push(re.cache) + run_of(0xFF, re.ff_count)
}

/// The number that the encoder stands at: the low end of its interval,
/// with all the bytes before it.
pub open spec fn re_value(re: Re) -> int {
    be_value(re_held(re)) * 0x1_0000_0000 + re.low
}

/// The value of the bytes that the encoder holds back.
pub open spec fn re_tail(re: Re) -> int {
    be_value(seq![re.cache] + run_of(0xFF, re.ff_count))
}

/// The encoder is well-formed, and its interval ends before the bytes it
/// holds back would overflow: a carry never reaches a byte that was put out.
pub open spec fn re_inv(re: Re) -> bool {
    &&& re.wf()
    &&& re_tail(re) * 0x1_0000_0000 + re.low + re.range <= pow256(re.ff_count + 1)
        * 0x1_0000_0000
}

/// The value of a run of bytes with one more byte.
pub proof fn lemma_be_push(s: Seq<u8>, b: u8)
    ensures
        be_value(s.push(b)) == be_value(s) * 256 + b,
{
    assert(s.push(b).drop_last() =~= s);
}

/// The value of a run that ends in `0xFF` bytes, one more of them.
pub proof fn lemma_run_push(s: Seq<u8>, b: u8, k: nat)
    ensures
        s + run_of(b, k + 1) == (s + run_of(b, k)).push(b),
{
    assert(s + run_of(b, k + 1) =~= (s + run_of(b, k)).push(b));
}

/// One more than a run that ends in `0xFF` bytes is the run with its last
/// other byte one higher and zeros in their place.
pub proof fn lemma_carry(s: Seq<u8>, c: u8, k: nat)
    requires
        c < 255,
    ensures
        be_value(s.push((c + 1) as u8) + run_of(0, k)) == be_value(s.push(c) + run_of(0xFF, k))
            + 1,
    decreases k,
{
    if k == 0 {
        assert(s.push((c + 1) as u8) + run_of(0, 0) =~= s.push((c + 1) as u8));
        assert(s.push(c) + run_of(0xFF, 0) =~= s.push(c));
        lemma_be_push(s, c);
        lemma_be_push(s, (c + 1) as u8);
    } else {
        lemma_carry(s, c, (k - 1) as nat);
        lemma_run_push(s.push((c + 1) as u8), 0, (k - 1) as nat);
        lemma_run_push(s.push(c), 0xFF, (k - 1) as nat);
        lemma_be_push(s.push((c + 1) as u8) + run_of(0, (k - 1) as nat), 0);
        lemma_be_push(s.push(c) + run_of(0xFF, (k - 1) as nat), 0xFF);
    }
}

/// One more than the value of a byte and a run of `0xFF` bytes is the byte
/// and one, times a power of 256.
pub proof fn lemma_tail(c: u8, k: nat)
    ensures
        be_value(seq![c] + run_of(0xFF, k)) + 1 == (c + 1) * pow256(k),
        pow256(k) >= 1,
    decreases k,
{
    if k == 0 {
        assert(seq![c] + run_of(0xFF, 0) =~= Seq::<u8>::empty().push(c));
        lemma_be_push(Seq::<u8>::empty(), c);
    } else {
        lemma_tail(c, (k - 1) as nat);
        lemma_run_push(seq![c], 0xFF, (k - 1) as nat);
        lemma_be_push(seq![c] + run_of(0xFF, (k - 1) as nat), 0xFF);
        let t = be_value(seq![c] + run_of(0xFF, (k - 1) as nat));
        let p = pow256((k - 1) as nat);
        assert((t * 256 + 255) + 1 == (c + 1) * (256 * p)) by (nonlinear_arith)
            requires
                t + 1 == (c + 1) * p,
        ;
    }
}

/// Widening multiplies the number that the encoder stands at by 256, adds
/// one to the count of its bytes, and keeps the invariant.
pub proof fn lemma_normalize_value(re: Re)
    requires
        re_inv(re),
        re.range <= TOP_RANGE,
    ensures
        re_value(re_normalize(re)) == 256 * re_value(re),
        re_normalize(re).len() == re.len() + 1,
        re_normalize(re).range == 256 * re.range,
        re_inv(re_normalize(re)),
{
    let n = re_normalize(re);
    let held = re_held(re);
    let k = re.ff_count;
    lemma_tail(re.cache, k);
    if re.low < 0xFF00_0000 || re.low > 0xFFFF_FFFF {
        let carry: int = if re.low > 0xFFFF_FFFF {
            1
        } else {
            0
        };
        if carry == 1 {
            let t = re_tail(re);
            let p = pow256(k);
            assert(re.cache + 1 < 256) by (nonlinear_arith)
                requires
                    t + 1 == (re.cache + 1) * p,
                    t * 0x1_0000_0000 + re.low + re.range <= (256 * p) * 0x1_0000_0000,
                    re.low >= 0x1_0000_0000,
                    re.range >= 1,
                    p >= 1,
            ;
            lemma_carry(re.out, re.cache, k);
            assert(n.out =~= re.out.push((re.cache + 1) as u8) + run_of(0, k));
        } else {
            assert(n.out =~= held);
        }
        assert(re_held(n) =~= n.out.push(n.cache));
        lemma_be_push(n.out, n.cache);
        assert(seq![n.cache] + run_of(0xFF, 0) =~= Seq::<u8>::empty().push(n.cache));
        lemma_be_push(Seq::<u8>::empty(), n.cache);
        assert(pow256(1) == 256) by {
            reveal_with_fuel(pow256, 2);
        }
    } else {
        lemma_run_push(re.out.push(re.cache), 0xFF, k);
        lemma_be_push(held, 0xFF);
        lemma_run_push(seq![re.cache], 0xFF, k);
        lemma_be_push(seq![re.cache] + run_of(0xFF, k), 0xFF);
        assert(pow256(k + 2) == 256 * pow256(k + 1));
    }
}

/// Every state that the encoder goes through keeps the invariant.
pub proof fn lemma_event_inv(re: Re, ev: Ev)
    requires
        re_inv(re),
        ev matches Ev::Bit { prob, bit } ==> valid_prob(prob),
    ensures
        re_inv(re_normalize(re)),
        re_normalize(re).range > TOP_RANGE,
        re_inv(re_event(re, ev)),
        re_value(re_event(re, ev)) >= re_value(re_normalize(re)),
        re_value(re_event(re, ev)) + re_event(re, ev).range <= re_value(re_normalize(re))
            + re_normalize(re).range,
        re_event(re, ev).len() == re_normalize(re).len(),
{
    let n = re_normalize(re);
    if re.range <= TOP_RANGE {
        lemma_normalize_value(re);
    }
    match ev {
        Ev::Bit { prob, bit } => {
            lemma_bound(n.range, prob);
        },
        Ev::Direct { bit } => {},
    }
    assert(re_held(re_event(re, ev)) == re_held(n));
    assert(re_tail(re_event(re, ev)) == re_tail(n));
}

/// The encoder at the start of a payload keeps the invariant.
pub proof fn lemma_init_inv()
    ensures
        re_inv(re_init()),
        re_value(re_init()) == 0,
{
    let re = re_init();
    assert(re_held(re) =~= Seq::<u8>::empty().push(0u8));
    lemma_be_push(Seq::<u8>::empty(), 0u8);
    assert(seq![0u8] + run_of(0xFF, 0) =~= Seq::<u8>::empty().push(0u8));
    assert(pow256(1) == 256) by {
        reveal_with_fuel(pow256, 2);
    }
}

/// Whether the bytes `f` end up in the interval that the encoder stands at:
/// the first bytes of `f`, as many as the encoder has, are a number within
/// it.
pub open spec fn completes(re: Re, f: Seq<u8>) -> bool {
    &&& re.len() <= f.len()
    &&& re_value(re) <= be_value(f.subrange(0, re.len() as int)) < re_value(re) + re.range
}

/// The decoder that reads `f` in step with the encoder: it has read as many
/// bytes as the encoder has, and its code is how far their value lies into
/// the encoder's interval.
pub open spec fn rd_of(re: Re, f: Seq<u8>) -> Rd {
    Rd {
        code: (be_value(f.subrange(0, re.len() as int)) - re_value(re)) as u32,
        range: re.range,
        input: f.skip(re.len() as int),
        starved: false,
    }
}

/// Bytes that end up in the interval after a widening were in the interval
/// before it, and the decoder in step widens to the decoder in step.
pub proof fn lemma_normalize_sync(re: Re, f: Seq<u8>)
    requires
        re_inv(re),
        completes(re_normalize(re), f),
    ensures
        completes(re, f),
        rd_normalize(rd_of(re, f)) == rd_of(re_normalize(re), f),
        rd_of(re, f).wf(),
{
    let n = re_normalize(re);
    let l = re.len() as int;
    if re.range <= TOP_RANGE {
        lemma_normalize_value(re);
        let a = f.subrange(0, l);
        let b = f.subrange(0, l + 1);
        assert(b.drop_last() =~= a);
        assert(b.last() == f[l]);
        assert(be_value(b) == be_value(a) * 256 + f[l]);
        assert(f.skip(l).skip(1) =~= f.skip(l + 1));
        assert(f.skip(l)[0] == f[l]);
        assert(rd_take_byte(rd_of(re, f)) =~= rd_of(n, f));
    }
}

/// The decoder in step with the encoder decodes the bit that the encoder
/// wrote, and stays in step.
pub proof fn lemma_bit_sync(re: Re, f: Seq<u8>, prob: u32, bit: bool)
    requires
        re_inv(re),
        valid_prob(prob),
        completes(re_event(re, Ev::Bit { prob, bit }), f),
    ensures
        completes(re, f),
        rd_of(re, f).wf(),
        rd_bit(rd_of(re, f), prob) == (rd_of(re_event(re, Ev::Bit { prob, bit }), f), bit),
        re_inv(re_event(re, Ev::Bit { prob, bit })),
        rd_of(re_event(re, Ev::Bit { prob, bit }), f).wf(),
{
    let ev = Ev::Bit { prob, bit };
    let n = re_normalize(re);
    lemma_event_inv(re, ev);
    lemma_bound(n.range, prob);
    assert(completes(n, f));
    lemma_normalize_sync(re, f);
    assert(rd_bit(rd_of(re, f), prob).0 =~= rd_of(re_event(re, ev), f));
}

/// The decoder in step with the encoder decodes the bit of probability one
/// half that the encoder wrote, and stays in step.
pub proof fn lemma_direct_sync(re: Re, f: Seq<u8>, bit: bool)
    requires
        re_inv(re),
        completes(re_event(re, Ev::Direct { bit }), f),
    ensures
        completes(re, f),
        rd_of(re, f).wf(),
        rd_direct_bit(rd_of(re, f)) == (rd_of(re_event(re, Ev::Direct { bit }), f), bit, true),
        re_inv(re_event(re, Ev::Direct { bit })),
        rd_of(re_event(re, Ev::Direct { bit }), f).wf(),
{
    let ev = Ev::Direct { bit };
    let n = re_normalize(re);
    lemma_event_inv(re, ev);
    assert(completes(n, f));
    lemma_normalize_sync(re, f);
    assert(rd_direct_bit(rd_of(re, f)).0 =~= rd_of(re_event(re, ev), f));
}

/// Every event of a run has a probability that the update rule can reach.
pub open spec fn events_valid(evs: Seq<Ev>) -> bool {
    forall|i: int|
        0 <= i < evs.len() ==> (#[trigger] evs[i] matches Ev::Bit { prob, bit } ==> valid_prob(prob))
}

/// Bytes that end up in the interval after a run of events were in the
/// interval before it, and the invariant holds after the run.
pub proof fn lemma_events_back(re: Re, evs: Seq<Ev>, f: Seq<u8>)
    requires
        re_inv(re),
        events_valid(evs),
        completes(re_events(re, evs), f),
    ensures
        completes(re, f),
        re_inv(re_events(re, evs)),
    decreases evs.len(),
{
    if evs.len() > 0 {
        let e = evs[0];
        lemma_event_inv(re, e);
        assert(events_valid(evs.skip(1))) by {
            assert forall|i: int| 0 <= i < evs.skip(1).len() implies (#[trigger] evs.skip(1)[i]
                matches Ev::Bit { prob, bit } ==> valid_prob(prob)) by {
                assert(evs.skip(1)[i] == evs[i + 1]);
            }
        }
        lemma_events_back(re_event(re, e), evs.skip(1), f);
        assert(completes(re_normalize(re), f));
        lemma_normalize_sync(re, f);
    }
}

/// Bytes that end up in the interval after two runs of events were in the
/// interval between the two.
pub proof fn lemma_events_split(re: Re, a: Seq<Ev>, b: Seq<Ev>, f: Seq<u8>)
    requires
        re_inv(re),
        events_valid(a),
        events_valid(b),
        completes(re_events(re, a + b), f),
    ensures
        completes(re_events(re, a), f),
        re_inv(re_events(re, a)),
        re_events(re, a + b) == re_events(re_events(re, a), b),
{
    lemma_re_events_concat(re, a, b);
    lemma_inv_forward(re, a);
    lemma_events_back(re_events(re, a), b, f);
}

/// The invariant holds after a run of events.
pub proof fn lemma_inv_forward(re: Re, evs: Seq<Ev>)
    requires
        re_inv(re),
        events_valid(evs),
    ensures
        re_inv(re_events(re, evs)),
    decreases evs.len(),
{
    if evs.len() > 0 {
        lemma_event_inv(re, evs[0]);
        assert(events_valid(evs.skip(1))) by {
            assert forall|i: int| 0 <= i < evs.skip(1).len() implies (#[trigger] evs.skip(1)[i]
                matches Ev::Bit { prob, bit } ==> valid_prob(prob)) by {
                assert(evs.skip(1)[i] == evs[i + 1]);
            }
        }
        lemma_inv_forward(re_event(re, evs[0]), evs.skip(1));
    }
}

/// What a flush puts out, with anything after it, ends up in the interval
/// that the encoder stood at, widened; the decoder in step has then read all
/// of it and nothing more.
pub proof fn lemma_flush_completes(re: Re, rest: Seq<u8>)
    requires
        re_inv(re),
    ensures
        completes(re_normalize(re), re_flush(re).out + rest),
        rd_of(re_normalize(re), re_flush(re).out + rest).input == rest,
        re_flush(re).out.len() == re_normalize(re).len(),
{
    let n = re_normalize(re);
    if re.range <= TOP_RANGE {
        lemma_normalize_value(re);
    }
    assert(re_inv(n));
    let s1 = re_shift_low(n);
    let s2 = re_shift_low(s1);
    let s3 = re_shift_low(s2);
    let s4 = re_shift_low(s3);
    let s5 = re_shift_low(s4);
    lemma_shift_value(n);
    lemma_shift_value(s1);
    lemma_shift_value(s2);
    lemma_shift_value(s3);
    lemma_shift_value(s4);
    crate::range_encoder::RangeEncoder::lemma_flushed(re);
    assert(s5 == re_flush(re));
    let f = s5.out + rest;
    assert(re_held(s5) =~= s5.out.push(0u8));
    lemma_be_push(s5.out, 0u8);
    assert(f.subrange(0, n.len() as int) =~= s5.out);
    assert(f.skip(n.len() as int) =~= rest);
}

/// Shifting alone multiplies the number that the encoder stands at by 256,
/// as long as the interval, as wide as it then counts, stays clear of
/// overflow.
pub open spec fn shift_inv(re: Re) -> bool {
    re_tail(re) * 0x1_0000_0000 + re.low < pow256(re.ff_count + 1) * 0x1_0000_0000 && re.low
        <= 0x1_FFFF_FFFF
}

/// Shifting multiplies the number that the encoder stands at by 256 and
/// adds one to the count of its bytes.
pub proof fn lemma_shift_value(re: Re)
    requires
        shift_inv(re),
    ensures
        re_value(re_shift_low(re)) == 256 * re_value(re),
        re_shift_low(re).len() == re.len() + 1,
        shift_inv(re_shift_low(re)),
        re_shift_low(re).low <= 0xFFFF_FF00,
{
    let n = re_shift_low(re);
    let held = re_held(re);
    let k = re.ff_count;
    lemma_tail(re.cache, k);
    if re.low < 0xFF00_0000 || re.low > 0xFFFF_FFFF {
        let carry: int = if re.low > 0xFFFF_FFFF {
            1
        } else {
            0
        };
        if carry == 1 {
            let t = re_tail(re);
            let p = pow256(k);
            assert(re.cache + 1 < 256) by (nonlinear_arith)
                requires
                    t + 1 == (re.cache + 1) * p,
                    t * 0x1_0000_0000 + re.low < (256 * p) * 0x1_0000_0000,
                    re.low >= 0x1_0000_0000,
                    p >= 1,
            ;
            lemma_carry(re.out, re.cache, k);
            assert(n.out =~= re.out.push((re.cache + 1) as u8) + run_of(0, k));
        } else {
            assert(n.out =~= held);
        }
        assert(re_held(n) =~= n.out.push(n.cache));
        lemma_be_push(n.out, n.cache);
        assert(seq![n.cache] + run_of(0xFF, 0) =~= Seq::<u8>::empty().push(n.cache));
        lemma_be_push(Seq::<u8>::empty(), n.cache);
        assert(pow256(1) == 256) by {
            reveal_with_fuel(pow256, 2);
        }
    } else {
        lemma_run_push(re.out.push(re.cache), 0xFF, k);
        lemma_be_push(held, 0xFF);
        lemma_run_push(seq![re.cache], 0xFF, k);
        lemma_be_push(seq![re.cache] + run_of(0xFF, k), 0xFF);
        assert(pow256(k + 2) == 256 * pow256(k + 1));
    }
}

} // verus!
