//! Encoding of one LZMA operation: which bits are written, through which
//! models.

use vstd::prelude::*;
use vstd::arithmetic::power2::{pow2, lemma_pow2_unfold, lemma_pow2_strictly_increases, lemma2_to64};
use vstd::bits::lemma_u32_shl_is_mul;
use crate::bit_model::{valid_probs, bm_update};
use crate::lzma::{
    Op,
    Context,
    len_state,
    BM_LITERAL,
    LITERAL_GROUP,
    BM_MATCH,
    BM_REP,
    BM_REP0,
    BM_REP1,
    BM_REP2,
    BM_LEN,
    BM_DIS_SLOT,
    BM_DIS,
    BM_ALIGN,
    MATCH_LEN_MODEL,
    REP_LEN_MODEL,
    NUM_MODELS,
    LM_CHOICE1,
    LM_CHOICE2,
    LM_LOW,
    LM_MID,
    LM_HIGH,
    MIN_MATCH_LEN,
    START_DIS_MODEL,
    END_DIS_MODEL,
    DIS_ALIGN_BITS,
};
use crate::op_decoder::{direct_bits, slot_base};
use crate::range_encoder::{
    Ev,
    Re,
    RangeEncoder,
    re_event,
    re_events,
    lemma_re_events_concat,
    tree_events,
    tree_reversed_events,
    direct_events,
    matched_events,
};

verus! {

/// Number of bits that an operation takes at most.
pub const MAX_OP_BITS: usize = 64;

/// A run of events with the probabilities after them.
pub type Coded = (Seq<Ev>, Seq<u32>);

/// No events; the probabilities are as they were.
pub open spec fn ev_none(probs: Seq<u32>) -> Coded {
    (Seq::empty(), probs)
}

/// `acc`, then one bit through the model at `idx`.
pub open spec fn ev_bit(acc: Coded, idx: int, bit: bool) -> Coded {
    (
        acc.0.push(Ev::Bit { prob: acc.1[idx], bit }),
        acc.1.update(idx, bm_update(acc.1[idx], bit)),
    )
}

/// `acc`, then `next`, which was coded with the probabilities of `acc`.
pub open spec fn ev_then(acc: Coded, next: Coded) -> Coded {
    (acc.0 + next.0, next.1)
}

/// The top two bits of a distance of more than two bits, and the number of
/// bits below them; a shorter distance as it is, and 0.
pub open spec fn top_two(dis: int) -> (int, nat)
    decreases dis,
{
    if dis < 4 {
        (dis, 0)
    } else {
        let r = top_two(dis / 2);
        (r.0, r.1 + 1)
    }
}

/// The slot of a distance: twice the number of bits below its top two, plus
/// those two.
pub open spec fn dis_slot(dis: int) -> int {
    2 * top_two(dis).1 + top_two(dis).0
}

/// The events of a length, less the shortest: its class, then its place in
/// the class.
pub open spec fn len_events(probs: Seq<u32>, lm: int, pos_state: int, len: int) -> Coded {
    let a = ev_none(probs);
    if len < 8 {
        let c1 = ev_bit(a, lm + LM_CHOICE1, false);
        ev_then(c1, tree_events(c1.1, lm + LM_LOW + pos_state * 8, 1, len, 4))
    } else if len < 16 {
        let c2 = ev_bit(ev_bit(a, lm + LM_CHOICE1, true), lm + LM_CHOICE2, false);
        ev_then(c2, tree_events(c2.1, lm + LM_MID + pos_state * 8, 1, len - 8, 4))
    } else {
        let c2 = ev_bit(ev_bit(a, lm + LM_CHOICE1, true), lm + LM_CHOICE2, true);
        ev_then(c2, tree_events(c2.1, lm + LM_HIGH, 1, len - 16, 128))
    }
}

/// The events of the distance of a match of length `len`: its slot, then
/// what lies below its top two bits.
pub open spec fn distance_events(probs: Seq<u32>, len: int, dis: int) -> Coded {
    let slot = dis_slot(dis);
    let t = tree_events(probs, BM_DIS_SLOT + len_state(len) * 64, 1, slot, 32);
    if slot < START_DIS_MODEL {
        t
    } else {
        let low = dis - slot_base(slot);
        if slot < END_DIS_MODEL {
            ev_then(
                t,
                tree_reversed_events(t.1, BM_DIS + slot_base(slot) - slot, 1, low, direct_bits(slot)),
            )
        } else {
            let d = (
                direct_events(low / 16, pow2((direct_bits(slot) - DIS_ALIGN_BITS - 1) as nat) as int),
                t.1,
            );
            ev_then(
                ev_then(t, d),
                tree_reversed_events(t.1, BM_ALIGN as int, 1, low % 16, DIS_ALIGN_BITS as nat),
            )
        }
    }
}

/// The events of the byte of a literal.
pub open spec fn literal_events(probs: Seq<u32>, ctx: Context, byte: u8) -> Coded {
    let base = BM_LITERAL + (ctx.prev_byte / 32) * LITERAL_GROUP;
    if ctx.state < 7 {
        tree_events(probs, base, 1, byte as int, 128)
    } else {
        matched_events(probs, base, ctx.match_byte as int, byte as int, 1, 8, true)
    }
}

/// The events of an operation in the given context.
pub open spec fn op_events(probs: Seq<u32>, ctx: Context, op: Op) -> Coded {
    let st = ctx.state as int;
    let ps = ctx.pos_state as int;
    let a = ev_none(probs);
    match op {
        Op::Literal { byte } => {
            let m = ev_bit(a, BM_MATCH + st * 4 + ps, false);
            ev_then(m, literal_events(m.1, ctx, byte))
        },
        Op::ShortRep => ev_bit(
            ev_bit(ev_bit(ev_bit(a, BM_MATCH + st * 4 + ps, true), BM_REP + st, true), BM_REP0 + st, false),
            BM_LEN + st * 4 + ps,
            false,
        ),
        Op::Rep { index, len } => {
            let r = ev_bit(ev_bit(a, BM_MATCH + st * 4 + ps, true), BM_REP + st, true);
            let i = if index == 0 {
                ev_bit(ev_bit(r, BM_REP0 + st, false), BM_LEN + st * 4 + ps, true)
            } else if index == 1 {
                ev_bit(ev_bit(r, BM_REP0 + st, true), BM_REP1 + st, false)
            } else {
                ev_bit(
                    ev_bit(ev_bit(r, BM_REP0 + st, true), BM_REP1 + st, true),
                    BM_REP2 + st,
                    index != 2,
                )
            };
            ev_then(i, len_events(i.1, REP_LEN_MODEL as int, ps, len - MIN_MATCH_LEN))
        },
        Op::Match { dis, len } => {
            let r = ev_bit(ev_bit(a, BM_MATCH + st * 4 + ps, true), BM_REP + st, false);
            let l = ev_then(r, len_events(r.1, MATCH_LEN_MODEL as int, ps, len - MIN_MATCH_LEN));
            ev_then(l, distance_events(l.1, len as int, dis as int))
        },
    }
}

/// What has been encoded so far is `acc`: the encoder has gone from `re0`
/// through the events of `acc`, and the probabilities are those of `acc`.
pub open spec fn coded(re0: Re, acc: Coded, re: Re, probs: Seq<u32>) -> bool {
    re == re_events(re0, acc.0) && probs == acc.1
}

/// Nothing has been encoded at first.
pub proof fn lemma_coded_none(re: Re, probs: Seq<u32>)
    ensures
        coded(re, ev_none(probs), re, probs),
{
}

/// One more bit.
pub proof fn lemma_coded_bit(re0: Re, acc: Coded, re: Re, idx: int, bit: bool)
    requires
        re == re_events(re0, acc.0),
    ensures
        coded(
            re0,
            ev_bit(acc, idx, bit),
            re_event(re, Ev::Bit { prob: acc.1[idx], bit }),
            acc.1.update(idx, bm_update(acc.1[idx], bit)),
        ),
{
    let e = Ev::Bit { prob: acc.1[idx], bit };
    lemma_re_events_concat(re0, acc.0, seq![e]);
    assert(acc.0 + seq![e] =~= acc.0.push(e));
    assert(seq![e].skip(1) =~= Seq::<Ev>::empty());
    assert(re_events(re, seq![e]) == re_events(re_event(re, e), seq![e].skip(1)));
}

/// One more run.
pub proof fn lemma_coded_then(re0: Re, acc: Coded, re: Re, next: Coded)
    requires
        re == re_events(re0, acc.0),
    ensures
        coded(re0, ev_then(acc, next), re_events(re, next.0), next.1),
{
    lemma_re_events_concat(re0, acc.0, next.0);
}

/// The top two bits of a distance, with the number of bits below them, make
/// up the part of the distance that its slot stands for.
pub proof fn lemma_top_two(dis: int)
    requires
        4 <= dis <= u32::MAX,
    ensures
        2 <= top_two(dis).0 <= 3,
        1 <= top_two(dis).1 <= 30,
        top_two(dis).0 * pow2(top_two(dis).1) <= dis < (top_two(dis).0 + 1) * pow2(
            top_two(dis).1,
        ),
        4 <= dis_slot(dis) <= 63,
        direct_bits(dis_slot(dis)) == top_two(dis).1,
        slot_base(dis_slot(dis)) == top_two(dis).0 * pow2(top_two(dis).1),
    decreases dis,
{
    lemma2_to64();
    let r = top_two(dis / 2);
    if dis / 2 < 4 {
        assert(top_two(dis) == (dis / 2, 1nat));
    } else {
        lemma_top_two(dis / 2);
        lemma_pow2_unfold(r.1 + 1);
        let p = pow2(r.1) as int;
        assert(r.0 * (2 * p) <= dis < (r.0 + 1) * (2 * p)) by (nonlinear_arith)
            requires
                r.0 * p <= dis / 2 < (r.0 + 1) * p,
        ;
        if r.1 + 1 > 30 {
            lemma_pow2_strictly_increases(30, r.1 + 1);
            assert(r.0 * pow2(r.1 + 1) >= 2 * pow2(r.1 + 1)) by (nonlinear_arith)
                requires
                    r.0 >= 2,
            ;
        }
    }
}

/// The slot of a distance, its top two bits, and the number of bits below.
pub fn slot_of(dis: u32) -> (r: (u32, u32, u32))
    ensures
        r.0 == dis_slot(dis as int),
        r.1 == top_two(dis as int).0,
        r.2 == top_two(dis as int).1,
        r.0 < 64,
{
    let mut top: u32 = dis;
    let mut bits: u32 = 0;
    proof {
        if dis >= 4 {
            lemma_top_two(dis as int);
        }
    }
    while top >= 4
        invariant
            top_two(dis as int).0 == top_two(top as int).0,
            top_two(dis as int).1 == top_two(top as int).1 + bits,
            bits <= 32,
            top_two(dis as int).1 <= 30,
        decreases top,
    {
        top = top / 2;
        bits = bits + 1;
    }
    (2 * bits + top, top, bits)
}

/// Encodes a length, less the shortest.
pub fn encode_len(
    renc: &mut RangeEncoder,
    probs: &mut Vec<u32>,
    lm: usize,
    pos_state: u32,
    len: u32,
)
    requires
        old(renc).wf(),
        old(renc).budget() >= 10,
        valid_probs(old(probs)@),
        old(probs)@.len() == NUM_MODELS,
        lm == MATCH_LEN_MODEL || lm == REP_LEN_MODEL,
        pos_state < 4,
        len < 272,
    ensures
        final(renc).extends(*old(renc), 10),
        valid_probs(final(probs)@),
        final(probs)@.len() == NUM_MODELS,
        coded(
            old(renc)@,
            len_events(old(probs)@, lm as int, pos_state as int, len as int),
            final(renc)@,
            final(probs)@,
        ),
{
    let ghost re0 = renc@;
    let ghost a = ev_none(probs@);
    let ghost r0 = *renc;
    proof {
        lemma2_to64();
    }
    if len < 8 {
        renc.encode_bit(probs, lm + LM_CHOICE1, false);
        let ghost r1 = *renc;
        let ghost c1 = ev_bit(a, lm + LM_CHOICE1, false);
        proof {
            lemma_coded_bit(re0, a, re0, lm + LM_CHOICE1, false);
        }
        renc.encode_tree(probs, lm + LM_LOW + pos_state as usize * 8, 3, len);
        proof {
            lemma_coded_then(
                re0,
                c1,
                r1@,
                tree_events(c1.1, lm + LM_LOW + pos_state * 8, 1, len as int, 4),
            );
            RangeEncoder::lemma_extends_trans(r0, r1, *renc, 1, 3);
        }
    } else {
        renc.encode_bit(probs, lm + LM_CHOICE1, true);
        let ghost r1 = *renc;
        let ghost c1 = ev_bit(a, lm + LM_CHOICE1, true);
        proof {
            lemma_coded_bit(re0, a, re0, lm + LM_CHOICE1, true);
        }
        if len < 16 {
            renc.encode_bit(probs, lm + LM_CHOICE2, false);
            let ghost r2 = *renc;
            let ghost c2 = ev_bit(c1, lm + LM_CHOICE2, false);
            proof {
                lemma_coded_bit(re0, c1, r1@, lm + LM_CHOICE2, false);
                RangeEncoder::lemma_extends_trans(r0, r1, r2, 1, 1);
            }
            renc.encode_tree(probs, lm + LM_MID + pos_state as usize * 8, 3, len - 8);
            proof {
                lemma_coded_then(
                    re0,
                    c2,
                    r2@,
                    tree_events(c2.1, lm + LM_MID + pos_state * 8, 1, len - 8, 4),
                );
                RangeEncoder::lemma_extends_trans(r0, r2, *renc, 2, 3);
            }
        } else {
            renc.encode_bit(probs, lm + LM_CHOICE2, true);
            let ghost r2 = *renc;
            let ghost c2 = ev_bit(c1, lm + LM_CHOICE2, true);
            proof {
                lemma_coded_bit(re0, c1, r1@, lm + LM_CHOICE2, true);
                RangeEncoder::lemma_extends_trans(r0, r1, r2, 1, 1);
            }
            renc.encode_tree(probs, lm + LM_HIGH, 8, len - 16);
            proof {
                lemma_coded_then(re0, c2, r2@, tree_events(c2.1, lm + LM_HIGH, 1, len - 16, 128));
                RangeEncoder::lemma_extends_trans(r0, r2, *renc, 2, 8);
            }
        }
    }
}

/// Encodes the distance of a match of length `len`.
pub fn encode_distance(renc: &mut RangeEncoder, probs: &mut Vec<u32>, len: u32, dis: u32)
    requires
        old(renc).wf(),
        old(renc).budget() >= 36,
        valid_probs(old(probs)@),
        old(probs)@.len() == NUM_MODELS,
        MIN_MATCH_LEN <= len,
    ensures
        final(renc).extends(*old(renc), 36),
        valid_probs(final(probs)@),
        final(probs)@.len() == NUM_MODELS,
        coded(
            old(renc)@,
            distance_events(old(probs)@, len as int, dis as int),
            final(renc)@,
            final(probs)@,
        ),
{
    let ghost re0 = renc@;
    let ghost r0 = *renc;
    let ghost p0 = probs@;
    let ls: usize = if len - MIN_MATCH_LEN < 3 {
        (len - MIN_MATCH_LEN) as usize
    } else {
        3
    };
    let (slot, top, bits) = slot_of(dis);
    proof {
        lemma2_to64();
    }
    renc.encode_tree(probs, BM_DIS_SLOT + ls * 64, 6, slot);
    let ghost r1 = *renc;
    let ghost t = tree_events(p0, BM_DIS_SLOT + len_state(len as int) * 64, 1, slot as int, 32);
    if slot >= START_DIS_MODEL {
        proof {
            lemma_top_two(dis as int);
            crate::op_decoder::lemma_slot(slot as int);
            if top == 2 {
                lemma_u32_shl_is_mul(2, bits);
            } else {
                lemma_u32_shl_is_mul(3, bits);
            }
        }
        let base: u32 = top << bits;
        let low: u32 = dis - base;
        if slot < END_DIS_MODEL {
            renc.encode_tree_reversed(probs, BM_DIS + (base - slot) as usize, bits, low);
            proof {
                lemma_coded_then(
                    re0,
                    t,
                    r1@,
                    tree_reversed_events(
                        t.1,
                        BM_DIS + slot_base(slot as int) - slot,
                        1,
                        low as int,
                        direct_bits(slot as int),
                    ),
                );
                RangeEncoder::lemma_extends_trans(r0, r1, *renc, 6, bits as int);
            }
        } else {
            renc.encode_direct(low / 16, bits - DIS_ALIGN_BITS);
            let ghost r2 = *renc;
            let ghost d = (
                direct_events(
                    low as int / 16,
                    pow2((direct_bits(slot as int) - DIS_ALIGN_BITS - 1) as nat) as int,
                ),
                t.1,
            );
            proof {
                lemma_coded_then(re0, t, r1@, d);
                RangeEncoder::lemma_extends_trans(r0, r1, r2, 6, bits - DIS_ALIGN_BITS);
            }
            renc.encode_tree_reversed(probs, BM_ALIGN, DIS_ALIGN_BITS, low % 16);
            proof {
                lemma_coded_then(
                    re0,
                    ev_then(t, d),
                    r2@,
                    tree_reversed_events(
                        t.1,
                        BM_ALIGN as int,
                        1,
                        low as int % 16,
                        DIS_ALIGN_BITS as nat,
                    ),
                );
                RangeEncoder::lemma_extends_trans(r0, r2, *renc, 6 + bits - DIS_ALIGN_BITS, 4);
            }
        }
    }
}

/// Encodes the byte of a literal.
pub fn encode_literal(renc: &mut RangeEncoder, probs: &mut Vec<u32>, ctx: Context, byte: u8)
    requires
        old(renc).wf(),
        old(renc).budget() >= 8,
        valid_probs(old(probs)@),
        old(probs)@.len() == NUM_MODELS,
        ctx.wf(),
    ensures
        final(renc).extends(*old(renc), 8),
        valid_probs(final(probs)@),
        final(probs)@.len() == NUM_MODELS,
        coded(old(renc)@, literal_events(old(probs)@, ctx, byte), final(renc)@, final(probs)@),
{
    let base: usize = BM_LITERAL + (ctx.prev_byte / 32) as usize * LITERAL_GROUP;
    proof {
        lemma2_to64();
    }
    if ctx.state < 7 {
        renc.encode_tree(probs, base, 8, byte as u32);
    } else {
        renc.encode_matched(probs, base, byte, ctx.match_byte);
    }
}

/// Encodes an operation in the given context.
pub fn encode_op(renc: &mut RangeEncoder, probs: &mut Vec<u32>, ctx: Context, op: Op)
    requires
        old(renc).wf(),
        old(renc).budget() >= MAX_OP_BITS,
        valid_probs(old(probs)@),
        old(probs)@.len() == NUM_MODELS,
        ctx.wf(),
        op.wf(),
    ensures
        final(renc).extends(*old(renc), MAX_OP_BITS as int),
        valid_probs(final(probs)@),
        final(probs)@.len() == NUM_MODELS,
        coded(old(renc)@, op_events(old(probs)@, ctx, op), final(renc)@, final(probs)@),
{
    let ghost re0 = renc@;
    let ghost r0 = *renc;
    let ghost a = ev_none(probs@);
    let st: usize = ctx.state as usize;
    let ps: usize = ctx.pos_state as usize;
    let i_match: usize = BM_MATCH + st * 4 + ps;
    match op {
        Op::Literal { byte } => {
            renc.encode_bit(probs, i_match, false);
            let ghost r1 = *renc;
            let ghost m = ev_bit(a, i_match as int, false);
            proof {
                lemma_coded_bit(re0, a, re0, i_match as int, false);
            }
            encode_literal(renc, probs, ctx, byte);
            proof {
                lemma_coded_then(re0, m, r1@, literal_events(m.1, ctx, byte));
                RangeEncoder::lemma_extends_trans(r0, r1, *renc, 1, 8);
            }
        },
        Op::ShortRep => {
            renc.encode_bit(probs, i_match, true);
            let ghost r1 = *renc;
            let ghost a1 = ev_bit(a, i_match as int, true);
            renc.encode_bit(probs, BM_REP + st, true);
            let ghost r2 = *renc;
            let ghost a2 = ev_bit(a1, BM_REP + st, true);
            renc.encode_bit(probs, BM_REP0 + st, false);
            let ghost r3 = *renc;
            let ghost a3 = ev_bit(a2, BM_REP0 + st, false);
            renc.encode_bit(probs, BM_LEN + st * 4 + ps, false);
            proof {
                lemma_coded_bit(re0, a, re0, i_match as int, true);
                lemma_coded_bit(re0, a1, r1@, BM_REP + st, true);
                lemma_coded_bit(re0, a2, r2@, BM_REP0 + st, false);
                lemma_coded_bit(re0, a3, r3@, BM_LEN + st * 4 + ps, false);
                RangeEncoder::lemma_extends_trans(r0, r1, r2, 1, 1);
                RangeEncoder::lemma_extends_trans(r0, r2, r3, 2, 1);
                RangeEncoder::lemma_extends_trans(r0, r3, *renc, 3, 1);
            }
        },
        Op::Rep { index, len } => {
            renc.encode_bit(probs, i_match, true);
            let ghost r1 = *renc;
            let ghost a1 = ev_bit(a, i_match as int, true);
            renc.encode_bit(probs, BM_REP + st, true);
            let ghost r2 = *renc;
            let ghost a2 = ev_bit(a1, BM_REP + st, true);
            renc.encode_bit(probs, BM_REP0 + st, index != 0);
            let ghost r3 = *renc;
            let ghost a3 = ev_bit(a2, BM_REP0 + st, index != 0);
            proof {
                lemma_coded_bit(re0, a, re0, i_match as int, true);
                lemma_coded_bit(re0, a1, r1@, BM_REP + st, true);
                lemma_coded_bit(re0, a2, r2@, BM_REP0 + st, index != 0);
                RangeEncoder::lemma_extends_trans(r0, r1, r2, 1, 1);
                RangeEncoder::lemma_extends_trans(r0, r2, r3, 2, 1);
            }
            let ghost mut acc = a3;
            let ghost mut k: int = 3;
            if index == 0 {
                renc.encode_bit(probs, BM_LEN + st * 4 + ps, true);
                proof {
                    lemma_coded_bit(re0, a3, r3@, BM_LEN + st * 4 + ps, true);
                    RangeEncoder::lemma_extends_trans(r0, r3, *renc, 3, 1);
                    acc = ev_bit(a3, BM_LEN + st * 4 + ps, true);
                    k = 4;
                }
            } else {
                renc.encode_bit(probs, BM_REP1 + st, index != 1);
                let ghost r4 = *renc;
                let ghost a4 = ev_bit(a3, BM_REP1 + st, index != 1);
                proof {
                    lemma_coded_bit(re0, a3, r3@, BM_REP1 + st, index != 1);
                    RangeEncoder::lemma_extends_trans(r0, r3, r4, 3, 1);
                    acc = a4;
                    k = 4;
                }
                if index != 1 {
                    renc.encode_bit(probs, BM_REP2 + st, index != 2);
                    proof {
                        lemma_coded_bit(re0, a4, r4@, BM_REP2 + st, index != 2);
                        RangeEncoder::lemma_extends_trans(r0, r4, *renc, 4, 1);
                        acc = ev_bit(a4, BM_REP2 + st, index != 2);
                        k = 5;
                    }
                }
            }
            let ghost r5 = *renc;
            encode_len(renc, probs, REP_LEN_MODEL, ctx.pos_state, len - MIN_MATCH_LEN);
            proof {
                lemma_coded_then(
                    re0,
                    acc,
                    r5@,
                    len_events(acc.1, REP_LEN_MODEL as int, ps as int, len - MIN_MATCH_LEN),
                );
                RangeEncoder::lemma_extends_trans(r0, r5, *renc, k, 10);
            }
        },
        Op::Match { dis, len } => {
            renc.encode_bit(probs, i_match, true);
            let ghost r1 = *renc;
            let ghost a1 = ev_bit(a, i_match as int, true);
            renc.encode_bit(probs, BM_REP + st, false);
            let ghost r2 = *renc;
            let ghost a2 = ev_bit(a1, BM_REP + st, false);
            proof {
                lemma_coded_bit(re0, a, re0, i_match as int, true);
                lemma_coded_bit(re0, a1, r1@, BM_REP + st, false);
                RangeEncoder::lemma_extends_trans(r0, r1, r2, 1, 1);
            }
            encode_len(renc, probs, MATCH_LEN_MODEL, ctx.pos_state, len - MIN_MATCH_LEN);
            let ghost r3 = *renc;
            let ghost l = ev_then(
                a2,
                len_events(a2.1, MATCH_LEN_MODEL as int, ps as int, len - MIN_MATCH_LEN),
            );
            proof {
                lemma_coded_then(
                    re0,
                    a2,
                    r2@,
                    len_events(a2.1, MATCH_LEN_MODEL as int, ps as int, len - MIN_MATCH_LEN),
                );
                RangeEncoder::lemma_extends_trans(r0, r2, r3, 2, 10);
            }
            encode_distance(renc, probs, len, dis);
            proof {
                lemma_coded_then(re0, l, r3@, distance_events(l.1, len as int, dis as int));
                RangeEncoder::lemma_extends_trans(r0, r3, *renc, 12, 36);
            }
        },
    }
}

} // verus!
