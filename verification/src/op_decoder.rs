//! Decoding of one LZMA operation: which bits are read, through which
//! models, and what they mean.

use vstd::prelude::*;
use vstd::arithmetic::power2::{pow2, lemma_pow2_adds, lemma2_to64};
use vstd::bits::lemma_u32_shl_is_mul;
use crate::bit_model::valid_probs;
use crate::lzma::{
    Op,
    Context,
    len_state,
    BM_LITERAL,
    LITERAL_GROUP,
    BM_MATCH,
    BM_REP,
    BM_REP0,
    BM_REP1,
    BM_REP2,
    BM_LEN,
    BM_DIS_SLOT,
    BM_DIS,
    BM_ALIGN,
    MATCH_LEN_MODEL,
    REP_LEN_MODEL,
    NUM_MODELS,
    LM_CHOICE1,
    LM_CHOICE2,
    LM_LOW,
    LM_MID,
    LM_HIGH,
    MIN_MATCH_LEN,
    START_DIS_MODEL,
    END_DIS_MODEL,
    DIS_ALIGN_BITS,
    DIS_SLOTS,
};
use crate::range_decoder::{
    Rd,
    RangeDecoder,
    rd_frame,
    rd_model_bit,
    rd_tree,
    rd_tree_reversed,
    rd_direct,
    rd_matched,
};

verus! {

/// Decodes a length, less the shortest: a class, then a symbol of the class.
pub open spec fn rd_len(rd: Rd, probs: Seq<u32>, lm: int, pos_state: int) -> (Rd, Seq<u32>, int) {
    let c1 = rd_model_bit(rd, probs, lm + LM_CHOICE1);
    if !c1.2 {
        let t = rd_tree(c1.0, c1.1, lm + LM_LOW + pos_state * 8, 1, 8);
        (t.0, t.1, t.2 - 8)
    } else {
        let c2 = rd_model_bit(c1.0, c1.1, lm + LM_CHOICE2);
        if !c2.2 {
            let t = rd_tree(c2.0, c2.1, lm + LM_MID + pos_state * 8, 1, 8);
            (t.0, t.1, t.2)
        } else {
            let t = rd_tree(c2.0, c2.1, lm + LM_HIGH, 1, 256);
            (t.0, t.1, t.2 - 240)
        }
    }
}

/// Number of extra bits of the distances of a slot.
pub open spec fn direct_bits(slot: int) -> nat {
    (slot / 2 - 1) as nat
}

/// The smallest distance of a slot above 3.
pub open spec fn slot_base(slot: int) -> int {
    (2 + slot % 2) * pow2(direct_bits(slot))
}

/// Decodes the distance of a match of length `len`: a slot, then the extra
/// bits of the slot. `None` if the code left the range.
pub open spec fn rd_distance(rd: Rd, probs: Seq<u32>, len: int) -> (Rd, Seq<u32>, Option<u32>) {
    let t = rd_tree(rd, probs, BM_DIS_SLOT + len_state(len) * 64, 1, 64);
    let slot = t.2 - 64;
    if slot < START_DIS_MODEL {
        (t.0, t.1, Some(slot as u32))
    } else if slot < END_DIS_MODEL {
        let r = rd_tree_reversed(
            t.0,
            t.1,
            BM_DIS + slot_base(slot) - slot,
            1,
            direct_bits(slot),
            1,
            0,
        );
        (r.0, r.1, Some((slot_base(slot) + r.2) as u32))
    } else {
        let d = rd_direct(t.0, (direct_bits(slot) - DIS_ALIGN_BITS) as nat, 0, true);
        let a = rd_tree_reversed(d.0, t.1, BM_ALIGN as int, 1, DIS_ALIGN_BITS as nat, 1, 0);
        (
            a.0,
            a.1,
            if d.2 {
                Some((slot_base(slot) + d.1 * 16 + a.2) as u32)
            } else {
                None
            },
        )
    }
}

/// Decodes a literal: through the plain tree after a literal, through the
/// matched one after a match.
pub open spec fn rd_literal(rd: Rd, probs: Seq<u32>, ctx: Context) -> (Rd, Seq<u32>, Option<Op>) {
    let base = BM_LITERAL + (ctx.prev_byte / 32) * LITERAL_GROUP;
    let t = if ctx.state < 7 {
        rd_tree(rd, probs, base, 1, 256)
    } else {
        rd_matched(rd, probs, base, ctx.match_byte as int, 1, 8, true)
    };
    (t.0, t.1, Some(Op::Literal { byte: (t.2 - 256) as u8 }))
}

/// Decodes the length of a repeated match from the distance `index`.
pub open spec fn rd_rep_len(rd: Rd, probs: Seq<u32>, ctx: Context, index: u32) -> (
    Rd,
    Seq<u32>,
    Option<Op>,
) {
    let l = rd_len(rd, probs, REP_LEN_MODEL as int, ctx.pos_state as int);
    (l.0, l.1, Some(Op::Rep { index, len: (l.2 + MIN_MATCH_LEN) as u32 }))
}

/// Decodes a repeated match: which distance, and unless it is one byte from
/// the last, how long.
pub open spec fn rd_rep(rd: Rd, probs: Seq<u32>, ctx: Context) -> (Rd, Seq<u32>, Option<Op>) {
    let r0 = rd_model_bit(rd, probs, BM_REP0 + ctx.state);
    if !r0.2 {
        let l = rd_model_bit(r0.0, r0.1, BM_LEN + ctx.state * 4 + ctx.pos_state);
        if !l.2 {
            (l.0, l.1, Some(Op::ShortRep))
        } else {
            rd_rep_len(l.0, l.1, ctx, 0)
        }
    } else {
        let r1 = rd_model_bit(r0.0, r0.1, BM_REP1 + ctx.state);
        if !r1.2 {
            rd_rep_len(r1.0, r1.1, ctx, 1)
        } else {
            let r2 = rd_model_bit(r1.0, r1.1, BM_REP2 + ctx.state);
            rd_rep_len(
                r2.0,
                r2.1,
                ctx,
                if r2.2 {
                    3
                } else {
                    2
                },
            )
        }
    }
}

/// Decodes a new match: its length, then its distance.
pub open spec fn rd_match(rd: Rd, probs: Seq<u32>, ctx: Context) -> (Rd, Seq<u32>, Option<Op>) {
    let l = rd_len(rd, probs, MATCH_LEN_MODEL as int, ctx.pos_state as int);
    let len = l.2 + MIN_MATCH_LEN;
    let d = rd_distance(l.0, l.1, len);
    (
        d.0,
        d.1,
        match d.2 {
            Some(dis) => Some(Op::Match { dis, len: len as u32 }),
            None => None,
        },
    )
}

/// Decodes one operation in the given context. `None` if the code left the
/// range, which no encoder's output makes it do.
pub open spec fn rd_op(rd: Rd, probs: Seq<u32>, ctx: Context) -> (Rd, Seq<u32>, Option<Op>) {
    let m = rd_model_bit(rd, probs, BM_MATCH + ctx.state * 4 + ctx.pos_state);
    if !m.2 {
        rd_literal(m.0, m.1, ctx)
    } else {
        let r = rd_model_bit(m.0, m.1, BM_REP + ctx.state);
        if r.2 {
            rd_rep(r.0, r.1, ctx)
        } else {
            rd_match(r.0, r.1, ctx)
        }
    }
}

/// The distances of a slot above 3 fit 32 bits, and the models of the extra
/// bits of the slots below 14 lie where the layout puts them.
pub proof fn lemma_slot(slot: int)
    requires
        START_DIS_MODEL <= slot < DIS_SLOTS,
    ensures
        1 <= direct_bits(slot) <= 30,
        slot <= slot_base(slot),
        slot_base(slot) + pow2(direct_bits(slot)) <= 0x1_0000_0000,
        slot < END_DIS_MODEL ==> direct_bits(slot) <= 5 && slot_base(slot) - slot + pow2(
            direct_bits(slot),
        ) <= 115,
        slot >= END_DIS_MODEL ==> direct_bits(slot) >= 6 && pow2(
            (direct_bits(slot) - DIS_ALIGN_BITS) as nat,
        ) * 16 == pow2(direct_bits(slot)),
{
    lemma2_to64();
    let db = direct_bits(slot);
    let p = pow2(db);
    assert(p <= 0x4000_0000 && (slot < END_DIS_MODEL ==> p <= 32) && (db >= 3 ==> p >= 8) && p
        >= 2) by {
        vstd::arithmetic::power2::lemma_pow2_strictly_increases(0, db);
        if db < 30 {
            vstd::arithmetic::power2::lemma_pow2_strictly_increases(db, 30);
        }
        if db < 5 {
            vstd::arithmetic::power2::lemma_pow2_strictly_increases(db, 5);
        }
        if db > 3 {
            vstd::arithmetic::power2::lemma_pow2_strictly_increases(3, db);
        }
    }
    if slot % 2 == 0 {
        assert(slot_base(slot) == 2 * p);
    } else {
        assert(slot_base(slot) == 3 * p);
    }
    if slot < END_DIS_MODEL {
        if db == 1 {
        } else if db == 2 {
        } else if db == 3 {
        } else if db == 4 {
        } else {
            assert(db == 5);
        }
    } else {
        lemma_pow2_adds((db - DIS_ALIGN_BITS) as nat, 4);
        assert(slot <= 63);
    }
}

/// Decodes a length, less the shortest.
pub fn decode_len(rdec: &mut RangeDecoder, probs: &mut Vec<u32>, lm: usize, pos_state: u32) -> (len:
    u32)
    requires
        old(rdec).wf(),
        valid_probs(old(probs)@),
        old(probs)@.len() == NUM_MODELS,
        lm == MATCH_LEN_MODEL || lm == REP_LEN_MODEL,
        pos_state < 4,
    ensures
        rd_frame(*old(rdec), old(probs)@, *final(rdec), final(probs)@),
        len < 272,
        (final(rdec)@, final(probs)@, len as int) == rd_len(
            old(rdec)@,
            old(probs)@,
            lm as int,
            pos_state as int,
        ),
{
    if !rdec.decode_bit(probs, lm + LM_CHOICE1) {
        rdec.decode_tree(probs, lm + LM_LOW + pos_state as usize * 8, 8)
    } else if !rdec.decode_bit(probs, lm + LM_CHOICE2) {
        8 + rdec.decode_tree(probs, lm + LM_MID + pos_state as usize * 8, 8)
    } else {
        16 + rdec.decode_tree(probs, lm + LM_HIGH, 256)
    }
}

/// Decodes the distance of a match of length `len`.
pub fn decode_distance(rdec: &mut RangeDecoder, probs: &mut Vec<u32>, len: u32) -> (r: Option<u32>)
    requires
        old(rdec).wf(),
        valid_probs(old(probs)@),
        old(probs)@.len() == NUM_MODELS,
        len >= MIN_MATCH_LEN,
    ensures
        rd_frame(*old(rdec), old(probs)@, *final(rdec), final(probs)@),
        (final(rdec)@, final(probs)@, r) == rd_distance(old(rdec)@, old(probs)@, len as int),
{
    let ls: usize = if len - MIN_MATCH_LEN < 3 {
        (len - MIN_MATCH_LEN) as usize
    } else {
        3
    };
    let slot: u32 = rdec.decode_tree(probs, BM_DIS_SLOT + ls * 64, 64);
    if slot < START_DIS_MODEL {
        return Some(slot);
    }
    let bits: u32 = slot / 2 - 1;
    proof {
        lemma_slot(slot as int);
        assert(bits as nat == direct_bits(slot as int));
        if slot % 2 == 0 {
            assert(2 * pow2(bits as nat) == slot_base(slot as int));
            lemma_u32_shl_is_mul(2, bits);
        } else {
            assert(3 * pow2(bits as nat) == slot_base(slot as int));
            lemma_u32_shl_is_mul(3, bits);
        }
    }
    let base: u32 = (2 + slot % 2) << bits;
    assert(base == slot_base(slot as int));
    if slot < END_DIS_MODEL {
        let low: u32 = rdec.decode_tree_reversed(probs, BM_DIS + (base - slot) as usize, bits);
        Some(base + low)
    } else {
        let high: Option<u32> = rdec.decode_direct(bits - DIS_ALIGN_BITS);
        proof {
            lemma2_to64();
        }
        let low: u32 = rdec.decode_tree_reversed(probs, BM_ALIGN, DIS_ALIGN_BITS);
        match high {
            Some(h) => {
                assert(h * 16 + 16 <= pow2(bits as nat)) by (nonlinear_arith)
                    requires
                        h < pow2((bits - DIS_ALIGN_BITS) as nat),
                        pow2((bits - DIS_ALIGN_BITS) as nat) * 16 == pow2(bits as nat),
                ;
                Some(base + h * 16 + low)
            },
            None => None,
        }
    }
}

/// Decodes a literal.
pub fn decode_literal(rdec: &mut RangeDecoder, probs: &mut Vec<u32>, ctx: Context) -> (r: Option<
    Op,
>)
    requires
        old(rdec).wf(),
        valid_probs(old(probs)@),
        old(probs)@.len() == NUM_MODELS,
        ctx.wf(),
    ensures
        rd_frame(*old(rdec), old(probs)@, *final(rdec), final(probs)@),
        (final(rdec)@, final(probs)@, r) == rd_literal(old(rdec)@, old(probs)@, ctx),
        r matches Some(op) && op is Literal,
{
    let base: usize = BM_LITERAL + (ctx.prev_byte / 32) as usize * LITERAL_GROUP;
    let byte: u8 = if ctx.state < 7 {
        rdec.decode_tree(probs, base, 256) as u8
    } else {
        rdec.decode_matched(probs, base, ctx.match_byte)
    };
    Some(Op::Literal { byte })
}

/// Decodes the length of a repeated match from the distance `index`.
pub fn decode_rep_len(rdec: &mut RangeDecoder, probs: &mut Vec<u32>, ctx: Context, index: u32) -> (r:
    Option<Op>)
    requires
        old(rdec).wf(),
        valid_probs(old(probs)@),
        old(probs)@.len() == NUM_MODELS,
        ctx.wf(),
        index < 4,
    ensures
        rd_frame(*old(rdec), old(probs)@, *final(rdec), final(probs)@),
        (final(rdec)@, final(probs)@, r) == rd_rep_len(old(rdec)@, old(probs)@, ctx, index),
        r matches Some(op) && op.wf() && op is Rep,
{
    let len: u32 = decode_len(rdec, probs, REP_LEN_MODEL, ctx.pos_state);
    Some(Op::Rep { index, len: len + MIN_MATCH_LEN })
}

/// Decodes a repeated match.
pub fn decode_rep(rdec: &mut RangeDecoder, probs: &mut Vec<u32>, ctx: Context) -> (r: Option<Op>)
    requires
        old(rdec).wf(),
        valid_probs(old(probs)@),
        old(probs)@.len() == NUM_MODELS,
        ctx.wf(),
    ensures
        rd_frame(*old(rdec), old(probs)@, *final(rdec), final(probs)@),
        (final(rdec)@, final(probs)@, r) == rd_rep(old(rdec)@, old(probs)@, ctx),
        r matches Some(op) && op.wf() && !(op is Literal) && !(op is Match),
{
    let st: usize = ctx.state as usize;
    if !rdec.decode_bit(probs, BM_REP0 + st) {
        if !rdec.decode_bit(probs, BM_LEN + st * 4 + ctx.pos_state as usize) {
            Some(Op::ShortRep)
        } else {
            decode_rep_len(rdec, probs, ctx, 0)
        }
    } else if !rdec.decode_bit(probs, BM_REP1 + st) {
        decode_rep_len(rdec, probs, ctx, 1)
    } else if !rdec.decode_bit(probs, BM_REP2 + st) {
        decode_rep_len(rdec, probs, ctx, 2)
    } else {
        decode_rep_len(rdec, probs, ctx, 3)
    }
}

/// Decodes a new match.
pub fn decode_match(rdec: &mut RangeDecoder, probs: &mut Vec<u32>, ctx: Context) -> (r: Option<Op>)
    requires
        old(rdec).wf(),
        valid_probs(old(probs)@),
        old(probs)@.len() == NUM_MODELS,
        ctx.wf(),
    ensures
        rd_frame(*old(rdec), old(probs)@, *final(rdec), final(probs)@),
        (final(rdec)@, final(probs)@, r) == rd_match(old(rdec)@, old(probs)@, ctx),
        r matches Some(op) ==> op.wf() && op is Match,
{
    let len: u32 = decode_len(rdec, probs, MATCH_LEN_MODEL, ctx.pos_state) + MIN_MATCH_LEN;
    match decode_distance(rdec, probs, len) {
        Some(dis) => Some(Op::Match { dis, len }),
        None => None,
    }
}

/// Decodes one operation in the given context.
pub fn decode_op(rdec: &mut RangeDecoder, probs: &mut Vec<u32>, ctx: Context) -> (r: Option<Op>)
    requires
        old(rdec).wf(),
        valid_probs(old(probs)@),
        old(probs)@.len() == NUM_MODELS,
        ctx.wf(),
    ensures
        rd_frame(*old(rdec), old(probs)@, *final(rdec), final(probs)@),
        (final(rdec)@, final(probs)@, r) == rd_op(old(rdec)@, old(probs)@, ctx),
        r matches Some(op) ==> op.wf(),
{
    let st: usize = ctx.state as usize;
    if !rdec.decode_bit(probs, BM_MATCH + st * 4 + ctx.pos_state as usize) {
        decode_literal(rdec, probs, ctx)
    } else if rdec.decode_bit(probs, BM_REP + st) {
        decode_rep(rdec, probs, ctx)
    } else {
        decode_match(rdec, probs, ctx)
    }
}

} // verus!
