//! Decoding only ever takes input: whatever is decoded, what is left of the
//! input afterwards is the end of what was there before.

use vstd::prelude::*;
use crate::bit_model::b2i;
use crate::lz_decoder::{Dec, Step, lzd_run, lzd_step};
use crate::lzma::{
    Context,
    len_state,
    BM_ALIGN,
    BM_DIS,
    BM_DIS_SLOT,
    BM_LEN,
    BM_LITERAL,
    BM_MATCH,
    BM_REP,
    BM_REP0,
    BM_REP1,
    BM_REP2,
    DIS_ALIGN_BITS,
    END_DIS_MODEL,
    LITERAL_GROUP,
    LM_CHOICE1,
    LM_CHOICE2,
    LM_HIGH,
    LM_LOW,
    LM_MID,
    MATCH_LEN_MODEL,
    MAX_MATCH_LEN,
    MIN_MATCH_LEN,
    REP_LEN_MODEL,
    START_DIS_MODEL,
};
use crate::op_decoder::{
    direct_bits,
    slot_base,
    rd_len,
    rd_distance,
    rd_literal,
    rd_rep,
    rd_match,
    rd_op,
};
use crate::range_decoder::{
    Rd,
    rd_model_bit,
    rd_tree,
    rd_tree_reversed,
    rd_direct_bit,
    rd_direct,
    rd_matched,
};

verus! {

/// Whether `a` is the end of `b`.
pub open spec fn is_tail(a: Seq<u8>, b: Seq<u8>) -> bool {
    a.len() <= b.len() && a == b.skip(b.len() - a.len())
}

/// The end of an end is an end.
pub proof fn lemma_tail(a: Seq<u8>, b: Seq<u8>, c: Seq<u8>)
    requires
        is_tail(a, b),
        is_tail(b, c),
    ensures
        is_tail(a, c),
{
    assert(c.skip(c.len() - b.len()).skip(b.len() - a.len()) =~= c.skip(c.len() - a.len()));
}

/// Everything is its own end.
pub proof fn lemma_tail_self(c: Seq<u8>)
    ensures
        is_tail(c, c),
{
    assert(c.skip(0) =~= c);
}

/// A bit decoded with a model takes at most a byte of input.
pub proof fn lemma_model_bit_input(rd: Rd, probs: Seq<u32>, idx: int)
    ensures
        is_tail(rd_model_bit(rd, probs, idx).0.input, rd.input),
{
    lemma_tail_self(rd.input);
}

/// A bit decoded without a model takes at most a byte of input.
pub proof fn lemma_direct_bit_input(rd: Rd)
    ensures
        is_tail(rd_direct_bit(rd).0.input, rd.input),
{
    lemma_tail_self(rd.input);
}

/// A symbol decoded through a bit tree takes input only.
pub proof fn lemma_tree_input(rd: Rd, probs: Seq<u32>, base: int, m: int, limit: int)
    ensures
        is_tail(rd_tree(rd, probs, base, m, limit).0.input, rd.input),
    decreases 2 * limit - m,
{
    if !(m < 1 || m >= limit) {
        let r = rd_model_bit(rd, probs, base + m);
        lemma_model_bit_input(rd, probs, base + m);
        lemma_tree_input(r.0, r.1, base, 2 * m + b2i(r.2), limit);
        lemma_tail(rd_tree(rd, probs, base, m, limit).0.input, r.0.input, rd.input);
    } else {
        lemma_tail_self(rd.input);
    }
}

/// The same of a tree read with the lowest bit first.
pub proof fn lemma_tree_reversed_input(
    rd: Rd,
    probs: Seq<u32>,
    base: int,
    m: int,
    n: nat,
    weight: int,
    acc: int,
)
    ensures
        is_tail(rd_tree_reversed(rd, probs, base, m, n, weight, acc).0.input, rd.input),
    decreases n,
{
    if n > 0 {
        let r = rd_model_bit(rd, probs, base + m);
        lemma_model_bit_input(rd, probs, base + m);
        lemma_tree_reversed_input(
            r.0,
            r.1,
            base,
            2 * m + b2i(r.2),
            (n - 1) as nat,
            2 * weight,
            if r.2 {
                acc + weight
            } else {
                acc
            },
        );
        lemma_tail(
            rd_tree_reversed(rd, probs, base, m, n, weight, acc).0.input,
            r.0.input,
            rd.input,
        );
    } else {
        lemma_tail_self(rd.input);
    }
}

/// The same of bits decoded without a model.
pub proof fn lemma_direct_input(rd: Rd, n: nat, acc: int, ok: bool)
    ensures
        is_tail(rd_direct(rd, n, acc, ok).0.input, rd.input),
    decreases n,
{
    if n > 0 {
        let r = rd_direct_bit(rd);
        lemma_direct_bit_input(rd);
        lemma_direct_input(r.0, (n - 1) as nat, 2 * acc + b2i(r.1), ok && r.2);
        lemma_tail(rd_direct(rd, n, acc, ok).0.input, r.0.input, rd.input);
    } else {
        lemma_tail_self(rd.input);
    }
}

/// The same of a literal that follows a match.
pub proof fn lemma_matched_input(
    rd: Rd,
    probs: Seq<u32>,
    base: int,
    mb: int,
    m: int,
    n: nat,
    matching: bool,
)
    ensures
        is_tail(rd_matched(rd, probs, base, mb, m, n, matching).0.input, rd.input),
    decreases n,
{
    if n > 0 {
        let match_bit = mb / 128;
        let idx = if matching {
            base + 0x100 + 0x100 * match_bit + m
        } else {
            base + m
        };
        let r = rd_model_bit(rd, probs, idx);
        lemma_model_bit_input(rd, probs, idx);
        lemma_matched_input(
            r.0,
            r.1,
            base,
            (mb % 128) * 2,
            2 * m + b2i(r.2),
            (n - 1) as nat,
            matching && b2i(r.2) == match_bit,
        );
        lemma_tail(
            rd_matched(rd, probs, base, mb, m, n, matching).0.input,
            r.0.input,
            rd.input,
        );
    } else {
        lemma_tail_self(rd.input);
    }
}

/// The same of a length.
pub proof fn lemma_len_input(rd: Rd, probs: Seq<u32>, lm: int, pos_state: int)
    ensures
        is_tail(rd_len(rd, probs, lm, pos_state).0.input, rd.input),
{
    let out = rd_len(rd, probs, lm, pos_state).0.input;
    let c1 = rd_model_bit(rd, probs, lm + LM_CHOICE1);
    lemma_model_bit_input(rd, probs, lm + LM_CHOICE1);
    if !c1.2 {
        lemma_tree_input(c1.0, c1.1, lm + LM_LOW + pos_state * 8, 1, 8);
        lemma_tail(out, c1.0.input, rd.input);
    } else {
        let c2 = rd_model_bit(c1.0, c1.1, lm + LM_CHOICE2);
        lemma_model_bit_input(c1.0, c1.1, lm + LM_CHOICE2);
        lemma_tail(c2.0.input, c1.0.input, rd.input);
        if !c2.2 {
            lemma_tree_input(c2.0, c2.1, lm + LM_MID + pos_state * 8, 1, 8);
        } else {
            lemma_tree_input(c2.0, c2.1, lm + LM_HIGH, 1, 256);
        }
        lemma_tail(out, c2.0.input, rd.input);
    }
}

/// The same of a distance.
pub proof fn lemma_distance_input(rd: Rd, probs: Seq<u32>, len: int)
    ensures
        is_tail(rd_distance(rd, probs, len).0.input, rd.input),
{
    let out = rd_distance(rd, probs, len).0.input;
    let t = rd_tree(rd, probs, BM_DIS_SLOT + len_state(len) * 64, 1, 64);
    lemma_tree_input(rd, probs, BM_DIS_SLOT + len_state(len) * 64, 1, 64);
    let slot = t.2 - 64;
    if slot < START_DIS_MODEL {
    } else if slot < END_DIS_MODEL {
        lemma_tree_reversed_input(
            t.0,
            t.1,
            BM_DIS + slot_base(slot) - slot,
            1,
            direct_bits(slot),
            1,
            0,
        );
        lemma_tail(out, t.0.input, rd.input);
    } else {
        let d = rd_direct(t.0, (direct_bits(slot) - DIS_ALIGN_BITS) as nat, 0, true);
        lemma_direct_input(t.0, (direct_bits(slot) - DIS_ALIGN_BITS) as nat, 0, true);
        lemma_tail(d.0.input, t.0.input, rd.input);
        lemma_tree_reversed_input(d.0, t.1, BM_ALIGN as int, 1, DIS_ALIGN_BITS as nat, 1, 0);
        lemma_tail(out, d.0.input, rd.input);
    }
}

/// The same of a repeated match.
pub proof fn lemma_rep_input(rd: Rd, probs: Seq<u32>, ctx: Context)
    ensures
        is_tail(rd_rep(rd, probs, ctx).0.input, rd.input),
{
    let out = rd_rep(rd, probs, ctx).0.input;
    let r0 = rd_model_bit(rd, probs, BM_REP0 + ctx.state);
    lemma_model_bit_input(rd, probs, BM_REP0 + ctx.state);
    if !r0.2 {
        let l = rd_model_bit(r0.0, r0.1, BM_LEN + ctx.state * 4 + ctx.pos_state);
        lemma_model_bit_input(r0.0, r0.1, BM_LEN + ctx.state * 4 + ctx.pos_state);
        lemma_tail(l.0.input, r0.0.input, rd.input);
        if l.2 {
            lemma_len_input(l.0, l.1, REP_LEN_MODEL as int, ctx.pos_state as int);
            lemma_tail(out, l.0.input, rd.input);
        }
    } else {
        let r1 = rd_model_bit(r0.0, r0.1, BM_REP1 + ctx.state);
        lemma_model_bit_input(r0.0, r0.1, BM_REP1 + ctx.state);
        lemma_tail(r1.0.input, r0.0.input, rd.input);
        if !r1.2 {
            lemma_len_input(r1.0, r1.1, REP_LEN_MODEL as int, ctx.pos_state as int);
            lemma_tail(out, r1.0.input, rd.input);
        } else {
            let r2 = rd_model_bit(r1.0, r1.1, BM_REP2 + ctx.state);
            lemma_model_bit_input(r1.0, r1.1, BM_REP2 + ctx.state);
            lemma_tail(r2.0.input, r1.0.input, rd.input);
            lemma_len_input(r2.0, r2.1, REP_LEN_MODEL as int, ctx.pos_state as int);
            lemma_tail(out, r2.0.input, rd.input);
        }
    }
}

/// The same of a match.
pub proof fn lemma_match_input(rd: Rd, probs: Seq<u32>, ctx: Context)
    ensures
        is_tail(rd_match(rd, probs, ctx).0.input, rd.input),
{
    let l = rd_len(rd, probs, MATCH_LEN_MODEL as int, ctx.pos_state as int);
    lemma_len_input(rd, probs, MATCH_LEN_MODEL as int, ctx.pos_state as int);
    lemma_distance_input(l.0, l.1, l.2 + MIN_MATCH_LEN);
    lemma_tail(rd_match(rd, probs, ctx).0.input, l.0.input, rd.input);
}

/// The same of a literal.
pub proof fn lemma_literal_input(rd: Rd, probs: Seq<u32>, ctx: Context)
    ensures
        is_tail(rd_literal(rd, probs, ctx).0.input, rd.input),
{
    let base = BM_LITERAL + (ctx.prev_byte / 32) * LITERAL_GROUP;
    if ctx.state < 7 {
        lemma_tree_input(rd, probs, base, 1, 256);
    } else {
        lemma_matched_input(rd, probs, base, ctx.match_byte as int, 1, 8, true);
    }
}

/// An operation that is decoded takes input only.
pub proof fn lemma_op_input(rd: Rd, probs: Seq<u32>, ctx: Context)
    ensures
        is_tail(rd_op(rd, probs, ctx).0.input, rd.input),
{
    let out = rd_op(rd, probs, ctx).0.input;
    let m = rd_model_bit(rd, probs, BM_MATCH + ctx.state * 4 + ctx.pos_state);
    lemma_model_bit_input(rd, probs, BM_MATCH + ctx.state * 4 + ctx.pos_state);
    if !m.2 {
        lemma_literal_input(m.0, m.1, ctx);
        lemma_tail(out, m.0.input, rd.input);
    } else {
        let r = rd_model_bit(m.0, m.1, BM_REP + ctx.state);
        lemma_model_bit_input(m.0, m.1, BM_REP + ctx.state);
        lemma_tail(r.0.input, m.0.input, rd.input);
        if r.2 {
            lemma_rep_input(r.0, r.1, ctx);
        } else {
            lemma_match_input(r.0, r.1, ctx);
        }
        lemma_tail(out, r.0.input, rd.input);
    }
}

/// A step of decoding takes input only.
pub proof fn lemma_step_input(d: Dec, dictionary_size: u32)
    ensures
        match lzd_step(d, dictionary_size) {
            Step::Next(n, op) => is_tail(n.rd.input, d.rd.input),
            Step::End(e) => is_tail(e.rd.input, d.rd.input),
            _ => true,
        },
{
    lemma_op_input(d.rd, d.probs, d.lz.context());
    let r = rd_op(d.rd, d.probs, d.lz.context());
    lemma_tail_self(r.0.input);
    match lzd_step(d, dictionary_size) {
        Step::End(e) => {
            lemma_tail(e.rd.input, r.0.input, d.rd.input);
        },
        _ => {},
    }
}

/// A run of decoding takes input only.
pub proof fn lemma_run_input(d: Dec, dictionary_size: u32, free: int)
    ensures
        is_tail(lzd_run(d, dictionary_size, free).0.rd.input, d.rd.input),
    decreases free,
{
    lemma_tail_self(d.rd.input);
    if free < MAX_MATCH_LEN || d.lz.data.len() + MAX_MATCH_LEN > u64::MAX {
    } else {
        lemma_step_input(d, dictionary_size);
        match lzd_step(d, dictionary_size) {
            Step::Next(n, op) => {
                if op.out_len() >= 1 {
                    lemma_run_input(n, dictionary_size, free - op.out_len());
                    lemma_tail(
                        lzd_run(d, dictionary_size, free).0.rd.input,
                        n.rd.input,
                        d.rd.input,
                    );
                }
            },
            _ => {},
        }
    }
}

} // verus!
