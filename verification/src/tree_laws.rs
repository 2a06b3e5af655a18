//! Why the decoder reads back the symbols that the encoder wrote through bit
//! trees, as plain bits, and as literals after a match.

use vstd::prelude::*;
use vstd::arithmetic::power2::{pow2, lemma_pow2_unfold, lemma_pow2_strictly_increases, lemma2_to64, lemma_pow2_pos};
use crate::bit_model::{valid_prob, valid_probs, bm_update, b2i, lemma_valid_probs_update};
use crate::range_decoder::{
    rd_model_bit,
    rd_tree,
    rd_tree_reversed,
    rd_direct,
    rd_direct_bit,
    rd_matched,
};
use crate::range_encoder::{
    Ev,
    Re,
    re_event,
    re_events,
    lemma_re_events_cons,
    tree_events,
    tree_reversed_events,
    direct_events,
    matched_events,
};
use crate::range_laws::{
    re_inv,
    completes,
    rd_of,
    events_valid,
    lemma_event_inv,
    lemma_events_back,
    lemma_bit_sync,
    lemma_direct_sync,
};

verus! {

/// The mask that picks bit `n - 1 - i` of a symbol of `n` bits, or 0 once
/// `i` has reached `n`.
pub open spec fn mask_at(i: nat, n: nat) -> int {
    if i < n {
        pow2((n - 1 - i) as nat) as int
    } else {
        0
    }
}

/// Halving the mask of one bit gives the mask of the next.
pub proof fn lemma_mask_next(i: nat, n: nat)
    requires
        i < n,
    ensures
        mask_at(i, n) > 0,
        mask_at(i, n) / 2 == mask_at(i + 1, n),
{
    lemma_pow2_pos((n - 1 - i) as nat);
    if i + 1 < n {
        lemma_pow2_unfold((n - 1 - i) as nat);
    } else {
        lemma2_to64();
    }
}

/// A run that starts with a modelled bit is valid if the model and the rest
/// are.
pub proof fn lemma_valid_cons(p: u32, bit: bool, rest: Seq<Ev>)
    requires
        valid_prob(p),
        events_valid(rest),
    ensures
        events_valid(seq![Ev::Bit { prob: p, bit }] + rest),
{
    let evs = seq![Ev::Bit { prob: p, bit }] + rest;
    assert forall|i: int| 0 <= i < evs.len() implies (#[trigger] evs[i] matches Ev::Bit {
        prob,
        bit,
    } ==> valid_prob(prob)) by {
        if i > 0 {
            assert(evs[i] == rest[i - 1]);
        }
    }
}

/// The leaf that the bits of `sym` from `mask` down lead to from node `m`.
pub open spec fn msb_leaf(m: int, sym: int, mask: int) -> int
    decreases mask,
{
    if mask <= 0 {
        m
    } else {
        msb_leaf(2 * m + b2i((sym / mask) % 2 == 1), sym, mask / 2)
    }
}

/// The leaf that the `k` low bits of `sym` lead to from node `m` is `m`
/// followed by those bits.
pub proof fn lemma_msb_leaf(m: int, sym: int, k: nat)
    requires
        0 <= sym,
    ensures
        msb_leaf(m, sym, mask_at(0, k)) == m * pow2(k) + sym % (pow2(k) as int),
    decreases k,
{
    lemma2_to64();
    lemma_pow2_pos(k);
    if k == 0 {
    } else {
        lemma_mask_next(0, k);
        let half = pow2((k - 1) as nat) as int;
        lemma_pow2_unfold(k);
        lemma_pow2_pos((k - 1) as nat);
        let bit = b2i((sym / half) % 2 == 1);
        assert(mask_at(1, k) == mask_at(0, (k - 1) as nat));
        lemma_msb_leaf(2 * m + bit, sym, (k - 1) as nat);
        vstd::arithmetic::div_mod::lemma_mod_breakdown(sym, half, 2);
        assert(bit == (sym / half) % 2);
        assert((2 * m + bit) * half + sym % half == m * (2 * half) + sym % (half * 2))
            by (nonlinear_arith)
            requires
                sym % (half * 2) == half * ((sym / half) % 2) + sym % half,
                bit == (sym / half) % 2,
        ;
    }
}

/// The events of a bit tree are valid, and leave the probabilities valid.
pub proof fn lemma_tree_valid(probs: Seq<u32>, base: int, m: int, sym: int, i: nat, n: nat)
    requires
        valid_probs(probs),
        0 <= base,
        base + pow2(n) <= probs.len(),
        i <= n,
        pow2(i) <= m < 2 * pow2(i),
    ensures
        events_valid(tree_events(probs, base, m, sym, mask_at(i, n)).0),
        valid_probs(tree_events(probs, base, m, sym, mask_at(i, n)).1),
        tree_events(probs, base, m, sym, mask_at(i, n)).1.len() == probs.len(),
    decreases n - i,
{
    if i < n {
        lemma_mask_next(i, n);
        lemma_pow2_unfold(i + 1);
        if i + 1 < n {
            lemma_pow2_strictly_increases(i + 1, n);
        }
        let mask = mask_at(i, n);
        let bit = (sym / mask) % 2 == 1;
        let p = probs[base + m];
        let probs2 = probs.update(base + m, bm_update(p, bit));
        lemma_valid_probs_update(probs, base + m, bit);
        lemma_tree_valid(probs2, base, 2 * m + b2i(bit), sym, i + 1, n);
        lemma_valid_cons(p, bit, tree_events(probs2, base, 2 * m + b2i(bit), sym, mask / 2).0);
    }
}

/// The decoder in step with the encoder walks a bit tree to the leaf that
/// the encoder's bits lead to, and stays in step.
pub proof fn lemma_tree_sync(
    re: Re,
    f: Seq<u8>,
    probs: Seq<u32>,
    base: int,
    m: int,
    sym: int,
    i: nat,
    n: nat,
)
    requires
        re_inv(re),
        valid_probs(probs),
        0 <= base,
        base + pow2(n) <= probs.len(),
        i <= n,
        pow2(i) <= m < 2 * pow2(i),
        completes(re_events(re, tree_events(probs, base, m, sym, mask_at(i, n)).0), f),
    ensures
        rd_tree(rd_of(re, f), probs, base, m, pow2(n) as int) == (
            rd_of(re_events(re, tree_events(probs, base, m, sym, mask_at(i, n)).0), f),
            tree_events(probs, base, m, sym, mask_at(i, n)).1,
            msb_leaf(m, sym, mask_at(i, n)),
        ),
    decreases n - i,
{
    lemma_pow2_pos(i);
    if i < n {
        lemma_mask_next(i, n);
        lemma_pow2_unfold(i + 1);
        if i + 1 < n {
            lemma_pow2_strictly_increases(i + 1, n);
        }
        let mask = mask_at(i, n);
        let bit = (sym / mask) % 2 == 1;
        let p = probs[base + m];
        let e = Ev::Bit { prob: p, bit };
        let probs2 = probs.update(base + m, bm_update(p, bit));
        let m2 = 2 * m + b2i(bit);
        let r = tree_events(probs2, base, m2, sym, mask / 2);
        let re1 = re_event(re, e);
        lemma_valid_probs_update(probs, base + m, bit);
        lemma_tree_valid(probs2, base, m2, sym, i + 1, n);
        lemma_re_events_cons(re, e, r.0);
        lemma_event_inv(re, e);
        lemma_events_back(re1, r.0, f);
        lemma_bit_sync(re, f, p, bit);
        lemma_tree_sync(re1, f, probs2, base, m2, sym, i + 1, n);
        assert(rd_model_bit(rd_of(re, f), probs, base + m) == (rd_of(re1, f), probs2, bit));
    }
}

/// The value that the `n` low bits of `sym`, read lowest first, add up to
/// from `acc`, the lowest weighing `weight`.
pub open spec fn lsb_leaf(sym: int, n: nat, weight: int, acc: int) -> int
    decreases n,
{
    if n == 0 {
        acc
    } else {
        lsb_leaf(
            sym / 2,
            (n - 1) as nat,
            2 * weight,
            if sym % 2 == 1 {
                acc + weight
            } else {
                acc
            },
        )
    }
}

/// The `n` low bits of `sym`, read lowest first, add up to `sym` modulo
/// `2^n`, times the weight of the lowest.
pub proof fn lemma_lsb_leaf(sym: int, n: nat, weight: int, acc: int)
    requires
        0 <= sym,
    ensures
        lsb_leaf(sym, n, weight, acc) == acc + weight * (sym % (pow2(n) as int)),
    decreases n,
{
    lemma2_to64();
    lemma_pow2_pos(n);
    if n == 0 {
        assert(weight * 0 == 0);
    } else {
        let half = pow2((n - 1) as nat) as int;
        lemma_pow2_unfold(n);
        lemma_pow2_pos((n - 1) as nat);
        let acc2 = if sym % 2 == 1 {
            acc + weight
        } else {
            acc
        };
        lemma_lsb_leaf(sym / 2, (n - 1) as nat, 2 * weight, acc2);
        vstd::arithmetic::div_mod::lemma_mod_breakdown(sym, 2, half);
        assert(acc2 + (2 * weight) * ((sym / 2) % half) == acc + weight * (sym % (2 * half)))
            by (nonlinear_arith)
            requires
                sym % (2 * half) == 2 * ((sym / 2) % half) + sym % 2,
                acc2 == acc + weight * (sym % 2),
        ;
    }
}

/// The events of a reversed bit tree are valid, and leave the probabilities
/// valid.
pub proof fn lemma_tree_reversed_valid(
    probs: Seq<u32>,
    base: int,
    m: int,
    sym: int,
    i: nat,
    n: nat,
)
    requires
        valid_probs(probs),
        0 <= base,
        base + pow2(n) <= probs.len(),
        i <= n,
        pow2(i) <= m < 2 * pow2(i),
    ensures
        events_valid(tree_reversed_events(probs, base, m, sym, (n - i) as nat).0),
        valid_probs(tree_reversed_events(probs, base, m, sym, (n - i) as nat).1),
        tree_reversed_events(probs, base, m, sym, (n - i) as nat).1.len() == probs.len(),
    decreases n - i,
{
    if i < n {
        lemma_pow2_unfold(i + 1);
        if i + 1 < n {
            lemma_pow2_strictly_increases(i + 1, n);
        }
        let bit = sym % 2 == 1;
        let p = probs[base + m];
        let probs2 = probs.update(base + m, bm_update(p, bit));
        lemma_valid_probs_update(probs, base + m, bit);
        lemma_tree_reversed_valid(probs2, base, 2 * m + b2i(bit), sym / 2, i + 1, n);
        lemma_valid_cons(
            p,
            bit,
            tree_reversed_events(probs2, base, 2 * m + b2i(bit), sym / 2, (n - i - 1) as nat).0,
        );
    }
}

/// The decoder in step with the encoder reads back the bits of a reversed
/// bit tree, and stays in step.
pub proof fn lemma_tree_reversed_sync(
    re: Re,
    f: Seq<u8>,
    probs: Seq<u32>,
    base: int,
    m: int,
    sym: int,
    i: nat,
    n: nat,
    weight: int,
    acc: int,
)
    requires
        re_inv(re),
        valid_probs(probs),
        0 <= base,
        base + pow2(n) <= probs.len(),
        i <= n,
        pow2(i) <= m < 2 * pow2(i),
        completes(re_events(re, tree_reversed_events(probs, base, m, sym, (n - i) as nat).0), f),
    ensures
        rd_tree_reversed(rd_of(re, f), probs, base, m, (n - i) as nat, weight, acc) == (
            rd_of(re_events(re, tree_reversed_events(probs, base, m, sym, (n - i) as nat).0), f),
            tree_reversed_events(probs, base, m, sym, (n - i) as nat).1,
            lsb_leaf(sym, (n - i) as nat, weight, acc),
        ),
    decreases n - i,
{
    lemma_pow2_pos(i);
    if i < n {
        lemma_pow2_unfold(i + 1);
        if i + 1 < n {
            lemma_pow2_strictly_increases(i + 1, n);
        }
        let bit = sym % 2 == 1;
        let p = probs[base + m];
        let e = Ev::Bit { prob: p, bit };
        let probs2 = probs.update(base + m, bm_update(p, bit));
        let m2 = 2 * m + b2i(bit);
        let r = tree_reversed_events(probs2, base, m2, sym / 2, (n - i - 1) as nat);
        let re1 = re_event(re, e);
        lemma_valid_probs_update(probs, base + m, bit);
        lemma_tree_reversed_valid(probs2, base, m2, sym / 2, i + 1, n);
        lemma_re_events_cons(re, e, r.0);
        lemma_event_inv(re, e);
        lemma_events_back(re1, r.0, f);
        lemma_bit_sync(re, f, p, bit);
        lemma_tree_reversed_sync(
            re1,
            f,
            probs2,
            base,
            m2,
            sym / 2,
            i + 1,
            n,
            2 * weight,
            if bit {
                acc + weight
            } else {
                acc
            },
        );
        assert(rd_model_bit(rd_of(re, f), probs, base + m) == (rd_of(re1, f), probs2, bit));
    }
}

/// The events of plain bits are valid.
pub proof fn lemma_direct_valid(sym: int, i: nat, n: nat)
    requires
        i <= n,
    ensures
        events_valid(direct_events(sym, mask_at(i, n))),
    decreases n - i,
{
    if i < n {
        lemma_mask_next(i, n);
        lemma_direct_valid(sym, i + 1, n);
        let mask = mask_at(i, n);
        let evs = direct_events(sym, mask);
        let rest = direct_events(sym, mask / 2);
        assert forall|j: int| 0 <= j < evs.len() implies (#[trigger] evs[j] matches Ev::Bit {
            prob,
            bit,
        } ==> valid_prob(prob)) by {
            if j > 0 {
                assert(evs[j] == rest[j - 1]);
            }
        }
    }
}

/// The decoder in step with the encoder reads back plain bits, never leaves
/// the range, and stays in step.
pub proof fn lemma_direct_sync_run(re: Re, f: Seq<u8>, sym: int, i: nat, n: nat, acc: int)
    requires
        re_inv(re),
        i <= n,
        completes(re_events(re, direct_events(sym, mask_at(i, n))), f),
    ensures
        rd_direct(rd_of(re, f), (n - i) as nat, acc, true) == (
            rd_of(re_events(re, direct_events(sym, mask_at(i, n))), f),
            msb_leaf(acc, sym, mask_at(i, n)),
            true,
        ),
    decreases n - i,
{
    if i < n {
        lemma_mask_next(i, n);
        let mask = mask_at(i, n);
        let bit = (sym / mask) % 2 == 1;
        let e = Ev::Direct { bit };
        let rest = direct_events(sym, mask / 2);
        let re1 = re_event(re, e);
        lemma_direct_valid(sym, i + 1, n);
        lemma_re_events_cons(re, e, rest);
        lemma_event_inv(re, e);
        lemma_events_back(re1, rest, f);
        lemma_direct_sync(re, f, bit);
        lemma_direct_sync_run(re1, f, sym, i + 1, n, 2 * acc + b2i(bit));
        assert(rd_direct_bit(rd_of(re, f)) == (rd_of(re1, f), bit, true));
    }
}

/// The leaf that the `n` high bits of the byte `s` lead to from node `m`.
pub open spec fn byte_leaf(s: int, m: int, n: nat) -> int
    decreases n,
{
    if n == 0 {
        m
    } else {
        byte_leaf((s % 128) * 2, 2 * m + b2i(s / 128 == 1), (n - 1) as nat)
    }
}

/// The eight bits of a byte lead from the root to the leaf of the byte.
pub proof fn lemma_byte_leaf(s: u8)
    ensures
        byte_leaf(s as int, 1, 8) == 0x100 + s,
{
    reveal_with_fuel(byte_leaf, 9);
    let s0 = s as int;
    let s1 = (s0 % 128) * 2;
    let s2 = (s1 % 128) * 2;
    let s3 = (s2 % 128) * 2;
    let s4 = (s3 % 128) * 2;
    let s5 = (s4 % 128) * 2;
    let s6 = (s5 % 128) * 2;
    let s7 = (s6 % 128) * 2;
    assert(s0 == (s0 / 128) * 128 + (s1 / 128) * 64 + (s2 / 128) * 32 + (s3 / 128) * 16 + (s4
        / 128) * 8 + (s5 / 128) * 4 + (s6 / 128) * 2 + s7 / 128);
}

/// The place of the model of a bit of a literal after a match.
pub open spec fn matched_index(base: int, mb: int, m: int, matching: bool) -> int {
    if matching {
        base + 0x100 + 0x100 * (mb / 128) + m
    } else {
        base + m
    }
}

/// The events of a literal after a match are valid, and leave the
/// probabilities valid.
pub proof fn lemma_matched_valid(
    probs: Seq<u32>,
    base: int,
    mb: int,
    s: int,
    m: int,
    i: nat,
    matching: bool,
)
    requires
        valid_probs(probs),
        0 <= base,
        base + 0x300 <= probs.len(),
        i <= 8,
        0 <= mb < 256,
        0 <= s < 256,
        pow2(i) <= m < 2 * pow2(i),
    ensures
        events_valid(matched_events(probs, base, mb, s, m, (8 - i) as nat, matching).0),
        valid_probs(matched_events(probs, base, mb, s, m, (8 - i) as nat, matching).1),
        matched_events(probs, base, mb, s, m, (8 - i) as nat, matching).1.len() == probs.len(),
    decreases 8 - i,
{
    if i < 8 {
        lemma2_to64();
        lemma_pow2_unfold(i + 1);
        if i + 1 < 8 {
            lemma_pow2_strictly_increases(i + 1, 8);
        }
        let bit = s / 128 == 1;
        let idx = matched_index(base, mb, m, matching);
        let p = probs[idx];
        let probs2 = probs.update(idx, bm_update(p, bit));
        lemma_valid_probs_update(probs, idx, bit);
        let matching2 = matching && b2i(bit) == mb / 128;
        lemma_matched_valid(probs2, base, (mb % 128) * 2, (s % 128) * 2, 2 * m + b2i(bit), i + 1, matching2);
        lemma_valid_cons(
            p,
            bit,
            matched_events(
                probs2,
                base,
                (mb % 128) * 2,
                (s % 128) * 2,
                2 * m + b2i(bit),
                (8 - i - 1) as nat,
                matching2,
            ).0,
        );
    }
}

/// The decoder in step with the encoder reads back the bits of a literal
/// after a match, and stays in step.
pub proof fn lemma_matched_sync(
    re: Re,
    f: Seq<u8>,
    probs: Seq<u32>,
    base: int,
    mb: int,
    s: int,
    m: int,
    i: nat,
    matching: bool,
)
    requires
        re_inv(re),
        valid_probs(probs),
        0 <= base,
        base + 0x300 <= probs.len(),
        i <= 8,
        0 <= mb < 256,
        0 <= s < 256,
        pow2(i) <= m < 2 * pow2(i),
        completes(
            re_events(re, matched_events(probs, base, mb, s, m, (8 - i) as nat, matching).0),
            f,
        ),
    ensures
        rd_matched(rd_of(re, f), probs, base, mb, m, (8 - i) as nat, matching) == (
            rd_of(
                re_events(re, matched_events(probs, base, mb, s, m, (8 - i) as nat, matching).0),
                f,
            ),
            matched_events(probs, base, mb, s, m, (8 - i) as nat, matching).1,
            byte_leaf(s, m, (8 - i) as nat),
        ),
    decreases 8 - i,
{
    if i < 8 {
        lemma2_to64();
        lemma_pow2_unfold(i + 1);
        if i + 1 < 8 {
            lemma_pow2_strictly_increases(i + 1, 8);
        }
        let bit = s / 128 == 1;
        let idx = matched_index(base, mb, m, matching);
        let p = probs[idx];
        let e = Ev::Bit { prob: p, bit };
        let probs2 = probs.update(idx, bm_update(p, bit));
        let m2 = 2 * m + b2i(bit);
        let matching2 = matching && b2i(bit) == mb / 128;
        let r = matched_events(probs2, base, (mb % 128) * 2, (s % 128) * 2, m2, (8 - i - 1) as nat, matching2);
        let re1 = re_event(re, e);
        lemma_valid_probs_update(probs, idx, bit);
        lemma_matched_valid(probs2, base, (mb % 128) * 2, (s % 128) * 2, m2, i + 1, matching2);
        lemma_re_events_cons(re, e, r.0);
        lemma_event_inv(re, e);
        lemma_events_back(re1, r.0, f);
        lemma_bit_sync(re, f, p, bit);
        lemma_matched_sync(re1, f, probs2, base, (mb % 128) * 2, (s % 128) * 2, m2, i + 1, matching2);
        assert(rd_model_bit(rd_of(re, f), probs, idx) == (rd_of(re1, f), probs2, bit));
    }
}

} // verus!
