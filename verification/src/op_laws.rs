//! Why the decoder reads back the operation that the encoder wrote.

use vstd::prelude::*;
use vstd::arithmetic::power2::{pow2, lemma2_to64, lemma_pow2_pos};
use crate::bit_model::{valid_prob, valid_probs, bm_update, lemma_valid_probs_update};
use crate::lzma::{
    Op,
    Context,
    len_state,
    BM_LITERAL,
    LITERAL_GROUP,
    BM_MATCH,
    BM_REP,
    BM_REP0,
    BM_REP1,
    BM_REP2,
    BM_LEN,
    BM_DIS_SLOT,
    BM_DIS,
    BM_ALIGN,
    MATCH_LEN_MODEL,
    REP_LEN_MODEL,
    NUM_MODELS,
    LM_CHOICE1,
    LM_CHOICE2,
    LM_LOW,
    LM_MID,
    LM_HIGH,
    MIN_MATCH_LEN,
    MAX_MATCH_LEN,
    START_DIS_MODEL,
    END_DIS_MODEL,
    DIS_ALIGN_BITS,
};
use crate::op_decoder::{
    direct_bits,
    slot_base,
    lemma_slot,
    rd_len,
    rd_distance,
    rd_literal,
    rd_rep_len,
    rd_rep,
    rd_match,
    rd_op,
};
use crate::op_encoder::{
    Coded,
    ev_none,
    ev_bit,
    top_two,
    dis_slot,
    lemma_top_two,
    len_events,
    distance_events,
    literal_events,
    op_events,
};
use crate::range_decoder::{rd_model_bit, rd_tree, rd_tree_reversed, rd_direct};
use crate::range_encoder::{
    Ev,
    Re,
    re_event,
    re_events,
    lemma_re_events_cons,
    lemma_re_events_concat,
    tree_events,
    tree_reversed_events,
    direct_events,
};
use crate::range_laws::{
    re_inv,
    completes,
    rd_of,
    events_valid,
    lemma_event_inv,
    lemma_events_back,
    lemma_events_split,
    lemma_inv_forward,
    lemma_bit_sync,
};
use crate::tree_laws::{
    mask_at,
    lemma_valid_cons,
    lemma_msb_leaf,
    lemma_lsb_leaf,
    lemma_byte_leaf,
    lemma_tree_valid,
    lemma_tree_sync,
    lemma_tree_reversed_valid,
    lemma_tree_reversed_sync,
    lemma_direct_valid,
    lemma_direct_sync_run,
    lemma_matched_valid,
    lemma_matched_sync,
};

verus! {

/// Two valid runs make a valid run.
pub proof fn lemma_valid_concat(a: Seq<Ev>, b: Seq<Ev>)
    requires
        events_valid(a),
        events_valid(b),
    ensures
        events_valid(a + b),
{
    let evs = a + b;
    assert forall|i: int| 0 <= i < evs.len() implies (#[trigger] evs[i] matches Ev::Bit {
        prob,
        bit,
    } ==> valid_prob(prob)) by {
        if i < a.len() {
            assert(evs[i] == a[i]);
        } else {
            assert(evs[i] == b[i - a.len()]);
        }
    }
}

/// What has been coded so far is valid.
pub open spec fn coded_valid(c: Coded, len: nat) -> bool {
    events_valid(c.0) && valid_probs(c.1) && c.1.len() == len
}

/// One more bit keeps what has been coded valid.
pub proof fn lemma_ev_bit_valid(acc: Coded, idx: int, bit: bool)
    requires
        coded_valid(acc, acc.1.len()),
        0 <= idx < acc.1.len(),
    ensures
        coded_valid(ev_bit(acc, idx, bit), acc.1.len()),
        ev_bit(acc, idx, bit).0 == acc.0 + seq![Ev::Bit { prob: acc.1[idx], bit }],
{
    let e = Ev::Bit { prob: acc.1[idx], bit };
    lemma_valid_probs_update(acc.1, idx, bit);
    lemma_valid_cons(acc.1[idx], bit, Seq::empty());
    assert(seq![e] + Seq::<Ev>::empty() =~= seq![e]);
    lemma_valid_concat(acc.0, seq![e]);
    assert(acc.0.push(e) =~= acc.0 + seq![e]);
}

/// The decoder in step with the encoder, which is about to write a bit and
/// then more, reads the bit back and stays in step.
pub proof fn lemma_bit_then(re: Re, f: Seq<u8>, probs: Seq<u32>, idx: int, bit: bool, rest: Seq<Ev>)
    requires
        re_inv(re),
        valid_probs(probs),
        0 <= idx < probs.len(),
        events_valid(rest),
        completes(re_events(re, seq![Ev::Bit { prob: probs[idx], bit }] + rest), f),
    ensures
        rd_model_bit(rd_of(re, f), probs, idx) == (
            rd_of(re_event(re, Ev::Bit { prob: probs[idx], bit }), f),
            probs.update(idx, bm_update(probs[idx], bit)),
            bit,
        ),
        re_inv(re_event(re, Ev::Bit { prob: probs[idx], bit })),
        valid_probs(probs.update(idx, bm_update(probs[idx], bit))),
        re_events(re, seq![Ev::Bit { prob: probs[idx], bit }] + rest) == re_events(
            re_event(re, Ev::Bit { prob: probs[idx], bit }),
            rest,
        ),
        completes(re_events(re_event(re, Ev::Bit { prob: probs[idx], bit }), rest), f),
{
    let e = Ev::Bit { prob: probs[idx], bit };
    lemma_valid_probs_update(probs, idx, bit);
    lemma_re_events_cons(re, e, rest);
    lemma_event_inv(re, e);
    lemma_events_back(re_event(re, e), rest, f);
    lemma_bit_sync(re, f, probs[idx], bit);
}

/// The events of a length are valid, and leave the probabilities valid.
pub proof fn lemma_len_valid(probs: Seq<u32>, lm: int, pos_state: int, len: int)
    requires
        valid_probs(probs),
        probs.len() == NUM_MODELS,
        lm == MATCH_LEN_MODEL || lm == REP_LEN_MODEL,
        0 <= pos_state < 4,
        0 <= len < 272,
    ensures
        coded_valid(len_events(probs, lm, pos_state, len), NUM_MODELS as nat),
{
    lemma2_to64();
    let a = ev_none(probs);
    assert(events_valid(a.0));
    if len < 8 {
        let c1 = ev_bit(a, lm + LM_CHOICE1, false);
        lemma_ev_bit_valid(a, lm + LM_CHOICE1, false);
        lemma_tree_valid(c1.1, lm + LM_LOW + pos_state * 8, 1, len, 0, 3);
        lemma_valid_concat(c1.0, tree_events(c1.1, lm + LM_LOW + pos_state * 8, 1, len, 4).0);
    } else if len < 16 {
        let c1 = ev_bit(a, lm + LM_CHOICE1, true);
        lemma_ev_bit_valid(a, lm + LM_CHOICE1, true);
        let c2 = ev_bit(c1, lm + LM_CHOICE2, false);
        lemma_ev_bit_valid(c1, lm + LM_CHOICE2, false);
        lemma_tree_valid(c2.1, lm + LM_MID + pos_state * 8, 1, len - 8, 0, 3);
        lemma_valid_concat(c2.0, tree_events(c2.1, lm + LM_MID + pos_state * 8, 1, len - 8, 4).0);
    } else {
        let c1 = ev_bit(a, lm + LM_CHOICE1, true);
        lemma_ev_bit_valid(a, lm + LM_CHOICE1, true);
        let c2 = ev_bit(c1, lm + LM_CHOICE2, true);
        lemma_ev_bit_valid(c1, lm + LM_CHOICE2, true);
        lemma_tree_valid(c2.1, lm + LM_HIGH, 1, len - 16, 0, 8);
        lemma_valid_concat(c2.0, tree_events(c2.1, lm + LM_HIGH, 1, len - 16, 128).0);
    }
}

/// The decoder in step with the encoder reads back a length of the low
/// class, and stays in step.
pub proof fn lemma_len_low_sync(
    re: Re,
    f: Seq<u8>,
    probs: Seq<u32>,
    lm: int,
    pos_state: int,
    len: int,
)
    requires
        re_inv(re),
        valid_probs(probs),
        probs.len() == NUM_MODELS,
        lm == MATCH_LEN_MODEL || lm == REP_LEN_MODEL,
        0 <= pos_state < 4,
        0 <= len < 8,
        completes(re_events(re, len_events(probs, lm, pos_state, len).0), f),
    ensures
        rd_len(rd_of(re, f), probs, lm, pos_state) == (
            rd_of(re_events(re, len_events(probs, lm, pos_state, len).0), f),
            len_events(probs, lm, pos_state, len).1,
            len,
        ),
{
    lemma2_to64();
    let a = ev_none(probs);
    let i1 = lm + LM_CHOICE1;
    let c1 = ev_bit(a, i1, false);
    let base = lm + LM_LOW + pos_state * 8;
    let t = tree_events(c1.1, base, 1, len, 4);
    let e1 = Ev::Bit { prob: probs[i1], bit: false };
    let re1 = re_event(re, e1);
    lemma_valid_probs_update(probs, i1, false);
    lemma_tree_valid(c1.1, base, 1, len, 0, 3);
    assert(c1.0 + t.0 =~= seq![e1] + t.0);
    lemma_bit_then(re, f, probs, i1, false, t.0);
    lemma_tree_sync(re1, f, c1.1, base, 1, len, 0, 3);
    lemma_msb_leaf(1, len, 3);
    let r1 = rd_model_bit(rd_of(re, f), probs, i1);
    assert(r1 == (rd_of(re1, f), c1.1, false));
    let t2 = rd_tree(r1.0, r1.1, base, 1, 8);
    assert(t2 == (rd_of(re_events(re1, t.0), f), t.1, 8 + len));
}

/// The decoder in step with the encoder reads back a length of the middle
/// class, and stays in step.
pub proof fn lemma_len_mid_sync(
    re: Re,
    f: Seq<u8>,
    probs: Seq<u32>,
    lm: int,
    pos_state: int,
    len: int,
)
    requires
        re_inv(re),
        valid_probs(probs),
        probs.len() == NUM_MODELS,
        lm == MATCH_LEN_MODEL || lm == REP_LEN_MODEL,
        0 <= pos_state < 4,
        8 <= len < 16,
        completes(re_events(re, len_events(probs, lm, pos_state, len).0), f),
    ensures
        rd_len(rd_of(re, f), probs, lm, pos_state) == (
            rd_of(re_events(re, len_events(probs, lm, pos_state, len).0), f),
            len_events(probs, lm, pos_state, len).1,
            len,
        ),
{
    lemma2_to64();
    let a = ev_none(probs);
    let i1 = lm + LM_CHOICE1;
    let i2 = lm + LM_CHOICE2;
    let c1 = ev_bit(a, i1, true);
    let e1 = Ev::Bit { prob: probs[i1], bit: true };
    let re1 = re_event(re, e1);
    lemma_valid_probs_update(probs, i1, true);
    let c2 = ev_bit(c1, i2, false);
    let e2 = Ev::Bit { prob: c1.1[i2], bit: false };
    let re2 = re_event(re1, e2);
    let base = lm + LM_MID + pos_state * 8;
    let t = tree_events(c2.1, base, 1, len - 8, 4);
    lemma_valid_probs_update(c1.1, i2, false);
    lemma_tree_valid(c2.1, base, 1, len - 8, 0, 3);
    lemma_valid_cons(c1.1[i2], false, t.0);
    assert(c2.0 + t.0 =~= seq![e1] + (seq![e2] + t.0));
    lemma_bit_then(re, f, probs, i1, true, seq![e2] + t.0);
    lemma_bit_then(re1, f, c1.1, i2, false, t.0);
    lemma_tree_sync(re2, f, c2.1, base, 1, len - 8, 0, 3);
    lemma_msb_leaf(1, len - 8, 3);
    let r1 = rd_model_bit(rd_of(re, f), probs, i1);
    assert(r1 == (rd_of(re1, f), c1.1, true));
    let r2 = rd_model_bit(r1.0, r1.1, i2);
    assert(r2 == (rd_of(re2, f), c2.1, false));
    let t2 = rd_tree(r2.0, r2.1, base, 1, 8);
    assert(t2 == (rd_of(re_events(re2, t.0), f), t.1, len));
}

/// The decoder in step with the encoder reads back a length of the high
/// class, and stays in step.
pub proof fn lemma_len_high_sync(
    re: Re,
    f: Seq<u8>,
    probs: Seq<u32>,
    lm: int,
    pos_state: int,
    len: int,
)
    requires
        re_inv(re),
        valid_probs(probs),
        probs.len() == NUM_MODELS,
        lm == MATCH_LEN_MODEL || lm == REP_LEN_MODEL,
        0 <= pos_state < 4,
        16 <= len < 272,
        completes(re_events(re, len_events(probs, lm, pos_state, len).0), f),
    ensures
        rd_len(rd_of(re, f), probs, lm, pos_state) == (
            rd_of(re_events(re, len_events(probs, lm, pos_state, len).0), f),
            len_events(probs, lm, pos_state, len).1,
            len,
        ),
{
    lemma2_to64();
    let a = ev_none(probs);
    let i1 = lm + LM_CHOICE1;
    let i2 = lm + LM_CHOICE2;
    let c1 = ev_bit(a, i1, true);
    let e1 = Ev::Bit { prob: probs[i1], bit: true };
    let re1 = re_event(re, e1);
    lemma_valid_probs_update(probs, i1, true);
    let c2 = ev_bit(c1, i2, true);
    let e2 = Ev::Bit { prob: c1.1[i2], bit: true };
    let re2 = re_event(re1, e2);
    let base = lm + LM_HIGH;
    let t = tree_events(c2.1, base, 1, len - 16, 128);
    lemma_valid_probs_update(c1.1, i2, true);
    lemma_tree_valid(c2.1, base, 1, len - 16, 0, 8);
    lemma_valid_cons(c1.1[i2], true, t.0);
    assert(c2.0 + t.0 =~= seq![e1] + (seq![e2] + t.0));
    lemma_bit_then(re, f, probs, i1, true, seq![e2] + t.0);
    lemma_bit_then(re1, f, c1.1, i2, true, t.0);
    lemma_tree_sync(re2, f, c2.1, base, 1, len - 16, 0, 8);
    lemma_msb_leaf(1, len - 16, 8);
    let r1 = rd_model_bit(rd_of(re, f), probs, i1);
    assert(r1 == (rd_of(re1, f), c1.1, true));
    let r2 = rd_model_bit(r1.0, r1.1, i2);
    assert(r2 == (rd_of(re2, f), c2.1, true));
    let t2 = rd_tree(r2.0, r2.1, base, 1, 256);
    assert(t2 == (rd_of(re_events(re2, t.0), f), t.1, 240 + len));
}

/// The decoder in step with the encoder reads back a length, and stays in
/// step.
pub proof fn lemma_len_sync(re: Re, f: Seq<u8>, probs: Seq<u32>, lm: int, pos_state: int, len: int)
    requires
        re_inv(re),
        valid_probs(probs),
        probs.len() == NUM_MODELS,
        lm == MATCH_LEN_MODEL || lm == REP_LEN_MODEL,
        0 <= pos_state < 4,
        0 <= len < 272,
        completes(re_events(re, len_events(probs, lm, pos_state, len).0), f),
    ensures
        rd_len(rd_of(re, f), probs, lm, pos_state) == (
            rd_of(re_events(re, len_events(probs, lm, pos_state, len).0), f),
            len_events(probs, lm, pos_state, len).1,
            len,
        ),
{
    if len < 8 {
        lemma_len_low_sync(re, f, probs, lm, pos_state, len);
    } else if len < 16 {
        lemma_len_mid_sync(re, f, probs, lm, pos_state, len);
    } else {
        lemma_len_high_sync(re, f, probs, lm, pos_state, len);
    }
}

/// What lies below the top two bits of a distance is less than their
/// weight, and the slot of the distance is below 64.
pub proof fn lemma_dis_parts(dis: int)
    requires
        0 <= dis <= u32::MAX,
    ensures
        0 <= dis_slot(dis) < 64,
        dis < 4 ==> dis_slot(dis) == dis,
        dis >= 4 ==> {
            &&& dis_slot(dis) >= 4
            &&& 0 <= dis - slot_base(dis_slot(dis)) < pow2(direct_bits(dis_slot(dis)))
        },
{
    if dis >= 4 {
        lemma_top_two(dis);
        let t = top_two(dis);
        let p = pow2(t.1) as int;
        assert((t.0 + 1) * p == t.0 * p + p) by (nonlinear_arith);
    }
}

/// The events of a distance are valid, and leave the probabilities valid.
pub proof fn lemma_distance_valid(probs: Seq<u32>, len: int, dis: int)
    requires
        valid_probs(probs),
        probs.len() == NUM_MODELS,
        MIN_MATCH_LEN <= len,
        0 <= dis <= u32::MAX,
    ensures
        coded_valid(distance_events(probs, len, dis), NUM_MODELS as nat),
{
    lemma2_to64();
    lemma_dis_parts(dis);
    let slot = dis_slot(dis);
    let base = BM_DIS_SLOT + len_state(len) * 64;
    let t = tree_events(probs, base, 1, slot, 32);
    lemma_tree_valid(probs, base, 1, slot, 0, 6);
    if slot >= START_DIS_MODEL {
        lemma_slot(slot);
        let db = direct_bits(slot);
        let low = dis - slot_base(slot);
        if slot < END_DIS_MODEL {
            let rb = BM_DIS + slot_base(slot) - slot;
            lemma_tree_reversed_valid(t.1, rb, 1, low, 0, db);
            lemma_valid_concat(t.0, tree_reversed_events(t.1, rb, 1, low, db).0);
        } else {
            let k = (db - DIS_ALIGN_BITS) as nat;
            let d = direct_events(low / 16, mask_at(0, k));
            lemma_direct_valid(low / 16, 0, k);
            lemma_valid_concat(t.0, d);
            lemma_tree_reversed_valid(t.1, BM_ALIGN as int, 1, low % 16, 0, 4);
            lemma_valid_concat(
                t.0 + d,
                tree_reversed_events(t.1, BM_ALIGN as int, 1, low % 16, 4).0,
            );
        }
    }
}

/// The decoder in step with the encoder reads back the slot of a distance,
/// and stays in step.
pub proof fn lemma_slot_sync(re: Re, f: Seq<u8>, probs: Seq<u32>, len: int, slot: int)
    requires
        re_inv(re),
        valid_probs(probs),
        probs.len() == NUM_MODELS,
        MIN_MATCH_LEN <= len,
        0 <= slot < 64,
        completes(
            re_events(re, tree_events(probs, BM_DIS_SLOT + len_state(len) * 64, 1, slot, 32).0),
            f,
        ),
    ensures
        rd_tree(rd_of(re, f), probs, BM_DIS_SLOT + len_state(len) * 64, 1, 64) == (
            rd_of(
                re_events(re, tree_events(probs, BM_DIS_SLOT + len_state(len) * 64, 1, slot, 32).0),
                f,
            ),
            tree_events(probs, BM_DIS_SLOT + len_state(len) * 64, 1, slot, 32).1,
            64 + slot,
        ),
        coded_valid(
            tree_events(probs, BM_DIS_SLOT + len_state(len) * 64, 1, slot, 32),
            NUM_MODELS as nat,
        ),
        re_inv(re_events(re, tree_events(probs, BM_DIS_SLOT + len_state(len) * 64, 1, slot, 32).0)),
{
    lemma2_to64();
    let base = BM_DIS_SLOT + len_state(len) * 64;
    lemma_tree_valid(probs, base, 1, slot, 0, 6);
    lemma_msb_leaf(1, slot, 6);
    lemma_tree_sync(re, f, probs, base, 1, slot, 0, 6);
    lemma_inv_forward(re, tree_events(probs, base, 1, slot, 32).0);
}

/// The decoder in step with the encoder reads back a distance of a slot
/// whose extra bits all go through models, and stays in step.
pub proof fn lemma_distance_mid_sync(re: Re, f: Seq<u8>, probs: Seq<u32>, len: int, dis: u32)
    requires
        re_inv(re),
        valid_probs(probs),
        probs.len() == NUM_MODELS,
        MIN_MATCH_LEN <= len,
        START_DIS_MODEL <= dis_slot(dis as int) < END_DIS_MODEL,
        completes(re_events(re, distance_events(probs, len, dis as int).0), f),
    ensures
        rd_distance(rd_of(re, f), probs, len) == (
            rd_of(re_events(re, distance_events(probs, len, dis as int).0), f),
            distance_events(probs, len, dis as int).1,
            Some(dis),
        ),
{
    lemma2_to64();
    lemma_dis_parts(dis as int);
    let slot = dis_slot(dis as int);
    let base = BM_DIS_SLOT + len_state(len) * 64;
    let t = tree_events(probs, base, 1, slot, 32);
    lemma_tree_valid(probs, base, 1, slot, 0, 6);
    lemma_slot(slot);
    let db = direct_bits(slot);
    let low = dis - slot_base(slot);
    let re1 = re_events(re, t.0);
    let rb = BM_DIS + slot_base(slot) - slot;
    let r = tree_reversed_events(t.1, rb, 1, low, db);
    lemma_tree_reversed_valid(t.1, rb, 1, low, 0, db);
    lemma_events_split(re, t.0, r.0, f);
    lemma_slot_sync(re, f, probs, len, slot);
    lemma_tree_reversed_sync(re1, f, t.1, rb, 1, low, 0, db, 1, 0);
    lemma_lsb_leaf(low, db, 1, 0);
    lemma_pow2_pos(db);
    vstd::arithmetic::div_mod::lemma_small_mod(low as nat, pow2(db));
    let t2 = rd_tree(rd_of(re, f), probs, base, 1, 64);
    assert(t2 == (rd_of(re1, f), t.1, 64 + slot));
    let r2 = rd_tree_reversed(t2.0, t2.1, rb, 1, db, 1, 0);
    assert(r2 == (rd_of(re_events(re1, r.0), f), r.1, low));
}

/// The decoder in step with the encoder reads back a distance of a slot
/// whose extra bits are plain but for the lowest four, and stays in step.
pub proof fn lemma_distance_high_sync(re: Re, f: Seq<u8>, probs: Seq<u32>, len: int, dis: u32)
    requires
        re_inv(re),
        valid_probs(probs),
        probs.len() == NUM_MODELS,
        MIN_MATCH_LEN <= len,
        END_DIS_MODEL <= dis_slot(dis as int),
        completes(re_events(re, distance_events(probs, len, dis as int).0), f),
    ensures
        rd_distance(rd_of(re, f), probs, len) == (
            rd_of(re_events(re, distance_events(probs, len, dis as int).0), f),
            distance_events(probs, len, dis as int).1,
            Some(dis),
        ),
{
    lemma2_to64();
    lemma_dis_parts(dis as int);
    let slot = dis_slot(dis as int);
    let base = BM_DIS_SLOT + len_state(len) * 64;
    let t = tree_events(probs, base, 1, slot, 32);
    lemma_tree_valid(probs, base, 1, slot, 0, 6);
    lemma_slot(slot);
    let db = direct_bits(slot);
    let low = dis - slot_base(slot);
    let re1 = re_events(re, t.0);
    let k = (db - DIS_ALIGN_BITS) as nat;
    let d = direct_events(low / 16, mask_at(0, k));
    let a = tree_reversed_events(t.1, BM_ALIGN as int, 1, low % 16, 4);
    lemma_direct_valid(low / 16, 0, k);
    lemma_tree_reversed_valid(t.1, BM_ALIGN as int, 1, low % 16, 0, 4);
    lemma_valid_concat(t.0, d);
    lemma_valid_concat(d, a.0);
    assert((t.0 + d) + a.0 =~= t.0 + (d + a.0));
    lemma_events_split(re, t.0, d + a.0, f);
    lemma_slot_sync(re, f, probs, len, slot);
    lemma_events_split(re1, d, a.0, f);
    lemma_direct_sync_run(re1, f, low / 16, 0, k, 0);
    lemma_msb_leaf(0, low / 16, k);
    let re2 = re_events(re1, d);
    lemma_tree_reversed_sync(re2, f, t.1, BM_ALIGN as int, 1, low % 16, 0, 4, 1, 0);
    lemma_lsb_leaf(low % 16, 4, 1, 0);
    lemma_pow2_pos(k);
    assert(low / 16 < pow2(k));
    vstd::arithmetic::div_mod::lemma_small_mod((low / 16) as nat, pow2(k));
    lemma_re_events_concat(re, t.0, d + a.0);
    lemma_re_events_concat(re1, d, a.0);
    let t2 = rd_tree(rd_of(re, f), probs, base, 1, 64);
    assert(t2 == (rd_of(re1, f), t.1, 64 + slot));
    let d2 = rd_direct(t2.0, k, 0, true);
    assert(d2 == (rd_of(re2, f), low / 16, true));
    let a2 = rd_tree_reversed(d2.0, t2.1, BM_ALIGN as int, 1, 4, 1, 0);
    assert(a2 == (rd_of(re_events(re2, a.0), f), a.1, low % 16));
    assert(distance_events(probs, len, dis as int).0 == (t.0 + d) + a.0);
}

/// The decoder in step with the encoder reads back a distance, and stays in
/// step.
pub proof fn lemma_distance_sync(re: Re, f: Seq<u8>, probs: Seq<u32>, len: int, dis: u32)
    requires
        re_inv(re),
        valid_probs(probs),
        probs.len() == NUM_MODELS,
        MIN_MATCH_LEN <= len,
        completes(re_events(re, distance_events(probs, len, dis as int).0), f),
    ensures
        rd_distance(rd_of(re, f), probs, len) == (
            rd_of(re_events(re, distance_events(probs, len, dis as int).0), f),
            distance_events(probs, len, dis as int).1,
            Some(dis),
        ),
{
    lemma_dis_parts(dis as int);
    let slot = dis_slot(dis as int);
    if slot < START_DIS_MODEL {
        lemma_slot_sync(re, f, probs, len, slot);
    } else if slot < END_DIS_MODEL {
        lemma_distance_mid_sync(re, f, probs, len, dis);
    } else {
        lemma_distance_high_sync(re, f, probs, len, dis);
    }
}

/// The events of a literal are valid, and leave the probabilities valid.
pub proof fn lemma_literal_valid(probs: Seq<u32>, ctx: Context, byte: u8)
    requires
        valid_probs(probs),
        probs.len() == NUM_MODELS,
        ctx.wf(),
    ensures
        coded_valid(literal_events(probs, ctx, byte), NUM_MODELS as nat),
{
    lemma2_to64();
    let base = BM_LITERAL + (ctx.prev_byte / 32) * LITERAL_GROUP;
    if ctx.state < 7 {
        lemma_tree_valid(probs, base, 1, byte as int, 0, 8);
    } else {
        lemma_matched_valid(probs, base, ctx.match_byte as int, byte as int, 1, 0, true);
    }
}

/// The decoder in step with the encoder reads back a literal, and stays in
/// step.
pub proof fn lemma_literal_sync(re: Re, f: Seq<u8>, probs: Seq<u32>, ctx: Context, byte: u8)
    requires
        re_inv(re),
        valid_probs(probs),
        probs.len() == NUM_MODELS,
        ctx.wf(),
        completes(re_events(re, literal_events(probs, ctx, byte).0), f),
    ensures
        rd_literal(rd_of(re, f), probs, ctx) == (
            rd_of(re_events(re, literal_events(probs, ctx, byte).0), f),
            literal_events(probs, ctx, byte).1,
            Some(Op::Literal { byte }),
        ),
{
    lemma2_to64();
    let base = BM_LITERAL + (ctx.prev_byte / 32) * LITERAL_GROUP;
    if ctx.state < 7 {
        lemma_tree_sync(re, f, probs, base, 1, byte as int, 0, 8);
        lemma_msb_leaf(1, byte as int, 8);
    } else {
        lemma_matched_sync(re, f, probs, base, ctx.match_byte as int, byte as int, 1, 0, true);
        lemma_byte_leaf(byte);
    }
}

/// The events of an operation are valid, and leave the probabilities valid.
pub proof fn lemma_op_valid(probs: Seq<u32>, ctx: Context, op: Op)
    requires
        valid_probs(probs),
        probs.len() == NUM_MODELS,
        ctx.wf(),
        op.wf(),
    ensures
        coded_valid(op_events(probs, ctx, op), NUM_MODELS as nat),
{
    let st = ctx.state as int;
    let ps = ctx.pos_state as int;
    let a = ev_none(probs);
    assert(events_valid(a.0));
    let i_m = BM_MATCH + st * 4 + ps;
    match op {
        Op::Literal { byte } => {
            let m = ev_bit(a, i_m, false);
            lemma_ev_bit_valid(a, i_m, false);
            lemma_literal_valid(m.1, ctx, byte);
            lemma_valid_concat(m.0, literal_events(m.1, ctx, byte).0);
        },
        Op::ShortRep => {
            let a1 = ev_bit(a, i_m, true);
            lemma_ev_bit_valid(a, i_m, true);
            let a2 = ev_bit(a1, BM_REP + st, true);
            lemma_ev_bit_valid(a1, BM_REP + st, true);
            let a3 = ev_bit(a2, BM_REP0 + st, false);
            lemma_ev_bit_valid(a2, BM_REP0 + st, false);
            lemma_ev_bit_valid(a3, BM_LEN + st * 4 + ps, false);
        },
        Op::Rep { index, len } => {
            let a1 = ev_bit(a, i_m, true);
            lemma_ev_bit_valid(a, i_m, true);
            let r = ev_bit(a1, BM_REP + st, true);
            lemma_ev_bit_valid(a1, BM_REP + st, true);
            let i = rep_prefix(probs, ctx, index);
            if index == 0 {
                let b1 = ev_bit(r, BM_REP0 + st, false);
                lemma_ev_bit_valid(r, BM_REP0 + st, false);
                lemma_ev_bit_valid(b1, BM_LEN + st * 4 + ps, true);
            } else if index == 1 {
                let b1 = ev_bit(r, BM_REP0 + st, true);
                lemma_ev_bit_valid(r, BM_REP0 + st, true);
                lemma_ev_bit_valid(b1, BM_REP1 + st, false);
            } else {
                let b1 = ev_bit(r, BM_REP0 + st, true);
                lemma_ev_bit_valid(r, BM_REP0 + st, true);
                let b2 = ev_bit(b1, BM_REP1 + st, true);
                lemma_ev_bit_valid(b1, BM_REP1 + st, true);
                lemma_ev_bit_valid(b2, BM_REP2 + st, index != 2);
            }
            lemma_len_valid(i.1, REP_LEN_MODEL as int, ps, len - MIN_MATCH_LEN);
            lemma_valid_concat(i.0, len_events(i.1, REP_LEN_MODEL as int, ps, len - MIN_MATCH_LEN).0);
        },
        Op::Match { dis, len } => {
            let a1 = ev_bit(a, i_m, true);
            lemma_ev_bit_valid(a, i_m, true);
            let r = ev_bit(a1, BM_REP + st, false);
            lemma_ev_bit_valid(a1, BM_REP + st, false);
            let le = len_events(r.1, MATCH_LEN_MODEL as int, ps, len - MIN_MATCH_LEN);
            lemma_len_valid(r.1, MATCH_LEN_MODEL as int, ps, len - MIN_MATCH_LEN);
            lemma_valid_concat(r.0, le.0);
            lemma_distance_valid(le.1, len as int, dis as int);
            lemma_valid_concat(r.0 + le.0, distance_events(le.1, len as int, dis as int).0);
        },
    }
}

/// The bits that tell which of the four last distances a repeated match
/// copies from, with the two bits before them.
pub open spec fn rep_prefix(probs: Seq<u32>, ctx: Context, index: u32) -> Coded {
    let st = ctx.state as int;
    let ps = ctx.pos_state as int;
    let r = ev_bit(ev_bit(ev_none(probs), BM_MATCH + st * 4 + ps, true), BM_REP + st, true);
    if index == 0 {
        ev_bit(ev_bit(r, BM_REP0 + st, false), BM_LEN + st * 4 + ps, true)
    } else if index == 1 {
        ev_bit(ev_bit(r, BM_REP0 + st, true), BM_REP1 + st, false)
    } else {
        ev_bit(ev_bit(ev_bit(r, BM_REP0 + st, true), BM_REP1 + st, true), BM_REP2 + st, index != 2)
    }
}

/// The decoder in step with the encoder reads back a literal with the bit
/// before it, and stays in step.
pub proof fn lemma_op_literal_sync(re: Re, f: Seq<u8>, probs: Seq<u32>, ctx: Context, byte: u8)
    requires
        re_inv(re),
        valid_probs(probs),
        probs.len() == NUM_MODELS,
        ctx.wf(),
        completes(re_events(re, op_events(probs, ctx, Op::Literal { byte }).0), f),
    ensures
        rd_op(rd_of(re, f), probs, ctx) == (
            rd_of(re_events(re, op_events(probs, ctx, Op::Literal { byte }).0), f),
            op_events(probs, ctx, Op::Literal { byte }).1,
            Some(Op::Literal { byte }),
        ),
{
    let st = ctx.state as int;
    let ps = ctx.pos_state as int;
    let i_m = BM_MATCH + st * 4 + ps;
    let m = ev_bit(ev_none(probs), i_m, false);
    let e1 = Ev::Bit { prob: probs[i_m], bit: false };
    let l = literal_events(m.1, ctx, byte);
    lemma_valid_probs_update(probs, i_m, false);
    lemma_literal_valid(m.1, ctx, byte);
    assert(m.0 + l.0 =~= seq![e1] + l.0);
    lemma_bit_then(re, f, probs, i_m, false, l.0);
    lemma_literal_sync(re_event(re, e1), f, m.1, ctx, byte);
    let r1 = rd_model_bit(rd_of(re, f), probs, i_m);
    assert(r1 == (rd_of(re_event(re, e1), f), m.1, false));
}

/// The decoder in step with the encoder reads back a one-byte repeat, and
/// stays in step.
pub proof fn lemma_op_short_rep_sync(re: Re, f: Seq<u8>, probs: Seq<u32>, ctx: Context)
    requires
        re_inv(re),
        valid_probs(probs),
        probs.len() == NUM_MODELS,
        ctx.wf(),
        completes(re_events(re, op_events(probs, ctx, Op::ShortRep).0), f),
    ensures
        rd_op(rd_of(re, f), probs, ctx) == (
            rd_of(re_events(re, op_events(probs, ctx, Op::ShortRep).0), f),
            op_events(probs, ctx, Op::ShortRep).1,
            Some(Op::ShortRep),
        ),
{
    let st = ctx.state as int;
    let ps = ctx.pos_state as int;
    let i1 = BM_MATCH + st * 4 + ps;
    let i2 = BM_REP + st;
    let i3 = BM_REP0 + st;
    let i4 = BM_LEN + st * 4 + ps;
    let a = ev_none(probs);
    let a1 = ev_bit(a, i1, true);
    let a2 = ev_bit(a1, i2, true);
    let a3 = ev_bit(a2, i3, false);
    let a4 = ev_bit(a3, i4, false);
    let e1 = Ev::Bit { prob: probs[i1], bit: true };
    let e2 = Ev::Bit { prob: a1.1[i2], bit: true };
    let e3 = Ev::Bit { prob: a2.1[i3], bit: false };
    let e4 = Ev::Bit { prob: a3.1[i4], bit: false };
    lemma_valid_probs_update(probs, i1, true);
    lemma_valid_probs_update(a1.1, i2, true);
    lemma_valid_probs_update(a2.1, i3, false);
    lemma_valid_probs_update(a3.1, i4, false);
    let none = Seq::<Ev>::empty();
    let t4 = seq![e4] + none;
    let t3 = seq![e3] + t4;
    let t2 = seq![e2] + t3;
    lemma_valid_cons(a3.1[i4], false, none);
    lemma_valid_cons(a2.1[i3], false, t4);
    lemma_valid_cons(a1.1[i2], true, t3);
    assert(a4.0 =~= seq![e1] + t2);
    let re1 = re_event(re, e1);
    let re2 = re_event(re1, e2);
    let re3 = re_event(re2, e3);
    let re4 = re_event(re3, e4);
    lemma_bit_then(re, f, probs, i1, true, t2);
    lemma_bit_then(re1, f, a1.1, i2, true, t3);
    lemma_bit_then(re2, f, a2.1, i3, false, t4);
    lemma_bit_then(re3, f, a3.1, i4, false, none);
    let r1 = rd_model_bit(rd_of(re, f), probs, i1);
    assert(r1 == (rd_of(re1, f), a1.1, true));
    let r2 = rd_model_bit(r1.0, r1.1, i2);
    assert(r2 == (rd_of(re2, f), a2.1, true));
    let r3 = rd_model_bit(r2.0, r2.1, i3);
    assert(r3 == (rd_of(re3, f), a3.1, false));
    let r4 = rd_model_bit(r3.0, r3.1, i4);
    assert(r4 == (rd_of(re4, f), a4.1, false));
    assert(rd_rep(r2.0, r2.1, ctx) == (r4.0, r4.1, Some(Op::ShortRep)));
}

/// The decoder in step with the encoder reads back the length of a repeated
/// match, and stays in step.
pub proof fn lemma_rep_len_sync(
    re: Re,
    f: Seq<u8>,
    probs: Seq<u32>,
    ctx: Context,
    index: u32,
    len: u32,
)
    requires
        re_inv(re),
        valid_probs(probs),
        probs.len() == NUM_MODELS,
        ctx.wf(),
        MIN_MATCH_LEN <= len <= MAX_MATCH_LEN,
        completes(
            re_events(
                re,
                len_events(probs, REP_LEN_MODEL as int, ctx.pos_state as int, len - MIN_MATCH_LEN).0,
            ),
            f,
        ),
    ensures
        rd_rep_len(rd_of(re, f), probs, ctx, index) == (
            rd_of(
                re_events(
                    re,
                    len_events(
                        probs,
                        REP_LEN_MODEL as int,
                        ctx.pos_state as int,
                        len - MIN_MATCH_LEN,
                    ).0,
                ),
                f,
            ),
            len_events(probs, REP_LEN_MODEL as int, ctx.pos_state as int, len - MIN_MATCH_LEN).1,
            Some(Op::Rep { index, len }),
        ),
{
    lemma_len_sync(re, f, probs, REP_LEN_MODEL as int, ctx.pos_state as int, len - MIN_MATCH_LEN);
}

/// The decoder in step with the encoder reads back a repeated match from
/// the last distance, and stays in step.
pub proof fn lemma_op_rep0_sync(re: Re, f: Seq<u8>, probs: Seq<u32>, ctx: Context, len: u32)
    requires
        re_inv(re),
        valid_probs(probs),
        probs.len() == NUM_MODELS,
        ctx.wf(),
        MIN_MATCH_LEN <= len <= MAX_MATCH_LEN,
        completes(re_events(re, op_events(probs, ctx, Op::Rep { index: 0, len }).0), f),
    ensures
        rd_op(rd_of(re, f), probs, ctx) == (
            rd_of(re_events(re, op_events(probs, ctx, Op::Rep { index: 0, len }).0), f),
            op_events(probs, ctx, Op::Rep { index: 0, len }).1,
            Some(Op::Rep { index: 0, len }),
        ),
{
    let st = ctx.state as int;
    let ps = ctx.pos_state as int;
    let i1 = BM_MATCH + st * 4 + ps;
    let i2 = BM_REP + st;
    let i3 = BM_REP0 + st;
    let i4 = BM_LEN + st * 4 + ps;
    let a = ev_none(probs);
    let a1 = ev_bit(a, i1, true);
    let a2 = ev_bit(a1, i2, true);
    let a3 = ev_bit(a2, i3, false);
    let a4 = ev_bit(a3, i4, true);
    let e1 = Ev::Bit { prob: probs[i1], bit: true };
    let e2 = Ev::Bit { prob: a1.1[i2], bit: true };
    let e3 = Ev::Bit { prob: a2.1[i3], bit: false };
    let e4 = Ev::Bit { prob: a3.1[i4], bit: true };
    lemma_valid_probs_update(probs, i1, true);
    lemma_valid_probs_update(a1.1, i2, true);
    lemma_valid_probs_update(a2.1, i3, false);
    lemma_valid_probs_update(a3.1, i4, true);
    let le = len_events(a4.1, REP_LEN_MODEL as int, ps, len - MIN_MATCH_LEN);
    lemma_len_valid(a4.1, REP_LEN_MODEL as int, ps, len - MIN_MATCH_LEN);
    let t4 = seq![e4] + le.0;
    let t3 = seq![e3] + t4;
    let t2 = seq![e2] + t3;
    lemma_valid_cons(a3.1[i4], true, le.0);
    lemma_valid_cons(a2.1[i3], false, t4);
    lemma_valid_cons(a1.1[i2], true, t3);
    assert(a4.0 + le.0 =~= seq![e1] + t2);
    let re1 = re_event(re, e1);
    let re2 = re_event(re1, e2);
    let re3 = re_event(re2, e3);
    let re4 = re_event(re3, e4);
    lemma_bit_then(re, f, probs, i1, true, t2);
    lemma_bit_then(re1, f, a1.1, i2, true, t3);
    lemma_bit_then(re2, f, a2.1, i3, false, t4);
    lemma_bit_then(re3, f, a3.1, i4, true, le.0);
    lemma_rep_len_sync(re4, f, a4.1, ctx, 0, len);
    let r1 = rd_model_bit(rd_of(re, f), probs, i1);
    assert(r1 == (rd_of(re1, f), a1.1, true));
    let r2 = rd_model_bit(r1.0, r1.1, i2);
    assert(r2 == (rd_of(re2, f), a2.1, true));
    let r3 = rd_model_bit(r2.0, r2.1, i3);
    assert(r3 == (rd_of(re3, f), a3.1, false));
    let r4 = rd_model_bit(r3.0, r3.1, i4);
    assert(r4 == (rd_of(re4, f), a4.1, true));
    assert(rd_rep(r2.0, r2.1, ctx) == rd_rep_len(r4.0, r4.1, ctx, 0));
}

/// The decoder in step with the encoder reads back a repeated match from
/// the second last distance, and stays in step.
pub proof fn lemma_op_rep1_sync(re: Re, f: Seq<u8>, probs: Seq<u32>, ctx: Context, len: u32)
    requires
        re_inv(re),
        valid_probs(probs),
        probs.len() == NUM_MODELS,
        ctx.wf(),
        MIN_MATCH_LEN <= len <= MAX_MATCH_LEN,
        completes(re_events(re, op_events(probs, ctx, Op::Rep { index: 1, len }).0), f),
    ensures
        rd_op(rd_of(re, f), probs, ctx) == (
            rd_of(re_events(re, op_events(probs, ctx, Op::Rep { index: 1, len }).0), f),
            op_events(probs, ctx, Op::Rep { index: 1, len }).1,
            Some(Op::Rep { index: 1, len }),
        ),
{
    let st = ctx.state as int;
    let ps = ctx.pos_state as int;
    let i1 = BM_MATCH + st * 4 + ps;
    let i2 = BM_REP + st;
    let i3 = BM_REP0 + st;
    let i4 = BM_REP1 + st;
    let a = ev_none(probs);
    let a1 = ev_bit(a, i1, true);
    let a2 = ev_bit(a1, i2, true);
    let a3 = ev_bit(a2, i3, true);
    let a4 = ev_bit(a3, i4, false);
    let e1 = Ev::Bit { prob: probs[i1], bit: true };
    let e2 = Ev::Bit { prob: a1.1[i2], bit: true };
    let e3 = Ev::Bit { prob: a2.1[i3], bit: true };
    let e4 = Ev::Bit { prob: a3.1[i4], bit: false };
    lemma_valid_probs_update(probs, i1, true);
    lemma_valid_probs_update(a1.1, i2, true);
    lemma_valid_probs_update(a2.1, i3, true);
    lemma_valid_probs_update(a3.1, i4, false);
    let le = len_events(a4.1, REP_LEN_MODEL as int, ps, len - MIN_MATCH_LEN);
    lemma_len_valid(a4.1, REP_LEN_MODEL as int, ps, len - MIN_MATCH_LEN);
    let t4 = seq![e4] + le.0;
    let t3 = seq![e3] + t4;
    let t2 = seq![e2] + t3;
    lemma_valid_cons(a3.1[i4], false, le.0);
    lemma_valid_cons(a2.1[i3], true, t4);
    lemma_valid_cons(a1.1[i2], true, t3);
    assert(a4.0 + le.0 =~= seq![e1] + t2);
    let re1 = re_event(re, e1);
    let re2 = re_event(re1, e2);
    let re3 = re_event(re2, e3);
    let re4 = re_event(re3, e4);
    lemma_bit_then(re, f, probs, i1, true, t2);
    lemma_bit_then(re1, f, a1.1, i2, true, t3);
    lemma_bit_then(re2, f, a2.1, i3, true, t4);
    lemma_bit_then(re3, f, a3.1, i4, false, le.0);
    lemma_rep_len_sync(re4, f, a4.1, ctx, 1, len);
    let r1 = rd_model_bit(rd_of(re, f), probs, i1);
    assert(r1 == (rd_of(re1, f), a1.1, true));
    let r2 = rd_model_bit(r1.0, r1.1, i2);
    assert(r2 == (rd_of(re2, f), a2.1, true));
    let r3 = rd_model_bit(r2.0, r2.1, i3);
    assert(r3 == (rd_of(re3, f), a3.1, true));
    let r4 = rd_model_bit(r3.0, r3.1, i4);
    assert(r4 == (rd_of(re4, f), a4.1, false));
    assert(rd_rep(r2.0, r2.1, ctx) == rd_rep_len(r4.0, r4.1, ctx, 1));
}

/// The decoder in step with the encoder reads back a repeated match from
/// one of the two oldest distances, and stays in step.
pub proof fn lemma_op_rep23_sync(
    re: Re,
    f: Seq<u8>,
    probs: Seq<u32>,
    ctx: Context,
    index: u32,
    len: u32,
)
    requires
        re_inv(re),
        valid_probs(probs),
        probs.len() == NUM_MODELS,
        ctx.wf(),
        2 <= index <= 3,
        MIN_MATCH_LEN <= len <= MAX_MATCH_LEN,
        completes(re_events(re, op_events(probs, ctx, Op::Rep { index, len }).0), f),
    ensures
        rd_op(rd_of(re, f), probs, ctx) == (
            rd_of(re_events(re, op_events(probs, ctx, Op::Rep { index, len }).0), f),
            op_events(probs, ctx, Op::Rep { index, len }).1,
            Some(Op::Rep { index, len }),
        ),
{
    let st = ctx.state as int;
    let ps = ctx.pos_state as int;
    let i1 = BM_MATCH + st * 4 + ps;
    let i2 = BM_REP + st;
    let i3 = BM_REP0 + st;
    let i4 = BM_REP1 + st;
    let i5 = BM_REP2 + st;
    let b5 = index != 2;
    let a = ev_none(probs);
    let a1 = ev_bit(a, i1, true);
    let a2 = ev_bit(a1, i2, true);
    let a3 = ev_bit(a2, i3, true);
    let a4 = ev_bit(a3, i4, true);
    let a5 = ev_bit(a4, i5, b5);
    let e1 = Ev::Bit { prob: probs[i1], bit: true };
    let e2 = Ev::Bit { prob: a1.1[i2], bit: true };
    let e3 = Ev::Bit { prob: a2.1[i3], bit: true };
    let e4 = Ev::Bit { prob: a3.1[i4], bit: true };
    let e5 = Ev::Bit { prob: a4.1[i5], bit: b5 };
    lemma_valid_probs_update(probs, i1, true);
    lemma_valid_probs_update(a1.1, i2, true);
    lemma_valid_probs_update(a2.1, i3, true);
    lemma_valid_probs_update(a3.1, i4, true);
    lemma_valid_probs_update(a4.1, i5, b5);
    let le = len_events(a5.1, REP_LEN_MODEL as int, ps, len - MIN_MATCH_LEN);
    lemma_len_valid(a5.1, REP_LEN_MODEL as int, ps, len - MIN_MATCH_LEN);
    let t5 = seq![e5] + le.0;
    let t4 = seq![e4] + t5;
    let t3 = seq![e3] + t4;
    let t2 = seq![e2] + t3;
    lemma_valid_cons(a4.1[i5], b5, le.0);
    lemma_valid_cons(a3.1[i4], true, t5);
    lemma_valid_cons(a2.1[i3], true, t4);
    lemma_valid_cons(a1.1[i2], true, t3);
    assert(a5.0 + le.0 =~= seq![e1] + t2);
    let re1 = re_event(re, e1);
    let re2 = re_event(re1, e2);
    let re3 = re_event(re2, e3);
    let re4 = re_event(re3, e4);
    let re5 = re_event(re4, e5);
    lemma_bit_then(re, f, probs, i1, true, t2);
    lemma_bit_then(re1, f, a1.1, i2, true, t3);
    lemma_bit_then(re2, f, a2.1, i3, true, t4);
    lemma_bit_then(re3, f, a3.1, i4, true, t5);
    lemma_bit_then(re4, f, a4.1, i5, b5, le.0);
    lemma_rep_len_sync(re5, f, a5.1, ctx, index, len);
    let r1 = rd_model_bit(rd_of(re, f), probs, i1);
    assert(r1 == (rd_of(re1, f), a1.1, true));
    let r2 = rd_model_bit(r1.0, r1.1, i2);
    assert(r2 == (rd_of(re2, f), a2.1, true));
    let r3 = rd_model_bit(r2.0, r2.1, i3);
    assert(r3 == (rd_of(re3, f), a3.1, true));
    let r4 = rd_model_bit(r3.0, r3.1, i4);
    assert(r4 == (rd_of(re4, f), a4.1, true));
    let r5 = rd_model_bit(r4.0, r4.1, i5);
    assert(r5 == (rd_of(re5, f), a5.1, b5));
    assert(rd_rep(r2.0, r2.1, ctx) == rd_rep_len(r5.0, r5.1, ctx, index));
}

/// The decoder in step with the encoder reads back a match, and stays in
/// step. This holds of the marker too.
pub proof fn lemma_op_match_sync(
    re: Re,
    f: Seq<u8>,
    probs: Seq<u32>,
    ctx: Context,
    dis: u32,
    len: u32,
)
    requires
        re_inv(re),
        valid_probs(probs),
        probs.len() == NUM_MODELS,
        ctx.wf(),
        MIN_MATCH_LEN <= len <= MAX_MATCH_LEN,
        completes(re_events(re, op_events(probs, ctx, Op::Match { dis, len }).0), f),
    ensures
        rd_op(rd_of(re, f), probs, ctx) == (
            rd_of(re_events(re, op_events(probs, ctx, Op::Match { dis, len }).0), f),
            op_events(probs, ctx, Op::Match { dis, len }).1,
            Some(Op::Match { dis, len }),
        ),
{
    let st = ctx.state as int;
    let ps = ctx.pos_state as int;
    let i1 = BM_MATCH + st * 4 + ps;
    let i2 = BM_REP + st;
    let a = ev_none(probs);
    let a1 = ev_bit(a, i1, true);
    let a2 = ev_bit(a1, i2, false);
    let e1 = Ev::Bit { prob: probs[i1], bit: true };
    let e2 = Ev::Bit { prob: a1.1[i2], bit: false };
    lemma_valid_probs_update(probs, i1, true);
    lemma_valid_probs_update(a1.1, i2, false);
    let le = len_events(a2.1, MATCH_LEN_MODEL as int, ps, len - MIN_MATCH_LEN);
    lemma_len_valid(a2.1, MATCH_LEN_MODEL as int, ps, len - MIN_MATCH_LEN);
    let de = distance_events(le.1, len as int, dis as int);
    lemma_distance_valid(le.1, len as int, dis as int);
    lemma_valid_concat(le.0, de.0);
    let t2 = seq![e2] + (le.0 + de.0);
    lemma_valid_cons(a1.1[i2], false, le.0 + de.0);
    assert((a2.0 + le.0) + de.0 =~= seq![e1] + t2);
    let re1 = re_event(re, e1);
    let re2 = re_event(re1, e2);
    lemma_bit_then(re, f, probs, i1, true, t2);
    lemma_bit_then(re1, f, a1.1, i2, false, le.0 + de.0);
    lemma_events_split(re2, le.0, de.0, f);
    let re3 = re_events(re2, le.0);
    lemma_len_sync(re2, f, a2.1, MATCH_LEN_MODEL as int, ps, len - MIN_MATCH_LEN);
    lemma_distance_sync(re3, f, le.1, len as int, dis);
    let r1 = rd_model_bit(rd_of(re, f), probs, i1);
    assert(r1 == (rd_of(re1, f), a1.1, true));
    let r2 = rd_model_bit(r1.0, r1.1, i2);
    assert(r2 == (rd_of(re2, f), a2.1, false));
    let l = rd_len(r2.0, r2.1, MATCH_LEN_MODEL as int, ps);
    assert(l == (rd_of(re3, f), le.1, len - MIN_MATCH_LEN));
    let d = rd_distance(l.0, l.1, len as int);
    assert(d == (rd_of(re_events(re3, de.0), f), de.1, Some(dis)));
    assert(rd_match(r2.0, r2.1, ctx) == (d.0, d.1, Some(Op::Match { dis, len })));
}

/// The decoder in step with the encoder reads back the operation that the
/// encoder wrote, and stays in step: its probabilities are the encoder's,
/// and so is the invariant that keeps them in step.
pub proof fn lemma_op_sync(re: Re, f: Seq<u8>, probs: Seq<u32>, ctx: Context, op: Op)
    requires
        re_inv(re),
        valid_probs(probs),
        probs.len() == NUM_MODELS,
        ctx.wf(),
        op.wf(),
        completes(re_events(re, op_events(probs, ctx, op).0), f),
    ensures
        rd_op(rd_of(re, f), probs, ctx) == (
            rd_of(re_events(re, op_events(probs, ctx, op).0), f),
            op_events(probs, ctx, op).1,
            Some(op),
        ),
        re_inv(re_events(re, op_events(probs, ctx, op).0)),
        coded_valid(op_events(probs, ctx, op), NUM_MODELS as nat),
        completes(re, f),
{
    lemma_op_valid(probs, ctx, op);
    lemma_events_back(re, op_events(probs, ctx, op).0, f);
    match op {
        Op::Literal { byte } => {
            lemma_op_literal_sync(re, f, probs, ctx, byte);
        },
        Op::ShortRep => {
            lemma_op_short_rep_sync(re, f, probs, ctx);
        },
        Op::Rep { index, len } => {
            if index == 0 {
                lemma_op_rep0_sync(re, f, probs, ctx, len);
            } else if index == 1 {
                lemma_op_rep1_sync(re, f, probs, ctx, len);
            } else {
                lemma_op_rep23_sync(re, f, probs, ctx, index, len);
            }
        },
        Op::Match { dis, len } => {
            lemma_op_match_sync(re, f, probs, ctx, dis, len);
        },
    }
}

} // verus!
