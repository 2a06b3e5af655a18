//! The optimizing encoder's choice of operations.
//!
//! The encoder looks ahead over the data: for every position it reaches it
//! weighs a literal, a repeat of each of the four last distances and every
//! match that the trees give, by the price of coding them with the
//! probabilities at hand, and keeps for every position the cheapest way to
//! get there. When the ways ahead meet in one position, or the buffer of
//! trials is full, the cheapest way is walked back and becomes the plan of
//! the operations to encode.
//!
//! A plan is a proposal. The encoder holds every operation against the
//! data before it encodes it, so that what is encoded is a parse of the data
//! whatever the plan says.

use vstd::prelude::*;
use crate::bit_model::valid_probs;
use crate::bt_matchfinder::{BtMatchfinder, Pair, pairs_match};
use crate::matchfinder::{MatchfinderBase, is_match, run_len, lemma_run_len};
use crate::prices::INFINITE_PRICE;
use crate::lzma::{
    Op,
    Reps,
    next_state,
    len_state,
    st_set_char,
    st_set_match,
    st_set_rep,
    st_set_short_rep,
    BM_LEN,
    BM_LITERAL,
    BM_MATCH,
    BM_REP,
    BM_REP0,
    BM_REP1,
    BM_REP2,
    LITERAL_GROUP,
    MATCH_LEN_MODEL,
    MIN_MATCH_LEN_LIMIT,
    REP_LEN_MODEL,
    STATES,
    MIN_DICTIONARY_SIZE,
    MAX_DICTIONARY_SIZE,
    BM_ALIGN,
    BM_DIS,
    BM_DIS_SLOT,
    LM_CHOICE1,
    LM_CHOICE2,
    LM_HIGH,
    LM_LOW,
    LM_MID,
    MAX_MATCH_LEN,
    MIN_MATCH_LEN,
    NUM_MODELS,
};
use crate::op_encoder::{slot_of, dis_slot};
use crate::prices::{
    ProbPrices,
    add_price,
    bit_price,
    tree_price,
    reversed_price,
    matched_price,
    BIT_PRICE,
    MAX_BIT_PRICE,
};

verus! {

/// Number of lengths that a match can have.
pub const MAX_LEN_SYMBOLS: usize = 272;

/// Number of distances whose prices are kept one by one.
pub const MODELED_DISTANCES: usize = 128;

/// Number of slots of a distance.
pub const NUM_DIS_SLOTS: usize = 64;

/// The sum of two prices; it stops at the largest 32-bit value.
pub open spec fn sat_price(a: int, b: int) -> int {
    if a + b > u32::MAX {
        u32::MAX as int
    } else {
        a + b
    }
}

/// The price of coding a length, less the shortest, with the length model
/// at `probs[lm..]`, at a position whose place in its group of four is `ps`:
/// the bits that choose among the low, the middle and the high lengths, and
/// the length in its tree.
pub open spec fn len_price(probs: Seq<u32>, lm: int, ps: int, sym: int) -> int {
    let c1 = probs[lm + LM_CHOICE1];
    let c2 = probs[lm + LM_CHOICE2];
    if sym < 8 {
        bit_price(c1, false) + tree_price(probs, lm + LM_LOW + ps * 8, 1, 4, sym)
    } else if sym < 16 {
        bit_price(c1, true) + bit_price(c2, false) + tree_price(
            probs,
            lm + LM_MID + ps * 8,
            1,
            4,
            sym - 8,
        )
    } else {
        bit_price(c1, true) + bit_price(c2, true) + tree_price(
            probs,
            lm + LM_HIGH,
            1,
            128,
            sym - 16,
        )
    }
}

/// The prices of the lengths, for each place of the position in its group
/// of four.
pub struct LenPrices {
    prices: Vec<u32>,
    len_symbols: usize,
}

impl LenPrices {
    /// The table has its size.
    pub closed spec fn wf(&self) -> bool {
        &&& self.prices@.len() == 4 * MAX_LEN_SYMBOLS
        &&& self.len_symbols <= MAX_LEN_SYMBOLS
    }

    /// The table: 272 prices for each place of a position in its group of
    /// four, the price of the shortest length first.
    pub closed spec fn table(&self) -> Seq<u32> {
        self.prices@
    }

    /// Number of lengths that have a price.
    pub closed spec fn len_symbols(&self) -> nat {
        self.len_symbols as nat
    }

    /// Whether the table is that of `prev` with the prices set by the length
    /// model at `probs[lm..]`: each length that has a price has the price of
    /// coding it, for each place of a position in its group of four.
    pub open spec fn updated(&self, prev: LenPrices, probs: Seq<u32>, lm: int) -> bool {
        &&& self.len_symbols() == prev.len_symbols()
        &&& forall|k: int|
            0 <= k < 4 * MAX_LEN_SYMBOLS ==> #[trigger] self.table()[k] == if k % 272
                < prev.len_symbols() {
                len_price(probs, lm, k / 272, k % 272)
            } else {
                prev.table()[k] as int
            }
    }

    /// Prices for lengths up to `match_len_limit`, all of them 0 until they
    /// are updated.
    pub(crate) fn new(match_len_limit: u32) -> (lp: LenPrices)
        requires
            MIN_MATCH_LEN <= match_len_limit <= MAX_MATCH_LEN,
        ensures
            lp.wf(),
            lp.len_symbols() == match_len_limit + 1 - MIN_MATCH_LEN,
            forall|k: int| 0 <= k < 4 * MAX_LEN_SYMBOLS ==> #[trigger] lp.table()[k] == 0,
    {
        LenPrices {
            prices: vec![0u32; 4 * MAX_LEN_SYMBOLS],
            len_symbols: (match_len_limit + 1 - MIN_MATCH_LEN) as usize,
        }
    }

    /// Sets the prices by the length model at `probs[lm..]`: each length
    /// that has a price gets the price of coding it, for each place of a
    /// position in its group of four.
    pub(crate) fn update(&mut self, pp: &ProbPrices, probs: &Vec<u32>, lm: usize)
        requires
            old(self).wf(),
            pp.wf(),
            valid_probs(probs@),
            lm + LM_HIGH + 256 <= probs@.len(),
        ensures
            final(self).wf(),
            final(self).updated(*old(self), probs@, lm as int),
    {
        let plen: usize = probs.len();
        let low: u32 = pp.price0(probs[lm + LM_CHOICE1]);
        let further: u32 = pp.price1(probs[lm + LM_CHOICE1]);
        let mid: u32 = further + pp.price0(probs[lm + LM_CHOICE2]);
        let high: u32 = further + pp.price1(probs[lm + LM_CHOICE2]);
        let n: usize = self.len_symbols;
        let mut len: usize = 0;
        while len < n
            invariant
                self.wf(),
                pp.wf(),
                valid_probs(probs@),
                probs@.len() == plen,
                lm + LM_HIGH + 256 <= plen,
                n == self.len_symbols,
                n == old(self).len_symbols,
                len <= n,
                low == bit_price(probs@[lm + LM_CHOICE1], false),
                mid == bit_price(probs@[lm + LM_CHOICE1], true) + bit_price(
                    probs@[lm + LM_CHOICE2],
                    false,
                ),
                high == bit_price(probs@[lm + LM_CHOICE1], true) + bit_price(
                    probs@[lm + LM_CHOICE2],
                    true,
                ),
                low <= MAX_BIT_PRICE,
                mid <= 2 * MAX_BIT_PRICE,
                high <= 2 * MAX_BIT_PRICE,
                forall|k: int|
                    0 <= k < 4 * MAX_LEN_SYMBOLS ==> #[trigger] self.prices@[k] == if k % 272
                        < len {
                        len_price(probs@, lm as int, k / 272, k % 272)
                    } else {
                        old(self).prices@[k] as int
                    },
            decreases n - len,
        {
            let mut ps: usize = 0;
            while ps < 4
                invariant
                    self.wf(),
                    pp.wf(),
                    valid_probs(probs@),
                    probs@.len() == plen,
                    lm + LM_HIGH + 256 <= plen,
                    n == self.len_symbols,
                    n == old(self).len_symbols,
                    len < n,
                    ps <= 4,
                    low == bit_price(probs@[lm + LM_CHOICE1], false),
                    mid == bit_price(probs@[lm + LM_CHOICE1], true) + bit_price(
                        probs@[lm + LM_CHOICE2],
                        false,
                    ),
                    high == bit_price(probs@[lm + LM_CHOICE1], true) + bit_price(
                        probs@[lm + LM_CHOICE2],
                        true,
                    ),
                    low <= MAX_BIT_PRICE,
                    mid <= 2 * MAX_BIT_PRICE,
                    high <= 2 * MAX_BIT_PRICE,
                    forall|k: int|
                        0 <= k < 4 * MAX_LEN_SYMBOLS ==> #[trigger] self.prices@[k] == if k % 272
                            < len || (k % 272 == len && k / 272 < ps) {
                            len_price(probs@, lm as int, k / 272, k % 272)
                        } else {
                            old(self).prices@[k] as int
                        },
                decreases 4 - ps,
            {
                let price: u32 = if len < 8 {
                    low + pp.price_symbol(probs, lm + LM_LOW + ps * 8, 8, len as u32)
                } else if len < 16 {
                    mid + pp.price_symbol(probs, lm + LM_MID + ps * 8, 8, (len - 8) as u32)
                } else {
                    high + pp.price_symbol(probs, lm + LM_HIGH, 256, (len - 16) as u32)
                };
                self.prices[ps * MAX_LEN_SYMBOLS + len] = price;
                ps = ps + 1;
            }
            len = len + 1;
        }
    }

    /// The price of the length `len` at a position whose place in its group
    /// of four is `pos_state`.
    pub(crate) fn price(&self, len: usize, pos_state: usize) -> (r: u32)
        requires
            self.wf(),
            MIN_MATCH_LEN <= len <= MAX_MATCH_LEN,
            pos_state < 4,
        ensures
            r == self.table()[pos_state * 272 + len - 2],
    {
        self.prices[pos_state * MAX_LEN_SYMBOLS + len - MIN_MATCH_LEN as usize]
    }
}

/// The price of the slot `slot` of a distance after a length of the class
/// `ls`: what the slot costs in its tree, and for the slots of the far
/// distances what their bits cost that are coded without a model.
pub open spec fn slot_price(probs: Seq<u32>, ls: int, slot: int) -> int {
    tree_price(probs, BM_DIS_SLOT + ls * 64, 1, 32, slot) + if slot >= 14 {
        (slot / 2 - 5) * 64
    } else {
        0
    }
}

/// The slot of a distance below 128.
pub open spec fn near_slot(dis: int) -> int {
    if dis < 4 {
        dis
    } else if dis < 6 {
        4
    } else if dis < 8 {
        5
    } else if dis < 12 {
        6
    } else if dis < 16 {
        7
    } else if dis < 24 {
        8
    } else if dis < 32 {
        9
    } else if dis < 48 {
        10
    } else if dis < 64 {
        11
    } else if dis < 96 {
        12
    } else {
        13
    }
}

/// The first distance of a slot below 14.
pub open spec fn near_base(slot: int) -> int {
    if slot < 4 {
        slot
    } else if slot < 6 {
        slot * 2 - 4
    } else if slot < 8 {
        slot * 4 - 16
    } else if slot < 10 {
        slot * 8 - 48
    } else if slot < 12 {
        slot * 16 - 128
    } else {
        slot * 32 - 320
    }
}

/// Number of distances of a slot below 14.
pub open spec fn near_size(slot: int) -> int {
    if slot < 4 {
        1
    } else if slot < 6 {
        2
    } else if slot < 8 {
        4
    } else if slot < 10 {
        8
    } else if slot < 12 {
        16
    } else {
        32
    }
}

/// The price of the bits of a distance below 128 that lie below its slot.
pub open spec fn near_extra(probs: Seq<u32>, dis: int) -> int {
    let slot = near_slot(dis);
    if slot < 4 {
        0
    } else {
        reversed_price(
            probs,
            BM_DIS + near_base(slot) - slot,
            1,
            near_size(slot) / 2,
            dis - near_base(slot),
        )
    }
}

/// The price of a distance below 128 after a length of the class `ls`, by
/// the prices of the slots.
pub open spec fn near_price(slots: Seq<u32>, probs: Seq<u32>, ls: int, dis: int) -> int {
    sat_price(slots[ls * 64 + near_slot(dis)] as int, near_extra(probs, dis))
}

/// The prices of the distances, for each of the four classes of length.
pub struct DisPrices {
    slot_prices: Vec<u32>,
    dis_prices: Vec<u32>,
    align_prices: Vec<u32>,
}

impl DisPrices {
    /// The tables have their sizes.
    pub closed spec fn wf(&self) -> bool {
        &&& self.slot_prices@.len() == 4 * NUM_DIS_SLOTS
        &&& self.dis_prices@.len() == 4 * MODELED_DISTANCES
        &&& self.align_prices@.len() == 16
    }

    /// The prices of the slots: 64 for each class of length.
    pub closed spec fn slots(&self) -> Seq<u32> {
        self.slot_prices@
    }

    /// The prices of the distances below 128: 128 for each class of length.
    pub closed spec fn near(&self) -> Seq<u32> {
        self.dis_prices@
    }

    /// The prices of the four lowest bits of a far distance.
    pub closed spec fn aligns(&self) -> Seq<u32> {
        self.align_prices@
    }

    /// Whether the tables hold the prices by `probs`: those of the slots,
    /// those of the distances below 128, and those of the four lowest bits
    /// of the distances beyond.
    pub open spec fn updated(&self, probs: Seq<u32>) -> bool {
        &&& forall|k: int|
            0 <= k < 4 * NUM_DIS_SLOTS ==> #[trigger] self.slots()[k] == slot_price(
                probs,
                k / 64,
                k % 64,
            )
        &&& forall|k: int|
            0 <= k < 4 * MODELED_DISTANCES ==> #[trigger] self.near()[k] == near_price(
                self.slots(),
                probs,
                k / 128,
                k % 128,
            )
        &&& forall|k: int|
            0 <= k < 16 ==> #[trigger] self.aligns()[k] == reversed_price(
                probs,
                BM_ALIGN as int,
                1,
                8,
                k,
            )
    }

    /// Prices that are all 0 until they are updated.
    pub(crate) fn new() -> (dp: DisPrices)
        ensures
            dp.wf(),
    {
        DisPrices {
            slot_prices: vec![0u32; 4 * NUM_DIS_SLOTS],
            dis_prices: vec![0u32; 4 * MODELED_DISTANCES],
            align_prices: vec![0u32; 16],
        }
    }

    /// Sets the prices of the slots: what the slot costs in its tree, and for
    /// the slots of the far distances what their bits cost that are coded
    /// without a model.
    fn update_slots(&mut self, pp: &ProbPrices, probs: &Vec<u32>)
        requires
            old(self).wf(),
            pp.wf(),
            valid_probs(probs@),
            probs@.len() == NUM_MODELS,
        ensures
            final(self).wf(),
            final(self).near() == old(self).near(),
            final(self).aligns() == old(self).aligns(),
            forall|k: int|
                0 <= k < 4 * NUM_DIS_SLOTS ==> #[trigger] final(self).slots()[k] == slot_price(
                    probs@,
                    k / 64,
                    k % 64,
                ),
    {
        let mut ls: usize = 0;
        while ls < 4
            invariant
                self.wf(),
                pp.wf(),
                valid_probs(probs@),
                probs@.len() == NUM_MODELS,
                ls <= 4,
                self.dis_prices == old(self).dis_prices,
                self.align_prices == old(self).align_prices,
                forall|k: int|
                    0 <= k < 4 * NUM_DIS_SLOTS && k / 64 < ls ==> #[trigger] self.slot_prices@[k]
                        == slot_price(probs@, k / 64, k % 64),
            decreases 4 - ls,
        {
            let mut slot: usize = 0;
            while slot < NUM_DIS_SLOTS
                invariant
                    self.wf(),
                    pp.wf(),
                    valid_probs(probs@),
                    probs@.len() == NUM_MODELS,
                    ls < 4,
                    slot <= NUM_DIS_SLOTS,
                    self.dis_prices == old(self).dis_prices,
                    self.align_prices == old(self).align_prices,
                    forall|k: int|
                        0 <= k < 4 * NUM_DIS_SLOTS && (k / 64 < ls || (k / 64 == ls && k % 64
                            < slot)) ==> #[trigger] self.slot_prices@[k] == slot_price(
                            probs@,
                            k / 64,
                            k % 64,
                        ),
                decreases NUM_DIS_SLOTS - slot,
            {
                let mut price: u32 = pp.price_symbol(
                    probs,
                    BM_DIS_SLOT + ls * NUM_DIS_SLOTS,
                    NUM_DIS_SLOTS,
                    slot as u32,
                );
                if slot >= 14 {
                    price = price + (slot as u32 / 2 - 5) * BIT_PRICE;
                }
                self.slot_prices[ls * NUM_DIS_SLOTS + slot] = price;
                slot = slot + 1;
            }
            ls = ls + 1;
        }
    }

    /// Sets the prices of the near distances: the price of the slot and of
    /// the bits below it.
    fn update_near(&mut self, pp: &ProbPrices, probs: &Vec<u32>)
        requires
            old(self).wf(),
            pp.wf(),
            valid_probs(probs@),
            probs@.len() == NUM_MODELS,
        ensures
            final(self).wf(),
            final(self).slots() == old(self).slots(),
            final(self).aligns() == old(self).aligns(),
            forall|k: int|
                0 <= k < 4 * MODELED_DISTANCES ==> #[trigger] final(self).near()[k] == near_price(
                    old(self).slots(),
                    probs@,
                    k / 128,
                    k % 128,
                ),
    {
        let mut slot: usize = 0;
        while slot < 14
            invariant
                self.wf(),
                pp.wf(),
                valid_probs(probs@),
                probs@.len() == NUM_MODELS,
                slot <= 14,
                self.slot_prices == old(self).slot_prices,
                self.align_prices == old(self).align_prices,
                forall|k: int|
                    0 <= k < 4 * MODELED_DISTANCES && near_slot(k % 128) < slot
                        ==> #[trigger] self.dis_prices@[k] == near_price(
                        self.slot_prices@,
                        probs@,
                        k / 128,
                        k % 128,
                    ),
            decreases 14 - slot,
        {
            let (base, size): (usize, usize) = if slot < 4 {
                (slot, 1)
            } else if slot < 6 {
                (slot * 2 - 4, 2)
            } else if slot < 8 {
                (slot * 4 - 16, 4)
            } else if slot < 10 {
                (slot * 8 - 48, 8)
            } else if slot < 12 {
                (slot * 16 - 128, 16)
            } else {
                (slot * 32 - 320, 32)
            };
            let mut low: usize = 0;
            while low < size
                invariant
                    self.wf(),
                    pp.wf(),
                    valid_probs(probs@),
                    probs@.len() == NUM_MODELS,
                    slot < 14,
                    low <= size,
                    base == near_base(slot as int),
                    size == near_size(slot as int),
                    base + size <= MODELED_DISTANCES,
                    slot <= base,
                    BM_DIS + base - slot + size <= BM_ALIGN,
                    self.slot_prices == old(self).slot_prices,
                    self.align_prices == old(self).align_prices,
                    forall|k: int|
                        0 <= k < 4 * MODELED_DISTANCES && (near_slot(k % 128) < slot || (near_slot(
                            k % 128,
                        ) == slot && k % 128 < base + low)) ==> #[trigger] self.dis_prices@[k]
                            == near_price(self.slot_prices@, probs@, k / 128, k % 128),
                decreases size - low,
            {
                let extra: u32 = if size >= 2 {
                    pp.price_symbol_reversed(probs, BM_DIS + base - slot, size, low as u32)
                } else {
                    0
                };
                let mut ls: usize = 0;
                while ls < 4
                    invariant
                        self.wf(),
                        slot < 14,
                        low < size,
                        base == near_base(slot as int),
                        size == near_size(slot as int),
                        base + size <= MODELED_DISTANCES,
                        ls <= 4,
                        extra == near_extra(probs@, base + low),
                        near_slot(base + low) == slot,
                        self.slot_prices == old(self).slot_prices,
                        self.align_prices == old(self).align_prices,
                        forall|k: int|
                            0 <= k < 4 * MODELED_DISTANCES && (near_slot(k % 128) < slot || (
                            near_slot(k % 128) == slot && k % 128 < base + low) || (k % 128 == base
                                + low && k / 128 < ls)) ==> #[trigger] self.dis_prices@[k]
                                == near_price(self.slot_prices@, probs@, k / 128, k % 128),
                    decreases 4 - ls,
                {
                    self.dis_prices[ls * MODELED_DISTANCES + base + low] = add_price(
                        self.slot_prices[ls * NUM_DIS_SLOTS + slot],
                        extra,
                    );
                    ls = ls + 1;
                }
                low = low + 1;
            }
            slot = slot + 1;
        }
    }

    /// Sets the prices by the probabilities at hand: those of the slots,
    /// those of the distances below 128, and those of the four lowest bits
    /// of the distances beyond.
    pub(crate) fn update(&mut self, pp: &ProbPrices, probs: &Vec<u32>)
        requires
            old(self).wf(),
            pp.wf(),
            valid_probs(probs@),
            probs@.len() == NUM_MODELS,
        ensures
            final(self).wf(),
            final(self).updated(probs@),
    {
        self.update_slots(pp, probs);
        self.update_near(pp, probs);
        proof {
            assert(self.near() == self.dis_prices@);
            assert(self.slots() == self.slot_prices@);
            assert forall|k: int| 0 <= k < 4 * MODELED_DISTANCES implies #[trigger] self.dis_prices@[k]
                == near_price(self.slot_prices@, probs@, k / 128, k % 128) by {
                assert(self.near()[k] == near_price(self.slots(), probs@, k / 128, k % 128));
            }
            assert forall|k: int| 0 <= k < 4 * NUM_DIS_SLOTS implies #[trigger] self.slot_prices@[k]
                == slot_price(probs@, k / 64, k % 64) by {
                assert(self.slots()[k] == slot_price(probs@, k / 64, k % 64));
            }
        }
        let mut i: usize = 0;
        while i < 16
            invariant
                self.wf(),
                pp.wf(),
                valid_probs(probs@),
                probs@.len() == NUM_MODELS,
                i <= 16,
                forall|k: int|
                    0 <= k < 4 * NUM_DIS_SLOTS ==> #[trigger] self.slot_prices@[k] == slot_price(
                        probs@,
                        k / 64,
                        k % 64,
                    ),
                forall|k: int|
                    0 <= k < 4 * MODELED_DISTANCES ==> #[trigger] self.dis_prices@[k]
                        == near_price(self.slot_prices@, probs@, k / 128, k % 128),
                forall|k: int|
                    0 <= k < i ==> #[trigger] self.align_prices@[k] == reversed_price(
                        probs@,
                        BM_ALIGN as int,
                        1,
                        8,
                        k,
                    ),
            decreases 16 - i,
        {
            self.align_prices[i] = pp.price_symbol_reversed(probs, BM_ALIGN, 16, i as u32);
            i = i + 1;
        }
    }

    /// The price of the distance `dis` after a length of the class
    /// `len_state`: for a distance below 128 the price kept for it, for one
    /// beyond the price of its slot and of its four lowest bits.
    pub(crate) fn price(&self, dis: u32, len_state: usize) -> (r: u32)
        requires
            self.wf(),
            len_state < 4,
        ensures
            r == dis_price(self.slots(), self.near(), self.aligns(), dis, len_state as int),
    {
        if (dis as usize) < MODELED_DISTANCES {
            self.dis_prices[len_state * MODELED_DISTANCES + dis as usize]
        } else {
            let slot: usize = slot_of(dis).0 as usize;
            add_price(
                self.slot_prices[len_state * NUM_DIS_SLOTS + slot],
                self.align_prices[(dis % 16) as usize],
            )
        }
    }
}

/// The price of the distance `dis` after a length of the class `ls`, by the
/// tables of prices.
pub open spec fn dis_price(slots: Seq<u32>, near: Seq<u32>, aligns: Seq<u32>, dis: u32, ls: int) -> int {
    if dis < 128 {
        near[ls * 128 + dis] as int
    } else {
        sat_price(slots[ls * 64 + dis_slot(dis as int)] as int, aligns[dis as int % 16] as int)
    }
}

/// Number of trials that the buffer holds.
pub const MAX_NUM_TRIALS: usize = 8192;

/// Number of bytes after which the prices are set anew.
pub const PRICE_COUNT: usize = 1024;

/// In a trial: the step that leads to it is one operation.
pub const SINGLE_STEP: i64 = -2;

/// In a trial: the step that leads to it is a literal and then a repeat of
/// the last distance.
pub const DUAL_STEP: i64 = -1;

/// In a trial: the operation is a literal.
pub const LITERAL_STEP: i64 = -1;

/// The cheapest way found to reach a position.
///
/// While the ways are weighed, `price` is the price of the way and
/// `prev_index` the trial that the last step starts from. A last step of two
/// operations has `DUAL_STEP` in `prev_index2`; one of three, where a match
/// or a repeat comes first, has there the trial that the first starts from.
/// `dis4` tells the operation: `LITERAL_STEP`, the index of a repeat, or the
/// distance of a match and four more. Once the way is walked back, `price`
/// is the length of the operation that starts at the trial, and `dis4`
/// tells that operation.
#[derive(Clone, Copy, Debug)]
pub struct Trial {
    /// The coding state in which the position is reached.
    pub state: u32,
    /// The price, and later the length.
    pub price: u32,
    /// The operation.
    pub dis4: i64,
    /// Where the last step starts.
    pub prev_index: usize,
    /// How many operations the last step is made of.
    pub prev_index2: i64,
    /// The four last distances with which the position is reached.
    pub reps: Reps,
}

/// Whether a trial's state and indexes are within bounds.
pub open spec fn trial_ok(t: Trial) -> bool {
    &&& t.state < STATES
    &&& t.prev_index < MAX_NUM_TRIALS
    &&& t.prev_index2 < MAX_NUM_TRIALS
}

/// The distance with the given index.
pub(crate) fn rep_at(reps: Reps, index: usize) -> (r: u32)
    ensures
        index < 4 ==> r == reps.get(index as u32),
{
    if index == 0 {
        reps.rep0
    } else if index == 1 {
        reps.rep1
    } else if index == 2 {
        reps.rep2
    } else {
        reps.rep3
    }
}

/// The four last distances after the operation that `dis4` tells: a match
/// puts its distance in front, a repeat moves the distance it names to the
/// front, and a literal leaves them.
pub open spec fn trial_reps(dis4: i64, reps: Reps) -> Reps {
    if dis4 >= 4 {
        reps.next(Op::Match { dis: ((dis4 - 4) % 0x1_0000_0000) as u32, len: MIN_MATCH_LEN })
    } else if 1 <= dis4 {
        reps.next(Op::Rep { index: dis4 as u32, len: MIN_MATCH_LEN })
    } else {
        reps
    }
}

/// The four last distances after the operation that `dis4` tells.
pub(crate) fn mtf_reps(dis4: i64, reps: Reps) -> (r: Reps)
    ensures
        r == trial_reps(dis4, reps),
{
    if dis4 >= 4 {
        Reps {
            rep0: ((dis4 - 4) % 0x1_0000_0000) as u32,
            rep1: reps.rep0,
            rep2: reps.rep1,
            rep3: reps.rep2,
        }
    } else if dis4 == 1 {
        Reps { rep0: reps.rep1, rep1: reps.rep0, rep2: reps.rep2, rep3: reps.rep3 }
    } else if dis4 == 2 {
        Reps { rep0: reps.rep2, rep1: reps.rep0, rep2: reps.rep1, rep3: reps.rep3 }
    } else if dis4 == 3 {
        Reps { rep0: reps.rep3, rep1: reps.rep0, rep2: reps.rep1, rep3: reps.rep2 }
    } else {
        reps
    }
}

/// The state after a literal.
pub(crate) fn set_char(st: u32) -> (r: u32)
    requires
        st < STATES,
    ensures
        r < STATES,
        r == st_set_char(st),
{
    next_state(st, Op::Literal { byte: 0 })
}

/// The state after a match.
pub(crate) fn set_match(st: u32) -> (r: u32)
    requires
        st < STATES,
    ensures
        r < STATES,
        r == st_set_match(st),
{
    next_state(st, Op::Match { dis: 0, len: MIN_MATCH_LEN })
}

/// The state after a repeated match.
pub(crate) fn set_rep(st: u32) -> (r: u32)
    requires
        st < STATES,
    ensures
        r < STATES,
        r == st_set_rep(st),
{
    next_state(st, Op::Rep { index: 0, len: MIN_MATCH_LEN })
}

/// The state after a one-byte repeat.
pub(crate) fn set_short_rep(st: u32) -> (r: u32)
    requires
        st < STATES,
    ensures
        r < STATES,
        r == st_set_short_rep(st),
{
    next_state(st, Op::ShortRep)
}

/// The distance that a repeat stands for, 0 if it is beyond any dictionary.
pub(crate) fn distance_of(rep: u32) -> (d: usize)
    ensures
        d == 0 || d == rep + 1,
        d <= MAX_DICTIONARY_SIZE,
        d == if rep < MAX_DICTIONARY_SIZE {
            rep + 1
        } else {
            0
        },
{
    if rep < MAX_DICTIONARY_SIZE {
        rep as usize + 1
    } else {
        0
    }
}

/// The byte that lies `d` places before the one `i` places after the
/// position, if it is within the data and the dictionary.
pub(crate) fn back(mb: &MatchfinderBase, i: usize, d: usize) -> (r: Option<u8>)
    requires
        mb.wf(),
        i < mb.ahead().len(),
    ensures
        r is Some ==> 1 <= d <= mb.data_position() + i && d <= mb.dictionary_size(),
        r == if 1 <= d <= mb.data_position() + i && d <= mb.dictionary_size() {
            Some(mb.data()[mb.data_position() + i - d])
        } else {
            None
        },
{
    let avail: usize = mb.available_bytes();
    let pos: u64 = mb.get_data_position();
    proof {
        mb.lemma_wf();
    }
    if 1 <= d && d <= mb.get_dictionary_size() as usize && d as u64 <= pos + i as u64 {
        Some(mb.byte_at(i, d))
    } else {
        None
    }
}

/// The same, and 0 where the distance reaches beyond the data or the
/// dictionary.
pub open spec fn reach(data: Seq<u8>, dictionary_size: u32, pos: int, d: int, limit: nat) -> nat {
    if 1 <= d <= pos && d <= dictionary_size {
        run_len(data, pos, d, limit)
    } else {
        0
    }
}

/// Whether the place `d` bytes before the one `i` places after the position
/// lies within the data and the dictionary.
pub open spec fn in_reach(mb: &MatchfinderBase, i: int, d: int) -> bool {
    1 <= d <= mb.data_position() + i && d <= mb.dictionary_size()
}

/// How many of the bytes from `i` places after the position on, `limit` at
/// most, repeat those that lie `d` bytes before them; 0 if that is beyond the
/// data or the dictionary.
pub(crate) fn reach_len(mb: &MatchfinderBase, i: usize, d: usize, limit: usize) -> (len: usize)
    requires
        mb.wf(),
        i + limit <= mb.ahead().len(),
    ensures
        len <= limit,
        len > 0 ==> 1 <= d <= mb.dictionary_size() && is_match(
            mb.data(),
            mb.data_position() + i,
            d - 1,
            len as int,
        ),
        in_reach(mb, i as int, d as int) ==> is_match(
            mb.data(),
            mb.data_position() + i,
            d - 1,
            len as int,
        ) && (len < limit ==> mb.data()[mb.data_position() + i + len] != mb.data()[
            mb.data_position() + i + len - d]),
        !in_reach(mb, i as int, d as int) ==> len == 0,
        len == reach(
            mb.data(),
            mb.dictionary_size(),
            mb.data_position() + i,
            d as int,
            limit as nat,
        ),
{
    let avail: usize = mb.available_bytes();
    let pos: u64 = mb.get_data_position();
    proof {
        mb.lemma_wf();
    }
    if 1 <= d && d <= mb.get_dictionary_size() as usize && d as u64 <= pos + i as u64 {
        let len: usize = mb.match_len_at(i, d, limit);
        proof {
            lemma_run_len(mb.data(), mb.data_position() + i, d as int, len as nat, limit as nat);
        }
        len
    } else {
        0
    }
}

/// A trial after a way to it was weighed: the way is taken if it is cheaper
/// than the one found before.
pub open spec fn taken(t: Trial, price: u32, dis4: i64, prev: usize, prev2: i64) -> Trial {
    if price < t.price {
        Trial { price, dis4, prev_index: prev, prev_index2: prev2, ..t }
    } else {
        t
    }
}

/// The price of a literal, without the bit that tells it from a match: after
/// a literal the byte in its tree, after a match the byte held against the
/// one that the last distance points at.
pub open spec fn literal_price(
    probs: Seq<u32>,
    state: u32,
    prev_byte: u8,
    byte: u8,
    match_byte: u8,
) -> int {
    let base = BM_LITERAL + (prev_byte / 32) * LITERAL_GROUP;
    if state < 7 {
        tree_price(probs, base, 1, 128, byte as int)
    } else {
        matched_price(probs, base, 1, 128, byte as int, match_byte as int, true)
    }
}

/// The price of a one-byte repeat, after the bits that tell a repeat.
pub open spec fn shortrep_price(probs: Seq<u32>, state: u32, ps: int) -> int {
    bit_price(probs[BM_REP0 + state], false) + bit_price(probs[BM_LEN + state * 4 + ps], false)
}

/// The price of telling which of the four last distances is repeated, at
/// more than one byte if it is the last.
pub open spec fn rep_price(probs: Seq<u32>, rep: int, state: u32, ps: int) -> int {
    if rep == 0 {
        bit_price(probs[BM_REP0 + state], false) + bit_price(probs[BM_LEN + state * 4 + ps], true)
    } else if rep == 1 {
        bit_price(probs[BM_REP0 + state], true) + bit_price(probs[BM_REP1 + state], false)
    } else {
        bit_price(probs[BM_REP0 + state], true) + bit_price(probs[BM_REP1 + state], true)
            + bit_price(probs[BM_REP2 + state], rep == 3)
    }
}

/// The price of a repeat of the last distance, of length `len`, by the table
/// of the prices of the lengths of repeats.
pub open spec fn rep0_len_price(
    probs: Seq<u32>,
    table: Seq<u32>,
    len: int,
    state: u32,
    ps: int,
) -> int {
    sat_price(rep_price(probs, 0, state, ps), table[ps * 272 + len - 2] as int)
}

/// The price of what follows a match or a repeat in a way of three
/// operations: the literal at the place `at` of the data, which is coded
/// against the byte `d` places before it, in the state `state2` that the
/// match leaves and at the place `ps` in its group of four, and after it a
/// repeat of `n2` bytes of the last distance.
pub open spec fn tail_price(
    probs: Seq<u32>,
    table: Seq<u32>,
    data: Seq<u8>,
    at: int,
    ps: int,
    state2: u32,
    d: int,
    n2: int,
) -> int {
    let base = BM_LITERAL + (data[at - 1] / 32) * LITERAL_GROUP;
    let lit = matched_price(probs, base, 1, 128, data[at] as int, data[at - d] as int, true);
    let ps3 = (ps + 1) % 4;
    let state3 = st_set_char(state2);
    let first = bit_price(probs[BM_MATCH + state2 * 4 + ps], false) + lit;
    let second = bit_price(probs[BM_MATCH + state3 * 4 + ps3], true) + bit_price(
        probs[BM_REP + state3],
        true,
    );
    sat_price(first + second, rep0_len_price(probs, table, n2, state3, ps3))
}

/// Where the last step to the trial at `cur` starts.
pub open spec fn back_index(t: Trial, cur: int) -> int {
    if t.prev_index < cur {
        t.prev_index as int
    } else {
        cur - 1
    }
}

/// One step of the walk back from the trial at `cur`, which is reached by
/// the operation that `dis4` tells: the trial where the last step starts is
/// given the length of the step and its operation. A step of two or three
/// operations is parted on the way: the trial before its last operation is
/// reached by a literal, and where a match or a repeat comes first, the
/// trial before the literal is reached by that. Yields the trials and the
/// operation by which the trial is reached where the step starts.
pub open spec fn back_step(trials: Seq<Trial>, cur: int, dis4: i64) -> (Seq<Trial>, i64) {
    let t = trials[cur];
    let p = back_index(t, cur);
    let parted = t.prev_index2 != SINGLE_STEP;
    let triple = parted && t.prev_index2 >= 0 && p > 0;
    let first = if triple {
        trials.update(
            p - 1,
            Trial {
                dis4,
                prev_index: t.prev_index2 as usize,
                prev_index2: SINGLE_STEP,
                ..trials[p - 1]
            },
        )
    } else {
        trials
    };
    let reached = if parted {
        Trial {
            dis4: LITERAL_STEP,
            prev_index: if p > 0 {
                (p - 1) as usize
            } else {
                0
            },
            prev_index2: SINGLE_STEP,
            ..trials[p]
        }
    } else {
        trials[p]
    };
    let start = Trial {
        price: (cur - p) as u32,
        dis4: if triple {
            0
        } else {
            dis4
        },
        ..reached
    };
    (first.update(p, start), reached.dis4)
}

/// The trials after the way to the trial at `cur` was walked back to the
/// first trial: each trial where a step of the way starts holds in `price`
/// the length of the step and in `dis4` its operation.
pub open spec fn walked_back(trials: Seq<Trial>, cur: int, dis4: i64) -> Seq<Trial>
    decreases cur,
{
    if cur <= 0 || cur >= trials.len() {
        trials
    } else {
        let s = back_step(trials, cur, dis4);
        walked_back(s.0, back_index(trials[cur], cur), s.1)
    }
}

/// The optimizing encoder's match finder, prices, trials and plan.
#[allow(non_camel_case_types)]
pub struct LZ_encoder {
    bt: BtMatchfinder,
    pp: ProbPrices,
    match_len_prices: LenPrices,
    rep_len_prices: LenPrices,
    dis_prices: DisPrices,
    trials: Vec<Trial>,
    pairs: Vec<Pair>,
    plan: Vec<Op>,
    plan_pos: usize,
    scan: usize,
    pending: bool,
    match_len_limit: usize,
    price_counter: usize,
}

impl LZ_encoder {
    /// Number of positions from that of the window on that are filed in the
    /// trees.
    pub closed spec fn scan(&self) -> nat {
        self.scan as nat
    }

    /// The position that is filed next.
    pub closed spec fn filed(&self) -> nat {
        self.bt.next_position()
    }

    /// The dictionary size.
    pub closed spec fn dictionary_size(&self) -> u32 {
        self.bt.dictionary_size()
    }

    /// Number of operations planned and not handed out yet.
    pub closed spec fn planned(&self) -> nat {
        (self.plan@.len() - self.plan_pos) as nat
    }

    /// The tables have their sizes, and every trial is within bounds.
    pub closed spec fn parts_wf(&self) -> bool {
        &&& self.bt.wf()
        &&& self.pp.wf()
        &&& self.match_len_prices.wf()
        &&& self.rep_len_prices.wf()
        &&& self.dis_prices.wf()
        &&& self.trials@.len() == MAX_NUM_TRIALS
        &&& forall|i: int| 0 <= i < MAX_NUM_TRIALS ==> trial_ok(#[trigger] self.trials@[i])
        &&& self.plan_pos <= self.plan@.len()
        &&& MIN_MATCH_LEN_LIMIT <= self.match_len_limit <= MAX_MATCH_LEN
        &&& forall|j: int, k: int|
            0 <= j < k < self.pairs@.len() ==> (#[trigger] self.pairs@[j]).len < (
            #[trigger] self.pairs@[k]).len
    }

    /// The parts are well-formed; the trees are those of a window with the
    /// given dictionary size, at the position `pos` of its data with `avail`
    /// bytes ahead, and hold every position before the one filed next.
    pub open spec fn wf(&self, dictionary_size: u32, pos: int, avail: int) -> bool {
        &&& self.parts_wf()
        &&& self.dictionary_size() == dictionary_size
        &&& self.filed() == pos + self.scan()
        &&& self.scan() <= avail
    }

    /// An encoder with empty trees and no plan.
    pub(crate) fn new(dictionary_size: u32, match_len_limit: u32) -> (e: LZ_encoder)
        requires
            MIN_DICTIONARY_SIZE <= dictionary_size <= MAX_DICTIONARY_SIZE,
            MIN_MATCH_LEN_LIMIT <= match_len_limit <= MAX_MATCH_LEN,
        ensures
            e.wf(dictionary_size, 0, 0),
            e.scan() == 0,
            e.planned() == 0,
    {
        let first = Trial {
            state: 0,
            price: 0,
            dis4: LITERAL_STEP,
            prev_index: 0,
            prev_index2: SINGLE_STEP,
            reps: Reps { rep0: 0, rep1: 0, rep2: 0, rep3: 0 },
        };
        LZ_encoder {
            bt: BtMatchfinder::new(dictionary_size, match_len_limit),
            pp: ProbPrices::new(),
            match_len_prices: LenPrices::new(match_len_limit),
            rep_len_prices: LenPrices::new(match_len_limit),
            dis_prices: DisPrices::new(),
            trials: vec![first; MAX_NUM_TRIALS],
            pairs: Vec::new(),
            plan: Vec::new(),
            plan_pos: 0,
            scan: 0,
            pending: false,
            match_len_limit: match_len_limit as usize,
            price_counter: 0,
        }
    }

    /// Forgets the positions filed and the plan, for the data of a new
    /// member.
    pub(crate) fn reset(&mut self)
        requires
            old(self).parts_wf(),
        ensures
            final(self).wf(old(self).dictionary_size(), 0, 0),
            final(self).scan() == 0,
            final(self).planned() == 0,
    {
        self.bt.reset();
        self.plan.clear();
        self.plan_pos = 0;
        self.scan = 0;
        self.pending = false;
        self.price_counter = 0;
    }

    /// Gives the plan up.
    pub(crate) fn discard_plan(&mut self)
        requires
            old(self).parts_wf(),
        ensures
            final(self).parts_wf(),
            final(self).dictionary_size() == old(self).dictionary_size(),
            final(self).filed() == old(self).filed(),
            final(self).scan() == old(self).scan(),
            final(self).planned() == 0,
    {
        self.plan.clear();
        self.plan_pos = 0;
    }

    /// Follows the window, which is about to move `n` bytes on: the positions
    /// that it passes and that are not filed yet are filed.
    pub(crate) fn moved(&mut self, mb: &MatchfinderBase, n: usize)
        requires
            mb.wf(),
            old(self).wf(
                mb.dictionary_size(),
                mb.data_position() as int,
                mb.ahead().len() as int,
            ),
            n <= mb.ahead().len(),
        ensures
            final(self).wf(mb.dictionary_size(), mb.data_position() + n, mb.ahead().len() - n),
            final(self).planned() == old(self).planned(),
    {
        let avail: usize = mb.available_bytes();
        if self.scan >= n {
            self.scan = self.scan - n;
            if self.pending && self.scan == 0 {
                self.pending = false;
            }
            return ;
        }
        self.pending = false;
        let mut i: usize = self.scan;
        while i < n
            invariant
                mb.wf(),
                self.parts_wf(),
                self.dictionary_size() == mb.dictionary_size(),
                self.filed() == mb.data_position() + i,
                self.planned() == old(self).planned(),
                i <= n <= avail,
                avail == mb.ahead().len(),
            decreases n - i,
        {
            let limit: usize = if avail - i < self.match_len_limit {
                avail - i
            } else {
                self.match_len_limit
            };
            self.bt.get_match_pairs(mb, i, limit, false, &mut self.pairs);
            i = i + 1;
        }
        self.scan = 0;
    }

    /// The trees are those of the window `mb`.
    pub closed spec fn tied(&self, mb: &MatchfinderBase) -> bool {
        &&& mb.wf()
        &&& self.parts_wf()
        &&& self.bt.dictionary_size() == mb.dictionary_size()
        &&& self.bt.next_position() == mb.data_position() + self.scan
        &&& self.scan <= mb.ahead().len()
    }

    /// Everything but the trials is as it was in `prev`.
    pub closed spec fn frame(&self, prev: LZ_encoder) -> bool {
        &&& self.bt == prev.bt
        &&& self.pp == prev.pp
        &&& self.match_len_prices == prev.match_len_prices
        &&& self.rep_len_prices == prev.rep_len_prices
        &&& self.dis_prices == prev.dis_prices
        &&& self.pairs == prev.pairs
        &&& self.plan == prev.plan
        &&& self.plan_pos == prev.plan_pos
        &&& self.scan == prev.scan
        &&& self.pending == prev.pending
        &&& self.match_len_limit == prev.match_len_limit
        &&& self.price_counter == prev.price_counter
    }

    /// The trial at `i`.
    fn trial(&self, i: usize) -> (t: Trial)
        requires
            self.parts_wf(),
            i < MAX_NUM_TRIALS,
        ensures
            trial_ok(t),
            t == self.trials@[i as int],
    {
        self.trials[i]
    }

    /// Puts `t` at `i`.
    fn set_trial(&mut self, i: usize, t: Trial)
        requires
            old(self).parts_wf(),
            i < MAX_NUM_TRIALS,
            trial_ok(t),
        ensures
            final(self).parts_wf(),
            final(self).frame(*old(self)),
            final(self).trials@ == old(self).trials@.update(i as int, t),
    {
        self.trials[i] = t;
    }

    /// A way of one operation to the trial at `i`, which is taken if it is
    /// cheaper than the one found before.
    fn tr_update(&mut self, i: usize, price: u32, dis4: i64, prev: usize)
        requires
            old(self).parts_wf(),
            i < MAX_NUM_TRIALS,
            prev < MAX_NUM_TRIALS,
        ensures
            final(self).parts_wf(),
            final(self).frame(*old(self)),
            final(self).trials@ == old(self).trials@.update(
                i as int,
                taken(old(self).trials@[i as int], price, dis4, prev, SINGLE_STEP),
            ),
    {
        let mut t: Trial = self.trial(i);
        if price < t.price {
            t.price = price;
            t.dis4 = dis4;
            t.prev_index = prev;
            t.prev_index2 = SINGLE_STEP;
            self.set_trial(i, t);
        } else {
            assert(self.trials@ =~= self.trials@.update(i as int, t));
        }
    }

    /// A way to the trial at `i` that ends in a literal and a repeat of the
    /// last distance.
    fn tr_update2(&mut self, i: usize, price: u32, prev: usize)
        requires
            old(self).parts_wf(),
            i < MAX_NUM_TRIALS,
            prev < MAX_NUM_TRIALS,
        ensures
            final(self).parts_wf(),
            final(self).frame(*old(self)),
            final(self).trials@ == old(self).trials@.update(
                i as int,
                taken(old(self).trials@[i as int], price, 0, prev, DUAL_STEP),
            ),
    {
        let mut t: Trial = self.trial(i);
        if price < t.price {
            t.price = price;
            t.dis4 = 0;
            t.prev_index = prev;
            t.prev_index2 = DUAL_STEP;
            self.set_trial(i, t);
        } else {
            assert(self.trials@ =~= self.trials@.update(i as int, t));
        }
    }

    /// A way to the trial at `i` that ends in the operation that `dis4`
    /// tells, a literal and a repeat of the last distance.
    fn tr_update3(&mut self, i: usize, price: u32, dis4: i64, prev: usize, prev2: usize)
        requires
            old(self).parts_wf(),
            i < MAX_NUM_TRIALS,
            prev < MAX_NUM_TRIALS,
            prev2 < MAX_NUM_TRIALS,
        ensures
            final(self).parts_wf(),
            final(self).frame(*old(self)),
            final(self).trials@ == old(self).trials@.update(
                i as int,
                taken(old(self).trials@[i as int], price, dis4, prev, prev2 as i64),
            ),
    {
        let mut t: Trial = self.trial(i);
        if price < t.price {
            t.price = price;
            t.dis4 = dis4;
            t.prev_index = prev;
            t.prev_index2 = prev2 as i64;
            self.set_trial(i, t);
        } else {
            assert(self.trials@ =~= self.trials@.update(i as int, t));
        }
    }

    /// Makes the trials up to the one at `upto` ready to be reached: those
    /// past the last that was get a price above any. Yields the number of the
    /// last trial that is ready.
    fn grow(&mut self, num_trials: usize, upto: usize) -> (r: usize)
        requires
            old(self).parts_wf(),
            num_trials < MAX_NUM_TRIALS,
            upto < MAX_NUM_TRIALS,
        ensures
            final(self).parts_wf(),
            final(self).frame(*old(self)),
            r == if num_trials < upto {
                upto
            } else {
                num_trials
            },
            forall|k: int|
                0 <= k < MAX_NUM_TRIALS ==> #[trigger] final(self).trials@[k] == if num_trials < k
                    <= upto {
                    Trial { price: INFINITE_PRICE, ..old(self).trials@[k] }
                } else {
                    old(self).trials@[k]
                },
    {
        let mut n: usize = num_trials;
        while n < upto
            invariant
                self.parts_wf(),
                self.frame(*old(self)),
                upto < MAX_NUM_TRIALS,
                num_trials <= n,
                n <= upto || n == num_trials,
                forall|k: int|
                    0 <= k < MAX_NUM_TRIALS ==> #[trigger] self.trials@[k] == if num_trials < k
                        <= n {
                        Trial { price: INFINITE_PRICE, ..old(self).trials@[k] }
                    } else {
                        old(self).trials@[k]
                    },
            decreases upto - n,
        {
            n = n + 1;
            let mut t: Trial = self.trial(n);
            t.price = INFINITE_PRICE;
            self.set_trial(n, t);
        }
        n
    }

    /// The price of the bit that tells a match from a literal.
    fn price_match_bit(&self, probs: &Vec<u32>, state: u32, ps: usize, bit: bool) -> (r: u32)
        requires
            self.parts_wf(),
            valid_probs(probs@),
            probs@.len() == NUM_MODELS,
            state < STATES,
            ps < 4,
        ensures
            r <= MAX_BIT_PRICE,
            r == bit_price(probs@[BM_MATCH + state * 4 + ps], bit),
    {
        self.pp.price_bit(probs[BM_MATCH + state as usize * 4 + ps], bit)
    }

    /// The price of the bit that tells a repeat from a match.
    fn price_rep_bit(&self, probs: &Vec<u32>, state: u32, bit: bool) -> (r: u32)
        requires
            self.parts_wf(),
            valid_probs(probs@),
            probs@.len() == NUM_MODELS,
            state < STATES,
        ensures
            r <= MAX_BIT_PRICE,
            r == bit_price(probs@[BM_REP + state], bit),
    {
        self.pp.price_bit(probs[BM_REP + state as usize], bit)
    }

    /// The price of a literal, without the bit that tells it from a match.
    fn price_literal(
        &self,
        probs: &Vec<u32>,
        state: u32,
        prev_byte: u8,
        byte: u8,
        match_byte: u8,
    ) -> (r: u32)
        requires
            self.parts_wf(),
            valid_probs(probs@),
            probs@.len() == NUM_MODELS,
        ensures
            r <= 128 * MAX_BIT_PRICE,
            r == literal_price(probs@, state, prev_byte, byte, match_byte),
    {
        let base: usize = BM_LITERAL + (prev_byte / 32) as usize * LITERAL_GROUP;
        if state < 7 {
            self.pp.price_symbol(probs, base, 256, byte as u32)
        } else {
            self.pp.price_matched(probs, base, byte, match_byte)
        }
    }

    /// The price of a one-byte repeat, after the bits that tell a repeat.
    fn price_shortrep(&self, probs: &Vec<u32>, state: u32, ps: usize) -> (r: u32)
        requires
            self.parts_wf(),
            valid_probs(probs@),
            probs@.len() == NUM_MODELS,
            state < STATES,
            ps < 4,
        ensures
            r <= 2 * MAX_BIT_PRICE,
            r == shortrep_price(probs@, state, ps as int),
    {
        self.pp.price0(probs[BM_REP0 + state as usize]) + self.pp.price0(
            probs[BM_LEN + state as usize * 4 + ps],
        )
    }

    /// The price of telling which of the four last distances is repeated.
    fn price_rep(&self, probs: &Vec<u32>, rep: usize, state: u32, ps: usize) -> (r: u32)
        requires
            self.parts_wf(),
            valid_probs(probs@),
            probs@.len() == NUM_MODELS,
            state < STATES,
            ps < 4,
        ensures
            r <= 3 * MAX_BIT_PRICE,
            r == rep_price(probs@, rep as int, state, ps as int),
    {
        let st: usize = state as usize;
        if rep == 0 {
            self.pp.price0(probs[BM_REP0 + st]) + self.pp.price1(probs[BM_LEN + st * 4 + ps])
        } else {
            let first: u32 = self.pp.price1(probs[BM_REP0 + st]);
            if rep == 1 {
                first + self.pp.price0(probs[BM_REP1 + st])
            } else {
                first + self.pp.price1(probs[BM_REP1 + st]) + self.pp.price_bit(
                    probs[BM_REP2 + st],
                    rep == 3,
                )
            }
        }
    }

    /// The price of a repeat of the last distance, of length `len`.
    fn price_rep0_len(&self, probs: &Vec<u32>, len: usize, state: u32, ps: usize) -> (r: u32)
        requires
            self.parts_wf(),
            valid_probs(probs@),
            probs@.len() == NUM_MODELS,
            state < STATES,
            ps < 4,
            MIN_MATCH_LEN <= len <= MAX_MATCH_LEN,
        ensures
            r == rep0_len_price(
                probs@,
                self.rep_len_prices.table(),
                len as int,
                state,
                ps as int,
            ),
    {
        add_price(self.price_rep(probs, 0, state, ps), self.rep_len_prices.price(len, ps))
    }

    /// The price of the length and the distance of a match.
    fn price_pair(&self, dis: u32, len: usize, ps: usize) -> (r: u32)
        requires
            self.parts_wf(),
            ps < 4,
            MIN_MATCH_LEN <= len <= MAX_MATCH_LEN,
        ensures
            r == self.pair_price(dis, len as int, ps as int),
    {
        let ls: usize = if len - (MIN_MATCH_LEN as usize) < 3 {
            len - MIN_MATCH_LEN as usize
        } else {
            3
        };
        add_price(self.match_len_prices.price(len, ps), self.dis_prices.price(dis, ls))
    }

    /// The price of the length and the distance of a match, by the tables at
    /// hand.
    pub closed spec fn pair_price(&self, dis: u32, len: int, ps: int) -> int {
        sat_price(
            self.match_len_prices.table()[ps * 272 + len - 2] as int,
            dis_price(
                self.dis_prices.slots(),
                self.dis_prices.near(),
                self.dis_prices.aligns(),
                dis,
                len_state(len),
            ),
        )
    }

    /// Sets the prices of the lengths and of the distances anew, by the
    /// probabilities at hand, and starts counting to the next time.
    fn update_prices(&mut self, probs: &Vec<u32>)
        requires
            old(self).parts_wf(),
            valid_probs(probs@),
            probs@.len() == NUM_MODELS,
        ensures
            final(self).parts_wf(),
            final(self).bt == old(self).bt,
            final(self).scan == old(self).scan,
            final(self).pending == old(self).pending,
            final(self).plan == old(self).plan,
            final(self).plan_pos == old(self).plan_pos,
            final(self).pairs == old(self).pairs,
            final(self).trials == old(self).trials,
            final(self).match_len_limit == old(self).match_len_limit,
            final(self).price_counter == PRICE_COUNT,
            final(self).match_len_prices.updated(
                old(self).match_len_prices,
                probs@,
                MATCH_LEN_MODEL as int,
            ),
            final(self).rep_len_prices.updated(
                old(self).rep_len_prices,
                probs@,
                REP_LEN_MODEL as int,
            ),
            final(self).dis_prices.updated(probs@),
    {
        self.match_len_prices.update(&self.pp, probs, MATCH_LEN_MODEL);
        self.rep_len_prices.update(&self.pp, probs, REP_LEN_MODEL);
        self.dis_prices.update(&self.pp, probs);
        self.price_counter = PRICE_COUNT;
    }

    /// Files the position `off` places after that of the window and takes
    /// the matches there; a match as long as the limit is measured to its
    /// end. Yields the length of the longest match, 0 if there is none.
    fn read_match_distances(&mut self, mb: &MatchfinderBase, off: usize) -> (newlen: usize)
        requires
            old(self).tied(mb),
            old(self).scan == off,
            off < mb.ahead().len(),
        ensures
            final(self).tied(mb),
            final(self).scan == off + 1,
            final(self).plan == old(self).plan,
            final(self).plan_pos == old(self).plan_pos,
            final(self).pending == old(self).pending,
            final(self).trials == old(self).trials,
            final(self).match_len_limit == old(self).match_len_limit,
            final(self).price_counter == old(self).price_counter,
            newlen <= mb.ahead().len() - off,
            newlen <= MAX_MATCH_LEN,
            newlen > 0 ==> final(self).pairs@.len() > 0 && final(self).pairs@.last().len == newlen,
            pairs_match(
                final(self).pairs@,
                mb.data(),
                mb.data_position() + off,
                mb.dictionary_size(),
                MAX_MATCH_LEN as int,
            ),
    {
        let avail: usize = mb.available_bytes();
        let limit: usize = if avail - off < self.match_len_limit {
            avail - off
        } else {
            self.match_len_limit
        };
        self.bt.get_match_pairs(mb, off, limit, true, &mut self.pairs);
        self.scan = off + 1;
        let n: usize = self.pairs.len();
        if n == 0 {
            return 0;
        }
        let last: Pair = self.pairs[n - 1];
        let mut len: usize = last.len as usize;
        if len == self.match_len_limit && len < MAX_MATCH_LEN as usize {
            let cap: usize = if avail - off < MAX_MATCH_LEN as usize {
                avail - off
            } else {
                MAX_MATCH_LEN as usize
            };
            let ghost before = self.pairs@;
            let longer: usize = mb.match_len_at(off, last.dis as usize + 1, cap);
            proof {
                let dp = mb.data_position() + off;
                if longer < len {
                    assert(mb.data()[dp + longer] == mb.data()[dp + longer - last.dis - 1]);
                }
            }
            len = longer;
            self.pairs[n - 1] = Pair { dis: last.dis, len: len as u32 };
            proof {
                assert forall|j: int, k: int| 0 <= j < k < self.pairs@.len() implies (
                #[trigger] self.pairs@[j]).len < (#[trigger] self.pairs@[k]).len by {
                    assert(self.pairs@[j] == before[j]);
                    assert(before[j].len < before[n - 1].len);
                }
            }
        }
        len
    }
}

/// A position that the ways ahead have reached, with what the ways on from
/// it are weighed by.
pub struct Here {
    /// The trial of the position.
    pub cur: usize,
    /// The coding state there.
    pub state: u32,
    /// The place of the position in its group of four.
    pub ps: usize,
    /// The four last distances there.
    pub reps: Reps,
    /// The byte at the position.
    pub cur_byte: u8,
    /// Whether the byte at the last distance is the same.
    pub rep0_hit: bool,
    /// Number of bytes from the position on that ways can cover.
    pub triable: usize,
    /// The longest match or repeat that is tried.
    pub len_limit: usize,
    /// The price of the way to the position and of a literal there.
    pub next_price: u32,
    /// The price of the way to the position and of the bit for a match.
    pub match_price: u32,
    /// The same with the bit for a repeat.
    pub rep_match_price: u32,
}

/// How far the data after the byte at the position `h` repeats at the last
/// distance there: the length of the repeat that can follow a literal.
pub open spec fn literal_rep0_len(
    data: Seq<u8>,
    dictionary_size: u32,
    pos: int,
    match_len_limit: int,
    h: Here,
) -> nat {
    let limit = if match_len_limit + 1 < h.triable {
        match_len_limit + 1
    } else {
        h.triable as int
    };
    reach(
        data,
        dictionary_size,
        pos + h.cur + 1,
        if h.reps.rep0 < MAX_DICTIONARY_SIZE {
            h.reps.rep0 + 1
        } else {
            0
        },
        (limit - 1) as nat,
    )
}

/// The price of the way to the position `h`, a literal there and a repeat
/// of `len` bytes of the last distance after it.
pub open spec fn literal_rep0_price(probs: Seq<u32>, table: Seq<u32>, h: Here, len: int) -> int {
    let ps2 = (h.ps + 1) % 4;
    let state2 = st_set_char(h.state);
    sat_price(
        h.next_price as int,
        sat_price(
            bit_price(probs[BM_MATCH + state2 * 4 + ps2], true) + bit_price(
                probs[BM_REP + state2],
                true,
            ),
            rep0_len_price(probs, table, len, state2, ps2),
        ),
    )
}

/// Whether the pair at `k` is the one by which a match of the length `len`
/// is weighed: the first that is long enough, which has the nearest
/// distance.
pub open spec fn covers_len(pairs: Seq<Pair>, k: int, len: int) -> bool {
    &&& 0 <= k < pairs.len()
    &&& len <= pairs[k].len
    &&& k == 0 || pairs[k - 1].len < len
}

/// The distance that a repeat stands for, 0 if it is beyond any dictionary.
pub open spec fn distance(rep: u32) -> int {
    if rep < MAX_DICTIONARY_SIZE {
        rep + 1
    } else {
        0
    }
}

/// How far the data repeats at the distance of the match `pair` from the
/// position `h`, after the match and one more byte: the length of the repeat
/// that can follow the match and a literal.
pub open spec fn tail_len(
    data: Seq<u8>,
    dictionary_size: u32,
    pos: int,
    match_len_limit: int,
    h: Here,
    pair: Pair,
) -> nat {
    let len2 = pair.len + 1;
    let limit = if match_len_limit + len2 < h.triable {
        match_len_limit + len2
    } else {
        h.triable as int
    };
    if len2 < limit {
        reach(data, dictionary_size, pos + h.cur + len2, distance(pair.dis), (limit - len2) as nat)
    } else {
        0
    }
}

impl Here {
    /// The position and the bytes to cover lie within the trials and within
    /// the data ahead.
    pub open spec fn ok(self, avail: int, match_len_limit: int) -> bool {
        &&& self.cur + 1 < MAX_NUM_TRIALS
        &&& self.cur < avail
        &&& self.cur + self.triable < MAX_NUM_TRIALS
        &&& self.cur + self.triable <= avail
        &&& self.state < STATES
        &&& self.ps < 4
        &&& self.len_limit <= self.triable
        &&& self.len_limit <= match_len_limit
        &&& self.triable >= 2 ==> self.len_limit >= 2
    }
}

impl LZ_encoder {
    /// Gives the trial at `cur` its state and its distances, by the way that
    /// leads to it, and weighs a literal there. The first trial has them
    /// already.
    fn settle(&mut self, mb: &MatchfinderBase, probs: &Vec<u32>, cur: usize) -> (h: Here)
        requires
            old(self).tied(mb),
            valid_probs(probs@),
            probs@.len() == NUM_MODELS,
            cur + 1 < MAX_NUM_TRIALS,
            cur < mb.ahead().len(),
        ensures
            final(self).parts_wf(),
            final(self).frame(*old(self)),
            h.ok(mb.ahead().len() as int, old(self).match_len_limit as int),
            h.cur == cur,
    {
        let avail: usize = mb.available_bytes();
        let pos: u64 = mb.get_data_position();
        proof {
            mb.lemma_wf();
        }
        let mut ct: Trial = self.trial(cur);
        let mut prev_index: usize = ct.prev_index;
        let state: u32 = if cur == 0 {
            prev_index = 0;
            ct.dis4 = LITERAL_STEP;
            ct.state
        } else if ct.prev_index2 == SINGLE_STEP {
            let st: u32 = self.trial(prev_index).state;
            if prev_index + 1 == cur {
                if ct.dis4 == 0 {
                    set_short_rep(st)
                } else {
                    set_char(st)
                }
            } else if ct.dis4 < 4 {
                set_rep(st)
            } else {
                set_match(st)
            }
        } else {
            if ct.prev_index2 == DUAL_STEP {
                prev_index = if prev_index > 0 {
                    prev_index - 1
                } else {
                    0
                };
            } else if ct.prev_index2 >= 0 {
                prev_index = ct.prev_index2 as usize;
            }
            8
        };
        ct.state = state;
        ct.reps = mtf_reps(ct.dis4, self.trial(prev_index).reps);
        self.set_trial(cur, ct);
        let ps: usize = ((pos % 4 + cur as u64 % 4) % 4) as usize;
        let prev_byte: u8 = match back(mb, cur, 1) {
            Some(b) => b,
            None => 0,
        };
        let cur_byte: u8 = mb.byte_at(cur, 0);
        let match_byte: Option<u8> = back(mb, cur, distance_of(ct.reps.rep0));
        let lit: u32 = self.price_literal(
            probs,
            state,
            prev_byte,
            cur_byte,
            match match_byte {
                Some(b) => b,
                None => 0,
            },
        );
        let next_price: u32 = add_price(
            ct.price,
            self.price_match_bit(probs, state, ps, false) + lit,
        );
        let match_price: u32 = add_price(ct.price, self.price_match_bit(probs, state, ps, true));
        let rep_match_price: u32 = add_price(match_price, self.price_rep_bit(probs, state, true));
        let left: usize = MAX_NUM_TRIALS - 1 - cur;
        let triable: usize = if avail - cur < left {
            avail - cur
        } else {
            left
        };
        Here {
            cur,
            state,
            ps,
            reps: ct.reps,
            cur_byte,
            rep0_hit: match match_byte {
                Some(b) => b == cur_byte,
                None => false,
            },
            triable,
            len_limit: if self.match_len_limit < triable {
                self.match_len_limit
            } else {
                triable
            },
            next_price,
            match_price,
            rep_match_price,
        }
    }

    /// Weighs, from the position `h`, a literal and a one-byte repeat to the
    /// next position, and a literal followed by a repeat of the last
    /// distance. Yields the number of the last trial that can be reached.
    ///
    /// No way found before gets dearer, and the ways to the position and
    /// before it stay as they are. The next trial is no dearer than by a
    /// literal; nor, where the byte repeats the one at the last distance,
    /// than by a one-byte repeat, unless it is reached by a repeat of the
    /// last distance or by a step of more operations. Where the byte does
    /// not repeat, the next trial is not reached from here by a one-byte
    /// repeat, and the data after the byte repeats at the last distance for
    /// two bytes or more, the trial after the literal and the repeat is made
    /// ready and is no dearer than by them.
    fn try_literal(
        &mut self,
        mb: &MatchfinderBase,
        probs: &Vec<u32>,
        h: &Here,
        num_trials: usize,
    ) -> (r: usize)
        requires
            old(self).tied(mb),
            valid_probs(probs@),
            probs@.len() == NUM_MODELS,
            h.ok(mb.ahead().len() as int, old(self).match_len_limit as int),
            h.cur < num_trials < MAX_NUM_TRIALS,
            num_trials <= mb.ahead().len(),
        ensures
            final(self).parts_wf(),
            final(self).frame(*old(self)),
            num_trials <= r < MAX_NUM_TRIALS,
            r <= mb.ahead().len(),
            forall|k: int|
                0 <= k <= num_trials ==> (#[trigger] final(self).trials@[k]).price <= old(self).trials@[k].price,
            forall|k: int| 0 <= k <= h.cur ==> #[trigger] final(self).trials@[k] == old(self).trials@[k],
            forall|k: int|
                r < k < MAX_NUM_TRIALS ==> #[trigger] final(self).trials@[k] == old(self).trials@[k],
            final(self).trials@[h.cur + 1].price <= h.next_price,
            h.rep0_hit ==> final(self).trials@[h.cur + 1].price <= sat_price(
                h.rep_match_price as int,
                shortrep_price(probs@, h.state, h.ps as int),
            ) || final(self).trials@[h.cur + 1].dis4 == 0 || final(self).trials@[h.cur
                + 1].prev_index2 != SINGLE_STEP,
            ({
                let len = literal_rep0_len(
                    mb.data(),
                    mb.dictionary_size(),
                    mb.data_position() as int,
                    old(self).match_len_limit as int,
                    *h,
                );
                if h.triable >= 2 && !h.rep0_hit && final(self).trials@[h.cur + 1].prev_index
                    != h.cur && len >= 2 {
                    &&& r == if num_trials < h.cur + 1 + len {
                        h.cur + 1 + len
                    } else {
                        num_trials as int
                    }
                    &&& final(self).trials@[h.cur + 1 + len].price <= literal_rep0_price(
                        probs@,
                        old(self).rep_len_prices.table(),
                        *h,
                        len as int,
                    )
                } else {
                    r == num_trials
                }
            }),
    {
        let avail: usize = mb.available_bytes();
        let ghost t0 = self.trials@;
        self.tr_update(h.cur + 1, h.next_price, LITERAL_STEP, h.cur);
        let mut next: Trial = self.trial(h.cur + 1);
        if h.rep0_hit && next.dis4 != 0 && next.prev_index2 == SINGLE_STEP {
            let price: u32 = add_price(
                h.rep_match_price,
                self.price_shortrep(probs, h.state, h.ps),
            );
            if price <= next.price {
                next.price = price;
                next.dis4 = 0;
                next.prev_index = h.cur;
                self.set_trial(h.cur + 1, next);
            }
        }
        let ghost t1 = self.trials@;
        proof {
            assert(forall|k: int| 0 <= k < MAX_NUM_TRIALS && k != h.cur + 1 ==> t1[k] == t0[k]);
            assert(t1[h.cur + 1].price <= t0[h.cur + 1].price);
        }
        if h.triable < 2 || h.rep0_hit || next.prev_index == h.cur {
            return num_trials;
        }
        let limit: usize = if self.match_len_limit + 1 < h.triable {
            self.match_len_limit + 1
        } else {
            h.triable
        };
        let len: usize = reach_len(mb, h.cur + 1, distance_of(h.reps.rep0), limit - 1);
        if len < 2 {
            return num_trials;
        }
        let ps2: usize = (h.ps + 1) % 4;
        let state2: u32 = set_char(h.state);
        let price: u32 = add_price(
            h.next_price,
            add_price(
                self.price_match_bit(probs, state2, ps2, true) + self.price_rep_bit(
                    probs,
                    state2,
                    true,
                ),
                self.price_rep0_len(probs, len, state2, ps2),
            ),
        );
        let n: usize = self.grow(num_trials, h.cur + 1 + len);
        let ghost t2 = self.trials@;
        self.tr_update2(h.cur + 1 + len, price, h.cur + 1);
        proof {
            let t3 = self.trials@;
            assert(forall|k: int| 0 <= k <= num_trials ==> t2[k] == t1[k]);
            assert(forall|k: int|
                0 <= k < MAX_NUM_TRIALS && k != h.cur + 1 + len ==> t3[k] == t2[k]);
            assert(t3[h.cur + 1 + len].price <= t2[h.cur + 1 + len].price);
            assert(t3[h.cur + 1 + len].price <= price);
        }
        n
    }

    /// The price of a literal that follows a match or a repeat of length
    /// `len` from `h`, and of a repeat of `n2` bytes of the last distance
    /// after it; `d` is the distance of the match.
    fn price_tail(
        &self,
        mb: &MatchfinderBase,
        probs: &Vec<u32>,
        h: &Here,
        state2: u32,
        len: usize,
        d: usize,
        n2: usize,
    ) -> (r: u32)
        requires
            self.tied(mb),
            valid_probs(probs@),
            probs@.len() == NUM_MODELS,
            h.ok(mb.ahead().len() as int, self.match_len_limit as int),
            state2 < STATES,
            1 <= len,
            h.cur + len < mb.ahead().len(),
            1 <= d <= mb.data_position() + h.cur,
            d <= mb.dictionary_size(),
            MIN_MATCH_LEN <= n2 <= MAX_MATCH_LEN,
        ensures
            r == tail_price(
                probs@,
                self.rep_len_prices.table(),
                mb.data(),
                mb.data_position() + h.cur + len,
                (h.ps + len % 4) % 4,
                state2,
                d as int,
                n2 as int,
            ),
    {
        let avail: usize = mb.available_bytes();
        proof {
            mb.lemma_wf();
        }
        let at: usize = h.cur + len;
        let ps2: usize = (h.ps + len % 4) % 4;
        let base: usize = BM_LITERAL + (mb.byte_at(at, 1) / 32) as usize * LITERAL_GROUP;
        let lit: u32 = self.pp.price_matched(probs, base, mb.byte_at(at, 0), mb.byte_at(at, d));
        let ps3: usize = (ps2 + 1) % 4;
        let state3: u32 = set_char(state2);
        let first: u32 = self.price_match_bit(probs, state2, ps2, false) + lit;
        let second: u32 = self.price_match_bit(probs, state3, ps3, true) + self.price_rep_bit(
            probs,
            state3,
            true,
        );
        add_price(first + second, self.price_rep0_len(probs, n2, state3, ps3))
    }

    /// Weighs, from the position `h`, a repeat of each of the four last
    /// distances, of every length, and the longest of each followed by a
    /// literal and a repeat of the last distance. Yields the number of the
    /// last trial that can be reached, and the shortest length at which a
    /// match is worth trying.
    fn try_reps(
        &mut self,
        mb: &MatchfinderBase,
        probs: &Vec<u32>,
        h: &Here,
        num_trials: usize,
    ) -> (r: (usize, usize))
        requires
            old(self).tied(mb),
            valid_probs(probs@),
            probs@.len() == NUM_MODELS,
            h.ok(mb.ahead().len() as int, old(self).match_len_limit as int),
            h.triable >= 2,
            num_trials < MAX_NUM_TRIALS,
            num_trials <= mb.ahead().len(),
        ensures
            final(self).parts_wf(),
            final(self).frame(*old(self)),
            num_trials <= r.0 < MAX_NUM_TRIALS,
            r.0 <= mb.ahead().len(),
            2 <= r.1 <= h.len_limit + 1,
    {
        let avail: usize = mb.available_bytes();
        let mut n: usize = num_trials;
        let mut start_len: usize = 2;
        let mut rep: usize = 0;
        while rep < 4
            invariant
                self.tied(mb),
                self.frame(*old(self)),
                valid_probs(probs@),
                probs@.len() == NUM_MODELS,
                h.ok(avail as int, self.match_len_limit as int),
                avail == mb.ahead().len(),
                h.triable >= 2,
                rep <= 4,
                num_trials <= n < MAX_NUM_TRIALS,
                n <= avail,
                2 <= start_len <= h.len_limit + 1,
            decreases 4 - rep,
        {
            let d: usize = distance_of(rep_at(h.reps, rep));
            let len: usize = reach_len(mb, h.cur, d, h.len_limit);
            if len >= 2 {
                n = self.grow(n, h.cur + len);
                let price: u32 = add_price(
                    h.rep_match_price,
                    self.price_rep(probs, rep, h.state, h.ps),
                );
                let mut i: usize = 2;
                while i <= len
                    invariant
                        self.tied(mb),
                        self.frame(*old(self)),
                        h.ok(avail as int, self.match_len_limit as int),
                        2 <= i <= len + 1,
                        len <= h.len_limit,
                        rep < 4,
                    decreases len + 1 - i,
                {
                    self.tr_update(
                        h.cur + i,
                        add_price(price, self.rep_len_prices.price(i, h.ps)),
                        rep as i64,
                        h.cur,
                    );
                    i = i + 1;
                }
                if rep == 0 {
                    start_len = len + 1;
                }
                let len2: usize = len + 1;
                let limit: usize = if self.match_len_limit + len2 < h.triable {
                    self.match_len_limit + len2
                } else {
                    h.triable
                };
                if len2 < limit {
                    let n2: usize = mb.match_len_at(h.cur + len2, d, limit - len2);
                    if n2 >= 2 {
                        let tail: u32 = self.price_tail(
                            mb,
                            probs,
                            h,
                            set_rep(h.state),
                            len,
                            d,
                            n2,
                        );
                        let price2: u32 = add_price(
                            add_price(price, self.rep_len_prices.price(len, h.ps)),
                            tail,
                        );
                        n = self.grow(n, h.cur + len + 1 + n2);
                        self.tr_update3(
                            h.cur + len + 1 + n2,
                            price2,
                            rep as i64,
                            h.cur + len + 1,
                            h.cur,
                        );
                    }
                }
            }
            rep = rep + 1;
        }
        (n, start_len)
    }

    /// The price of the way to the position `h` and of a match from there
    /// with the distance `dis` and the length `len`, by the tables at hand.
    pub closed spec fn match_way_price(&self, probs: Seq<u32>, h: Here, dis: u32, len: int) -> int {
        sat_price(
            sat_price(h.match_price as int, bit_price(probs[BM_REP + h.state], false)),
            self.pair_price(dis, len, h.ps as int),
        )
    }

    /// The price of the way to the position `h`, of the match `pair` from
    /// there, and of a literal and a repeat of `n2` bytes of the last
    /// distance after it.
    pub closed spec fn match_tail_price(
        &self,
        probs: Seq<u32>,
        data: Seq<u8>,
        pos: int,
        h: Here,
        pair: Pair,
        n2: int,
    ) -> int {
        sat_price(
            self.match_way_price(probs, h, pair.dis, pair.len as int),
            tail_price(
                probs,
                self.rep_len_prices.table(),
                data,
                pos + h.cur + pair.len,
                (h.ps + pair.len as int % 4) % 4,
                st_set_match(h.state),
                distance(pair.dis),
                n2,
            ),
        )
    }

    /// Weighs the way that goes from the position `h` by the match `pair`,
    /// whose price with the way to `h` is `price`, a literal, and a repeat of
    /// the last distance: where the data after the match and one more byte
    /// repeats at the distance of the match for two bytes or more, the
    /// trial after the three is made ready and is no dearer than by them.
    /// The trials up to the end of the match stay as they are, and no way
    /// found before gets dearer. Yields the number of the last trial that
    /// can be reached.
    fn try_match_tail(
        &mut self,
        mb: &MatchfinderBase,
        probs: &Vec<u32>,
        h: &Here,
        pair: Pair,
        price: u32,
        n: usize,
    ) -> (r: usize)
        requires
            old(self).tied(mb),
            valid_probs(probs@),
            probs@.len() == NUM_MODELS,
            h.ok(mb.ahead().len() as int, old(self).match_len_limit as int),
            h.triable >= 2,
            2 <= pair.len <= h.len_limit,
            n < MAX_NUM_TRIALS,
            n <= mb.ahead().len(),
            h.cur + pair.len <= n,
            price == old(self).match_way_price(probs@, *h, pair.dis, pair.len as int),
        ensures
            final(self).parts_wf(),
            final(self).frame(*old(self)),
            n <= r < MAX_NUM_TRIALS,
            r <= mb.ahead().len(),
            forall|k: int|
                0 <= k <= n ==> (#[trigger] final(self).trials@[k]).price <= old(self).trials@[k].price,
            forall|k: int|
                0 <= k <= h.cur + pair.len ==> #[trigger] final(self).trials@[k] == old(self).trials@[k],
            forall|k: int|
                r < k < MAX_NUM_TRIALS ==> #[trigger] final(self).trials@[k] == old(self).trials@[k],
            ({
                let n2 = tail_len(
                    mb.data(),
                    mb.dictionary_size(),
                    mb.data_position() as int,
                    old(self).match_len_limit as int,
                    *h,
                    pair,
                );
                n2 >= 2 && distance(pair.dis) <= mb.data_position() + h.cur ==> {
                    &&& h.cur + pair.len + 1 + n2 <= r
                    &&& final(self).trials@[h.cur + pair.len + 1 + n2].price <= old(self).match_tail_price(
                        probs@,
                        mb.data(),
                        mb.data_position() as int,
                        *h,
                        pair,
                        n2 as int,
                    )
                }
            }),
    {
        let avail: usize = mb.available_bytes();
        proof {
            mb.lemma_wf();
        }
        let len: usize = pair.len as usize;
        let d: usize = distance_of(pair.dis);
        let len2: usize = len + 1;
        let limit: usize = if self.match_len_limit + len2 < h.triable {
            self.match_len_limit + len2
        } else {
            h.triable
        };
        if len2 >= limit {
            return n;
        }
        let n2: usize = reach_len(mb, h.cur + len2, d, limit - len2);
        if n2 < 2 || d as u64 > mb.get_data_position() + h.cur as u64 {
            return n;
        }
        let tail: u32 = self.price_tail(mb, probs, h, set_match(h.state), len, d, n2);
        let r: usize = self.grow(n, h.cur + len + 1 + n2);
        let ghost td = self.trials@;
        self.tr_update3(
            h.cur + len + 1 + n2,
            add_price(price, tail),
            pair.dis as i64 + 4,
            h.cur + len + 1,
            h.cur,
        );
        proof {
            let te = self.trials@;
            assert(forall|k: int|
                0 <= k < MAX_NUM_TRIALS ==> (#[trigger] te[k]).price <= td[k].price);
            assert(forall|k: int|
                0 <= k < MAX_NUM_TRIALS && k != h.cur + len + 1 + n2 ==> #[trigger] te[k]
                    == td[k]);
        }
        r
    }

    /// Weighs, from the position `h`, the matches found there, of every
    /// length from `start_len` on, and each followed by a literal and a
    /// repeat of the last distance. Yields the number of the last trial that
    /// can be reached.
    ///
    /// No way found before gets dearer, and the ways to the position and
    /// before it stay as they are. Every trial that a match from here
    /// reaches is made ready, and is no dearer than by the match of that
    /// length with the nearest distance that gives it. Where the data after
    /// a match and one more byte repeats at the distance of the match for
    /// two bytes or more, the trial after the three is made ready and is no
    /// dearer than by them.
    #[verifier::rlimit(100)]
    fn try_matches(
        &mut self,
        mb: &MatchfinderBase,
        probs: &Vec<u32>,
        h: &Here,
        num_trials: usize,
        start_len: usize,
        newlen: usize,
    ) -> (r: usize)
        requires
            old(self).tied(mb),
            valid_probs(probs@),
            probs@.len() == NUM_MODELS,
            h.ok(mb.ahead().len() as int, old(self).match_len_limit as int),
            h.triable >= 2,
            num_trials < MAX_NUM_TRIALS,
            num_trials <= mb.ahead().len(),
            2 <= start_len <= newlen <= h.len_limit,
        ensures
            final(self).parts_wf(),
            final(self).frame(*old(self)),
            num_trials <= r < MAX_NUM_TRIALS,
            r <= mb.ahead().len(),
            h.cur + newlen <= r,
            forall|k: int|
                0 <= k <= num_trials ==> (#[trigger] final(self).trials@[k]).price <= old(self).trials@[k].price,
            forall|k: int|
                0 <= k <= h.cur && k <= num_trials ==> #[trigger] final(self).trials@[k] == old(self).trials@[k],
            forall|k: int|
                r < k < MAX_NUM_TRIALS ==> #[trigger] final(self).trials@[k] == old(self).trials@[k],
            forall|k: int, l: int|
                #[trigger] covers_len(old(self).pairs@, k, l) && start_len <= l <= newlen ==> final(self).trials@[h.cur + l].price <= old(self).match_way_price(
                    probs@,
                    *h,
                    old(self).pairs@[k].dis,
                    l,
                ),
            forall|k: int|
                0 <= k < old(self).pairs@.len() && start_len <= (#[trigger] old(self).pairs@[k]).len <= newlen ==> {
                    let pair = old(self).pairs@[k];
                    let n2 = tail_len(
                        mb.data(),
                        mb.dictionary_size(),
                        mb.data_position() as int,
                        old(self).match_len_limit as int,
                        *h,
                        pair,
                    );
                    n2 >= 2 && distance(pair.dis) <= mb.data_position() + h.cur ==> {
                        &&& h.cur + pair.len + 1 + n2 <= r
                        &&& final(self).trials@[h.cur + pair.len + 1 + n2].price <= old(self).match_tail_price(
                            probs@,
                            mb.data(),
                            mb.data_position() as int,
                            *h,
                            pair,
                            n2 as int,
                        )
                    }
                },
    {
        let avail: usize = mb.available_bytes();
        proof {
            mb.lemma_wf();
        }
        let ghost t0 = self.trials@;
        let ghost pairs = self.pairs@;
        let ghost mll = self.match_len_limit as int;
        let ghost dp = mb.data_position() as int;
        let normal: u32 = add_price(h.match_price, self.price_rep_bit(probs, h.state, false));
        let mut n: usize = self.grow(num_trials, h.cur + newlen);
        let count: usize = self.pairs.len();
        let mut i: usize = 0;
        let mut len: usize = start_len;
        while i < count && len <= newlen
            invariant
                self.tied(mb),
                self.frame(*old(self)),
                valid_probs(probs@),
                probs@.len() == NUM_MODELS,
                h.ok(avail as int, self.match_len_limit as int),
                avail == mb.ahead().len(),
                h.triable >= 2,
                count == self.pairs@.len(),
                pairs == self.pairs@,
                pairs == old(self).pairs@,
                mll == self.match_len_limit,
                dp == mb.data_position(),
                t0 == old(self).trials@,
                t0.len() == MAX_NUM_TRIALS,
                normal == sat_price(h.match_price as int, bit_price(probs@[BM_REP + h.state], false)),
                i <= count,
                2 <= start_len <= len <= newlen + 1,
                newlen <= h.len_limit,
                num_trials <= n < MAX_NUM_TRIALS,
                n <= avail,
                h.cur + newlen <= n,
                forall|j: int| 0 <= j < i ==> (#[trigger] pairs[j]).len < len,
                len == start_len || (i < count && pairs[i as int].len >= len) || (i > 0 && len
                    == pairs[i - 1].len + 1),
                forall|k: int|
                    0 <= k <= num_trials ==> (#[trigger] self.trials@[k]).price <= t0[k].price,
                forall|k: int|
                    0 <= k <= h.cur && k <= num_trials ==> #[trigger] self.trials@[k] == t0[k],
                forall|k: int| n < k < MAX_NUM_TRIALS ==> #[trigger] self.trials@[k] == t0[k],
                forall|k: int, l: int|
                    #[trigger] covers_len(pairs, k, l) && start_len <= l < len && l <= newlen
                        ==> self.trials@[h.cur + l].price <= self.match_way_price(
                        probs@,
                        *h,
                        pairs[k].dis,
                        l,
                    ),
                forall|k: int|
                    0 <= k < i && start_len <= (#[trigger] pairs[k]).len <= newlen ==> {
                        let pair = pairs[k];
                        let n2 = tail_len(mb.data(), mb.dictionary_size(), dp, mll, *h, pair);
                        n2 >= 2 && distance(pair.dis) <= dp + h.cur ==> {
                            &&& h.cur + pair.len + 1 + n2 <= n
                            &&& self.trials@[h.cur + pair.len + 1 + n2].price
                                <= self.match_tail_price(
                                probs@,
                                mb.data(),
                                dp,
                                *h,
                                pair,
                                n2 as int,
                            )
                        }
                    },
            decreases (count - i) + (newlen + 1 - len),
        {
            let pair: Pair = self.pairs[i];
            let plen: usize = pair.len as usize;
            if len > plen {
                i = i + 1;
            } else {
                let ghost ta = self.trials@;
                let price: u32 = add_price(normal, self.price_pair(pair.dis, len, h.ps));
                self.tr_update(h.cur + len, price, pair.dis as i64 + 4, h.cur);
                proof {
                    let tb = self.trials@;
                    assert(forall|k: int| 0 <= k < MAX_NUM_TRIALS ==> (#[trigger] tb[k]).price
                        <= ta[k].price);
                    assert(forall|k: int|
                        0 <= k < MAX_NUM_TRIALS && k != h.cur + len ==> #[trigger] tb[k] == ta[k]);
                    assert(price == self.match_way_price(probs@, *h, pair.dis, len as int));
                    assert forall|k: int|
                        #[trigger] covers_len(pairs, k, len as int) implies k == i by {
                        if covers_len(pairs, k, len as int) {
                            if k < i {
                                assert(pairs[k].len < len);
                            } else if k > i {
                                assert(pairs[i as int].len < pairs[k - 1].len || i == k - 1);
                            }
                        }
                    }
                }
                if len == plen {
                    n = self.try_match_tail(mb, probs, h, pair, price, n);
                    i = i + 1;
                }
                len = len + 1;
            }
        }
        n
    }

    /// Walks the cheapest way back from the trial at `cur`, and leaves in
    /// each trial on the way the operation that starts there and its length,
    /// as `walked_back` says.
    fn backward(&mut self, cur: usize)
        requires
            old(self).parts_wf(),
            cur < MAX_NUM_TRIALS,
        ensures
            final(self).parts_wf(),
            final(self).frame(*old(self)),
            final(self).trials@ == walked_back(
                old(self).trials@,
                cur as int,
                old(self).trials@[cur as int].dis4,
            ),
    {
        let ghost cur0 = cur;
        let ghost dis0 = self.trials@[cur as int].dis4;
        let mut cur: usize = cur;
        let mut dis4: i64 = self.trial(cur).dis4;
        while cur > 0
            invariant
                self.parts_wf(),
                self.frame(*old(self)),
                cur < MAX_NUM_TRIALS,
                walked_back(self.trials@, cur as int, dis4) == walked_back(
                    old(self).trials@,
                    cur0 as int,
                    dis0,
                ),
            decreases cur,
        {
            let ghost before = self.trials@;
            let ghost carried = dis4;
            let t: Trial = self.trial(cur);
            let prev_index: usize = if t.prev_index < cur {
                t.prev_index
            } else {
                cur - 1
            };
            let mut prev: Trial = self.trial(prev_index);
            if t.prev_index2 != SINGLE_STEP {
                prev.dis4 = LITERAL_STEP;
                prev.prev_index = if prev_index > 0 {
                    prev_index - 1
                } else {
                    0
                };
                prev.prev_index2 = SINGLE_STEP;
                if t.prev_index2 >= 0 && prev_index > 0 {
                    let mut prev2: Trial = self.trial(prev_index - 1);
                    prev2.dis4 = dis4;
                    dis4 = 0;
                    prev2.prev_index = t.prev_index2 as usize;
                    prev2.prev_index2 = SINGLE_STEP;
                    self.set_trial(prev_index - 1, prev2);
                }
            }
            prev.price = (cur - prev_index) as u32;
            let step: i64 = dis4;
            dis4 = prev.dis4;
            prev.dis4 = step;
            self.set_trial(prev_index, prev);
            proof {
                let s = back_step(before, cur as int, carried);
                assert(back_index(before[cur as int], cur as int) == prev_index);
                assert(self.trials@ =~= s.0);
                assert(dis4 == s.1);
            }
            cur = prev_index;
        }
    }

    /// Makes the plan of the first `cur` bytes from the trials, once the way
    /// was walked back.
    fn make_plan(&mut self, mb: &MatchfinderBase, cur: usize)
        requires
            old(self).tied(mb),
            cur <= mb.ahead().len(),
            cur < MAX_NUM_TRIALS,
        ensures
            final(self).tied(mb),
            final(self).scan == old(self).scan,
            final(self).pending == old(self).pending,
            final(self).price_counter == old(self).price_counter,
            final(self).plan_pos == 0,
            cur > 0 ==> final(self).plan@.len() > 0,
    {
        let avail: usize = mb.available_bytes();
        self.plan.clear();
        self.plan_pos = 0;
        let mut i: usize = 0;
        while i < cur
            invariant
                self.tied(mb),
                self.scan == old(self).scan,
                self.pending == old(self).pending,
                self.price_counter == old(self).price_counter,
                self.plan_pos == 0,
                i <= cur <= avail,
                avail == mb.ahead().len(),
                cur < MAX_NUM_TRIALS,
                i > 0 ==> self.plan@.len() > 0,
            decreases cur - i,
        {
            let t: Trial = self.trial(i);
            let len: usize = t.price as usize;
            let op: Op = if t.dis4 < 0 || len == 0 {
                Op::Literal { byte: mb.byte_at(i, 0) }
            } else if t.dis4 < 4 {
                if len == 1 {
                    Op::ShortRep
                } else {
                    Op::Rep { index: t.dis4 as u32, len: t.price }
                }
            } else {
                Op::Match { dis: ((t.dis4 - 4) % 0x1_0000_0000) as u32, len: t.price }
            };
            self.plan.push(op);
            i = if len == 0 {
                i + 1
            } else if len > cur - i {
                cur
            } else {
                i + len
            };
        }
    }

    /// Looks ahead from the position of the window, where the coding state
    /// is `state` and the four last distances are `reps`, and makes the plan
    /// of the next operations.
    fn optimize(&mut self, mb: &MatchfinderBase, probs: &Vec<u32>, state: u32, reps: Reps)
        requires
            old(self).tied(mb),
            old(self).scan <= 1,
            valid_probs(probs@),
            probs@.len() == NUM_MODELS,
            state < STATES,
            mb.ahead().len() >= 1,
        ensures
            final(self).tied(mb),
            final(self).plan_pos == 0,
            final(self).plan@.len() > 0,
            final(self).price_counter == old(self).price_counter,
    {
        let avail: usize = mb.available_bytes();
        let mll: usize = self.match_len_limit;
        self.plan.clear();
        self.plan_pos = 0;
        let mut newlen: usize = 0;
        if self.scan == 0 {
            newlen = self.read_match_distances(mb, 0);
        } else if self.pending {
            let n: usize = self.pairs.len();
            if n > 0 {
                let l: usize = self.pairs[n - 1].len as usize;
                if 2 <= l && l <= avail && l <= MAX_MATCH_LEN as usize {
                    newlen = l;
                }
            }
        }
        if newlen == 0 {
            self.pairs.clear();
        }
        self.pending = false;
        let cap: usize = if avail < MAX_MATCH_LEN as usize {
            avail
        } else {
            MAX_MATCH_LEN as usize
        };
        let mut rep_len: usize = 0;
        let mut rep_index: usize = 0;
        let mut rep: usize = 0;
        while rep < 4
            invariant
                mb.wf(),
                rep <= 4,
                rep_index < 4,
                rep_len <= cap,
                cap <= mb.ahead().len(),
            decreases 4 - rep,
        {
            let l: usize = reach_len(mb, 0, distance_of(rep_at(reps, rep)), cap);
            if l > rep_len {
                rep_len = l;
                rep_index = rep;
            }
            rep = rep + 1;
        }
        if rep_len >= mll {
            self.plan.push(Op::Rep { index: rep_index as u32, len: rep_len as u32 });
            return ;
        }
        if newlen >= mll {
            let n: usize = self.pairs.len();
            let dis: u32 = if n > 0 {
                self.pairs[n - 1].dis
            } else {
                0
            };
            self.plan.push(Op::Match { dis, len: newlen as u32 });
            return ;
        }
        self.set_trial(
            0,
            Trial {
                state,
                price: 0,
                dis4: LITERAL_STEP,
                prev_index: 0,
                prev_index2: SINGLE_STEP,
                reps,
            },
        );
        let mut num_trials: usize = self.grow(0, 1);
        let mut cur: usize = 0;
        loop
            invariant
                self.tied(mb),
                valid_probs(probs@),
                probs@.len() == NUM_MODELS,
                avail == mb.ahead().len(),
                mll == self.match_len_limit,
                self.price_counter == old(self).price_counter,
                self.scan == cur + 1,
                self.plan_pos == 0,
                !self.pending,
                cur < num_trials < MAX_NUM_TRIALS,
                num_trials <= avail,
                newlen <= avail - cur,
                newlen <= MAX_MATCH_LEN,
            decreases MAX_NUM_TRIALS - cur,
        {
            let h: Here = self.settle(mb, probs, cur);
            num_trials = self.try_literal(mb, probs, &h, num_trials);
            if h.triable >= 2 {
                let (n, start_len) = self.try_reps(mb, probs, &h, num_trials);
                num_trials = n;
                if start_len <= newlen && newlen <= h.len_limit {
                    num_trials = self.try_matches(mb, probs, &h, num_trials, start_len, newlen);
                }
            }
            cur = cur + 1;
            if cur >= num_trials {
                self.backward(cur);
                self.make_plan(mb, cur);
                return ;
            }
            newlen = self.read_match_distances(mb, cur);
            if newlen >= mll {
                self.pending = true;
                self.backward(cur);
                self.make_plan(mb, cur);
                return ;
            }
        }
    }

    /// The plan: the operations proposed for the bytes ahead.
    pub closed spec fn plan(&self) -> Seq<Op> {
        self.plan@
    }

    /// How many operations of the plan were handed out.
    pub closed spec fn plan_pos(&self) -> nat {
        self.plan_pos as nat
    }

    /// Number of bytes still to be encoded before the prices are set anew.
    pub closed spec fn price_counter(&self) -> nat {
        self.price_counter as nat
    }

    /// Whether positions ahead are filed and their matches were not kept, as
    /// after a plan was given up: no plan can be made from where the window
    /// is.
    pub closed spec fn lagging(&self) -> bool {
        self.scan > 1 || (self.scan == 1 && !self.pending)
    }

    /// Counts `n` bytes encoded towards the time when the prices are set
    /// anew.
    pub(crate) fn count(&mut self, n: usize)
        requires
            old(self).parts_wf(),
        ensures
            final(self).parts_wf(),
            final(self).dictionary_size() == old(self).dictionary_size(),
            final(self).filed() == old(self).filed(),
            final(self).scan() == old(self).scan(),
            final(self).planned() == old(self).planned(),
            final(self).plan() == old(self).plan(),
            final(self).plan_pos() == old(self).plan_pos(),
            final(self).lagging() == old(self).lagging(),
            final(self).price_counter() == if old(self).price_counter() > n {
                old(self).price_counter() - n
            } else {
                0
            },
    {
        self.price_counter = if self.price_counter > n {
            self.price_counter - n
        } else {
            0
        };
    }

    /// The operation to encode next: the next of the plan, which is then
    /// handed out. With no plan at hand, one is made first, and its first
    /// operation is handed out; but where positions ahead are filed and
    /// their matches were not kept, the operation is the literal of the next
    /// byte, and nothing changes. What is handed out is a proposal: it is
    /// for the caller to hold it against the data.
    pub(crate) fn next_op(&mut self, mb: &MatchfinderBase, probs: &Vec<u32>, state: u32, reps: Reps) -> (op:
        Op)
        requires
            mb.wf(),
            old(self).wf(
                mb.dictionary_size(),
                mb.data_position() as int,
                mb.ahead().len() as int,
            ),
            valid_probs(probs@),
            probs@.len() == NUM_MODELS,
            state < STATES,
            mb.ahead().len() >= 1,
        ensures
            final(self).wf(
                mb.dictionary_size(),
                mb.data_position() as int,
                mb.ahead().len() as int,
            ),
            old(self).planned() > 0 ==> {
                &&& op == old(self).plan()[old(self).plan_pos() as int]
                &&& final(self).plan() == old(self).plan()
                &&& final(self).plan_pos() == old(self).plan_pos() + 1
                &&& final(self).scan() == old(self).scan()
                &&& final(self).lagging() == old(self).lagging()
                &&& final(self).price_counter() == old(self).price_counter()
            },
            old(self).planned() == 0 && old(self).lagging() ==> {
                &&& op == (Op::Literal { byte: mb.data()[mb.data_position() as int] })
                &&& final(self).planned() == 0
                &&& final(self).scan() == old(self).scan()
                &&& final(self).lagging()
                &&& final(self).price_counter() == old(self).price_counter()
            },
            old(self).planned() == 0 && !old(self).lagging() ==> {
                &&& final(self).plan().len() > 0
                &&& final(self).plan_pos() == 1
                &&& op == final(self).plan()[0]
                &&& final(self).price_counter() == if old(self).price_counter() == 0 {
                    PRICE_COUNT as nat
                } else {
                    old(self).price_counter()
                }
            },
    {
        if self.plan_pos >= self.plan.len() {
            if self.scan > 1 || (self.scan == 1 && !self.pending) {
                return Op::Literal { byte: mb.byte_at(0, 0) };
            }
            if self.price_counter == 0 {
                self.update_prices(probs);
            }
            self.optimize(mb, probs, state, reps);
        }
        let op: Op = self.plan[self.plan_pos];
        self.plan_pos = self.plan_pos + 1;
        op
    }
}

} // verus!
