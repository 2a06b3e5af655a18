//! What it costs to code a bit: the prices by which the optimizing encoder
//! weighs one way of coding the data against another.
//!
//! The price of a bit coded with probability `p` stands for `-log2(p)`, in
//! units of a sixty-fourth of a bit of output. It is read from a table of 512
//! entries, which holds the logarithm interpolated between powers of two.

use vstd::prelude::*;
use crate::bit_model::{valid_prob, valid_probs};

verus! {

/// Number of bits behind the binary point of a price.
pub const PRICE_SHIFT_BITS: u32 = 6;

/// The price of one bit of output.
pub const BIT_PRICE: u32 = 64;

/// The highest price of a coded bit.
pub const MAX_BIT_PRICE: u32 = 576;

/// A price above that of any way of coding.
pub const INFINITE_PRICE: u32 = 0x0FFF_FFFF;

/// Number of entries of the table of prices.
pub const PRICE_TABLE_SIZE: usize = 512;

/// The power of two at or below `j`, an entry's place in the table, and its
/// exponent; `j` is below 512.
pub open spec fn price_level(j: int) -> (int, int) {
    if j < 2 {
        (0, 1)
    } else if j < 4 {
        (1, 2)
    } else if j < 8 {
        (2, 4)
    } else if j < 16 {
        (3, 8)
    } else if j < 32 {
        (4, 16)
    } else if j < 64 {
        (5, 32)
    } else if j < 128 {
        (6, 64)
    } else if j < 256 {
        (7, 128)
    } else {
        (8, 256)
    }
}

/// The price of a bit whose probability, in 512ths, is `j`: for each halving
/// of the probability one bit, and between two powers of two in proportion.
pub open spec fn prob_price(j: int) -> int {
    if j <= 0 {
        MAX_BIT_PRICE as int
    } else {
        let level = price_level(j);
        (8 - level.0) * 64 + ((2 * level.1 - j) * 64) / level.1
    }
}

/// The price of coding `bit` with a model that holds `prob`.
pub open spec fn bit_price(prob: u32, bit: bool) -> int {
    if bit {
        prob_price((2048 - prob) / 4)
    } else {
        prob_price(prob as int / 4)
    }
}

/// The price of coding `sym` through a bit tree from the node `m` down, the
/// bit at `mask` first: the sum of the prices of the bits on the way.
pub open spec fn tree_price(probs: Seq<u32>, base: int, m: int, mask: int, sym: int) -> int
    decreases mask,
{
    if mask <= 0 {
        0
    } else {
        let bit = (sym / mask) % 2 == 1;
        bit_price(probs[base + m], bit) + tree_price(
            probs,
            base,
            2 * m + if bit {
                1int
            } else {
                0int
            },
            mask / 2,
            sym,
        )
    }
}

/// The same with the lowest bit of `sym` first, for as many bits as `mask`
/// has places.
pub open spec fn reversed_price(probs: Seq<u32>, base: int, m: int, mask: int, sym: int) -> int
    decreases mask,
{
    if mask <= 0 {
        0
    } else {
        let bit = sym % 2 == 1;
        bit_price(probs[base + m], bit) + reversed_price(
            probs,
            base,
            2 * m + if bit {
                1int
            } else {
                0int
            },
            mask / 2,
            sym / 2,
        )
    }
}

/// The price of coding the bits of the byte `sym`, the highest first, as
/// those of a literal that follows a match: while the bits so far agree with
/// those of `mb`, the model is chosen by the next bit of `mb` as well as by
/// the node.
pub open spec fn matched_price(
    probs: Seq<u32>,
    base: int,
    m: int,
    mask: int,
    sym: int,
    mb: int,
    matching: bool,
) -> int
    decreases mask,
{
    if mask <= 0 {
        0
    } else {
        let match_bit = mb / 128;
        let b = sym / 128;
        let idx = if matching {
            base + 0x100 + 0x100 * match_bit + m
        } else {
            base + m
        };
        bit_price(probs[idx], b == 1) + matched_price(
            probs,
            base,
            2 * m + b,
            mask / 2,
            (sym % 128) * 2,
            (mb % 128) * 2,
            matching && b == match_bit,
        )
    }
}

/// No price of a bit is above the highest.
pub proof fn lemma_prob_price(j: int)
    requires
        0 <= j < 512,
    ensures
        0 <= prob_price(j) <= MAX_BIT_PRICE,
{
}

/// The sum of two prices; it stops at the largest 32-bit value.
pub fn add_price(a: u32, b: u32) -> (r: u32)
    ensures
        r == if a + b > u32::MAX {
            u32::MAX as int
        } else {
            a + b
        },
{
    a.saturating_add(b)
}

/// The table of the prices of a bit.
pub struct ProbPrices {
    table: Vec<u32>,
}

impl ProbPrices {
    /// Each entry holds the price of its place.
    pub closed spec fn wf(&self) -> bool {
        &&& self.table@.len() == PRICE_TABLE_SIZE
        &&& forall|j: int| 0 <= j < PRICE_TABLE_SIZE ==> #[trigger] self.table@[j] == prob_price(j)
    }

    /// The table.
    pub fn new() -> (p: ProbPrices)
        ensures
            p.wf(),
    {
        let mut table: Vec<u32> = vec![MAX_BIT_PRICE; PRICE_TABLE_SIZE];
        let mut j: usize = 1;
        while j < PRICE_TABLE_SIZE
            invariant
                1 <= j <= PRICE_TABLE_SIZE,
                table@.len() == PRICE_TABLE_SIZE,
                table@[0] == MAX_BIT_PRICE,
                forall|i: int| 1 <= i < j ==> #[trigger] table@[i] == prob_price(i),
            decreases PRICE_TABLE_SIZE - j,
        {
            let (k, start): (u32, usize) = if j < 2 {
                (0, 1)
            } else if j < 4 {
                (1, 2)
            } else if j < 8 {
                (2, 4)
            } else if j < 16 {
                (3, 8)
            } else if j < 32 {
                (4, 16)
            } else if j < 64 {
                (5, 32)
            } else if j < 128 {
                (6, 64)
            } else if j < 256 {
                (7, 128)
            } else {
                (8, 256)
            };
            table[j] = (8 - k) * 64 + (((2 * start - j) * 64) / start) as u32;
            j = j + 1;
        }
        ProbPrices { table }
    }

    /// The price of coding a 0 with a model that holds `prob`.
    pub fn price0(&self, prob: u32) -> (r: u32)
        requires
            self.wf(),
            valid_prob(prob),
        ensures
            r == bit_price(prob, false),
            r <= MAX_BIT_PRICE,
    {
        proof {
            lemma_prob_price(prob as int / 4);
        }
        self.table[(prob / 4) as usize]
    }

    /// The price of coding a 1 with a model that holds `prob`.
    pub fn price1(&self, prob: u32) -> (r: u32)
        requires
            self.wf(),
            valid_prob(prob),
        ensures
            r == bit_price(prob, true),
            r <= MAX_BIT_PRICE,
    {
        proof {
            lemma_prob_price((2048 - prob) / 4);
        }
        self.table[((2048 - prob) / 4) as usize]
    }

    /// The price of coding `bit` with a model that holds `prob`.
    pub fn price_bit(&self, prob: u32, bit: bool) -> (r: u32)
        requires
            self.wf(),
            valid_prob(prob),
        ensures
            r == bit_price(prob, bit),
            r <= MAX_BIT_PRICE,
    {
        if bit {
            self.price1(prob)
        } else {
            self.price0(prob)
        }
    }

    /// The price of coding `sym` through the bit tree of `leaves` leaves at
    /// `probs[base..]`, the highest bit first: the sum of the prices of the
    /// bits on the way down the tree.
    pub fn price_symbol(&self, probs: &Vec<u32>, base: usize, leaves: usize, sym: u32) -> (r: u32)
        requires
            self.wf(),
            valid_probs(probs@),
            2 <= leaves <= 256,
            base + leaves <= probs@.len(),
        ensures
            r == tree_price(probs@, base as int, 1, leaves as int / 2, sym as int),
            r <= 128 * MAX_BIT_PRICE,
    {
        let plen: usize = probs.len();
        let mut price: u32 = 0;
        let mut mask: usize = leaves / 2;
        let mut m: usize = 1;
        while mask > 0
            invariant
                self.wf(),
                valid_probs(probs@),
                base + leaves <= probs@.len(),
                probs@.len() == plen,
                leaves <= 256,
                mask <= 128,
                price <= (128 - mask) * MAX_BIT_PRICE,
                mask > 0 ==> (m + 1) * mask <= leaves,
                m >= 1,
                price + tree_price(probs@, base as int, m as int, mask as int, sym as int)
                    == tree_price(probs@, base as int, 1, leaves as int / 2, sym as int),
            decreases mask,
        {
            assert(m + 1 <= leaves) by (nonlinear_arith)
                requires
                    (m + 1) * mask <= leaves,
                    mask >= 1,
            ;
            let bit: bool = (sym as usize / mask) % 2 == 1;
            price = price + self.price_bit(probs[base + m], bit);
            let next: usize = mask / 2;
            assert((2 * m + 2) * next <= (m + 1) * mask) by (nonlinear_arith)
                requires
                    2 * next <= mask,
                    m >= 0,
            ;
            let ghost m0 = m;
            m = 2 * m + if bit { 1usize } else { 0usize };
            assert((m + 1) * next <= leaves) by (nonlinear_arith)
                requires
                    (2 * m0 + 2) * next <= leaves,
                    m <= 2 * m0 + 1,
                    next >= 0,
            ;
            mask = next;
        }
        price
    }

    /// The price of coding `sym` through the bit tree of `leaves` leaves at
    /// `probs[base..]`, the lowest bit first.
    pub fn price_symbol_reversed(
        &self,
        probs: &Vec<u32>,
        base: usize,
        leaves: usize,
        sym: u32,
    ) -> (r: u32)
        requires
            self.wf(),
            valid_probs(probs@),
            2 <= leaves <= 256,
            base + leaves <= probs@.len(),
        ensures
            r == reversed_price(probs@, base as int, 1, leaves as int / 2, sym as int),
            r <= 128 * MAX_BIT_PRICE,
    {
        let plen: usize = probs.len();
        let mut price: u32 = 0;
        let mut mask: usize = leaves / 2;
        let mut m: usize = 1;
        let mut rest: u32 = sym;
        while mask > 0
            invariant
                self.wf(),
                valid_probs(probs@),
                base + leaves <= probs@.len(),
                probs@.len() == plen,
                leaves <= 256,
                mask <= 128,
                price <= (128 - mask) * MAX_BIT_PRICE,
                mask > 0 ==> (m + 1) * mask <= leaves,
                m >= 1,
                price + reversed_price(probs@, base as int, m as int, mask as int, rest as int)
                    == reversed_price(probs@, base as int, 1, leaves as int / 2, sym as int),
            decreases mask,
        {
            assert(m + 1 <= leaves) by (nonlinear_arith)
                requires
                    (m + 1) * mask <= leaves,
                    mask >= 1,
            ;
            let bit: bool = rest % 2 == 1;
            rest = rest / 2;
            price = price + self.price_bit(probs[base + m], bit);
            let next: usize = mask / 2;
            assert((2 * m + 2) * next <= (m + 1) * mask) by (nonlinear_arith)
                requires
                    2 * next <= mask,
                    m >= 0,
            ;
            let ghost m0 = m;
            m = 2 * m + if bit { 1usize } else { 0usize };
            assert((m + 1) * next <= leaves) by (nonlinear_arith)
                requires
                    (2 * m0 + 2) * next <= leaves,
                    m <= 2 * m0 + 1,
                    next >= 0,
            ;
            mask = next;
        }
        price
    }

    /// The price of coding the byte `sym` as a literal that follows a match,
    /// through the 768 models at `probs[base..]`; `match_byte` is the byte
    /// that the last distance points at.
    pub fn price_matched(&self, probs: &Vec<u32>, base: usize, sym: u8, match_byte: u8) -> (r:
        u32)
        requires
            self.wf(),
            valid_probs(probs@),
            base + 0x300 <= probs@.len(),
        ensures
            r == matched_price(probs@, base as int, 1, 128, sym as int, match_byte as int, true),
            r <= 128 * MAX_BIT_PRICE,
    {
        let plen: usize = probs.len();
        let mut price: u32 = 0;
        let mut m: usize = 1;
        let mut mask: usize = 128;
        let mut s: u32 = sym as u32;
        let mut mb: u32 = match_byte as u32;
        let mut matching: bool = true;
        while mask > 0
            invariant
                self.wf(),
                valid_probs(probs@),
                base + 0x300 <= probs@.len(),
                probs@.len() == plen,
                mask <= 128,
                price <= (128 - mask) * MAX_BIT_PRICE,
                s < 256,
                mb < 256,
                m >= 1,
                mask > 0 ==> (m + 1) * mask <= 256,
                price + matched_price(
                    probs@,
                    base as int,
                    m as int,
                    mask as int,
                    s as int,
                    mb as int,
                    matching,
                ) == matched_price(
                    probs@,
                    base as int,
                    1,
                    128,
                    sym as int,
                    match_byte as int,
                    true,
                ),
            decreases mask,
        {
            assert(m + 1 <= 256) by (nonlinear_arith)
                requires
                    (m + 1) * mask <= 256,
                    mask >= 1,
            ;
            let match_bit: usize = (mb / 128) as usize;
            let b: usize = (s / 128) as usize;
            let bit: bool = b == 1;
            let idx: usize = if matching {
                base + 0x100 + 0x100 * match_bit + m
            } else {
                base + m
            };
            price = price + self.price_bit(probs[idx], bit);
            let next: usize = mask / 2;
            assert((2 * m + 2) * next <= (m + 1) * mask) by (nonlinear_arith)
                requires
                    2 * next <= mask,
                    m >= 0,
            ;
            let ghost m0 = m;
            m = 2 * m + b;
            assert((m + 1) * next <= 256) by (nonlinear_arith)
                requires
                    (2 * m0 + 2) * next <= 256,
                    m <= 2 * m0 + 1,
                    next >= 0,
            ;
            matching = matching && b == match_bit;
            s = (s % 128) * 2;
            mb = (mb % 128) * 2;
            mask = next;
        }
        price
    }
}

} // verus!
