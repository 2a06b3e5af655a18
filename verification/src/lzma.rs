//! What the encoder and the decoder share of the LZMA layer: the limits of
//! the format, the layout of the probability models, the coding state, and
//! the meaning of an operation as a change of the decoded data.

use vstd::prelude::*;

verus! {

/// Smallest exponent of a dictionary size.
pub const MIN_DICTIONARY_BITS: u32 = 12;

/// Smallest dictionary size, `2^12`.
pub const MIN_DICTIONARY_SIZE: u32 = 0x1000;

/// Largest exponent of a dictionary size.
pub const MAX_DICTIONARY_BITS: u32 = 29;

/// Largest dictionary size, `2^29`.
pub const MAX_DICTIONARY_SIZE: u32 = 0x2000_0000;

/// Shortest match.
pub const MIN_MATCH_LEN: u32 = 2;

/// Longest match.
pub const MAX_MATCH_LEN: u32 = 273;

/// Smallest limit an encoder may put on the length of a match.
pub const MIN_MATCH_LEN_LIMIT: u32 = 5;

/// Number of coding states.
pub const STATES: u32 = 12;

/// Number of position states: the position modulo this selects models.
pub const POS_STATES: u32 = 4;

/// Number of length classes that select a tree of distance slots.
pub const LEN_STATES: u32 = 4;

/// Number of distance slots.
pub const DIS_SLOTS: u32 = 64;

/// First distance slot whose distances have extra bits.
pub const START_DIS_MODEL: u32 = 4;

/// First distance slot whose extra bits are coded without a model, but for
/// the lowest four.
pub const END_DIS_MODEL: u32 = 14;

/// Number of extra bits that always go through a model.
pub const DIS_ALIGN_BITS: u32 = 4;

/// Number of lengths in the low and in the middle class.
pub const LEN_LOW_SYMBOLS: u32 = 8;

/// Number of lengths in the high class.
pub const LEN_HIGH_SYMBOLS: u32 = 256;

/// The distance that marks the end of a member's payload.
pub const MARKER_DISTANCE: u32 = 0xFFFF_FFFF;

/// Models of the literals: 8 groups, chosen by the previous byte, of 768.
pub const BM_LITERAL: usize = 0;

/// Number of models of one group of literals.
pub const LITERAL_GROUP: usize = 0x300;

/// Models that tell a literal from a match: one per state and position state.
pub const BM_MATCH: usize = 6144;

/// Models that tell a new match from a repeated one: one per state.
pub const BM_REP: usize = 6192;

/// Models that tell the last distance from the older three: one per state.
pub const BM_REP0: usize = 6204;

/// Models that tell the second last distance from the older two.
pub const BM_REP1: usize = 6216;

/// Models that tell the third last distance from the fourth last.
pub const BM_REP2: usize = 6228;

/// Models that tell a one-byte repeat from a longer one.
pub const BM_LEN: usize = 6240;

/// Bit trees of the distance slots: one per length class, of 64.
pub const BM_DIS_SLOT: usize = 6288;

/// Reversed bit trees of the extra bits of slots 4 to 13.
pub const BM_DIS: usize = 6544;

/// Reversed bit tree of the lowest four bits of the larger distances.
pub const BM_ALIGN: usize = 6659;

/// The length model of new matches.
pub const MATCH_LEN_MODEL: usize = 6675;

/// The length model of repeated matches.
pub const REP_LEN_MODEL: usize = 6997;

/// Number of probability models in all.
pub const NUM_MODELS: usize = 7319;

/// Within a length model: the model that tells the low class from the rest.
pub const LM_CHOICE1: usize = 0;

/// Within a length model: the model that tells the middle class from the high.
pub const LM_CHOICE2: usize = 1;

/// Within a length model: the trees of the low class, one per position state.
pub const LM_LOW: usize = 2;

/// Within a length model: the trees of the middle class.
pub const LM_MID: usize = 34;

/// Within a length model: the tree of the high class.
pub const LM_HIGH: usize = 66;

/// One coded operation.
#[derive(Clone, Copy, Debug, PartialEq, Eq, Structural)]
pub enum Op {
    /// One byte, given as it is.
    Literal { byte: u8 },
    /// One byte, copied from the last distance.
    ShortRep,
    /// `len` bytes copied from one of the four last distances, which becomes
    /// the last.
    Rep { index: u32, len: u32 },
    /// `len` bytes copied from `dis + 1` bytes back.
    Match { dis: u32, len: u32 },
}

impl Op {
    /// The fields are within what the code can express.
    pub open spec fn wf(self) -> bool {
        match self {
            Op::Literal { byte } => true,
            Op::ShortRep => true,
            Op::Rep { index, len } => index < 4 && MIN_MATCH_LEN <= len <= MAX_MATCH_LEN,
            Op::Match { dis, len } => MIN_MATCH_LEN <= len <= MAX_MATCH_LEN,
        }
    }

    /// Number of bytes the operation stands for.
    pub open spec fn out_len(self) -> nat {
        match self {
            Op::Literal { byte } => 1,
            Op::ShortRep => 1,
            Op::Rep { index, len } => len as nat,
            Op::Match { dis, len } => len as nat,
        }
    }

    /// Whether the operation is a match to the marker distance.
    pub open spec fn is_marker(self) -> bool {
        self matches Op::Match { dis, len } && dis == MARKER_DISTANCE
    }
}

/// What of the decoded data selects the models of the next operation.
#[derive(Clone, Copy, Debug)]
pub struct Context {
    /// The coding state, below 12.
    pub state: u32,
    /// The position modulo 4.
    pub pos_state: u32,
    /// The last byte; 0 at the start.
    pub prev_byte: u8,
    /// The byte at the last distance; only looked at after a match.
    pub match_byte: u8,
}

impl Context {
    /// The state and the position state are within bounds.
    pub open spec fn wf(self) -> bool {
        self.state < STATES && self.pos_state < POS_STATES
    }
}

/// Whether the last operation was a literal.
pub open spec fn st_is_char(st: u32) -> bool {
    st < 7
}

/// The state after a literal.
pub open spec fn st_set_char(st: u32) -> u32 {
    if st < 4 {
        0
    } else if st < 10 {
        (st - 3) as u32
    } else {
        (st - 6) as u32
    }
}

/// The state after a match.
pub open spec fn st_set_match(st: u32) -> u32 {
    if st < 7 {
        7
    } else {
        10
    }
}

/// The state after a repeated match.
pub open spec fn st_set_rep(st: u32) -> u32 {
    if st < 7 {
        8
    } else {
        11
    }
}

/// The state after a one-byte repeat.
pub open spec fn st_set_short_rep(st: u32) -> u32 {
    if st < 7 {
        9
    } else {
        11
    }
}

/// The state after `op`.
pub open spec fn st_next(st: u32, op: Op) -> u32 {
    match op {
        Op::Literal { byte } => st_set_char(st),
        Op::ShortRep => st_set_short_rep(st),
        Op::Rep { index, len } => st_set_rep(st),
        Op::Match { dis, len } => st_set_match(st),
    }
}

/// The state after `op`.
pub fn next_state(st: u32, op: Op) -> (r: u32)
    requires
        st < STATES,
    ensures
        r == st_next(st, op),
        r < STATES,
{
    match op {
        Op::Literal { byte } => {
            if st < 4 {
                0
            } else if st < 10 {
                st - 3
            } else {
                st - 6
            }
        },
        Op::ShortRep => {
            if st < 7 {
                9
            } else {
                11
            }
        },
        Op::Rep { index, len } => {
            if st < 7 {
                8
            } else {
                11
            }
        },
        Op::Match { dis, len } => {
            if st < 7 {
                7
            } else {
                10
            }
        },
    }
}

/// The length class that selects the tree of distance slots.
pub open spec fn len_state(len: int) -> int {
    if len - MIN_MATCH_LEN < LEN_STATES - 1 {
        len - MIN_MATCH_LEN
    } else {
        LEN_STATES - 1
    }
}

/// The four last distances.
#[derive(Clone, Copy, Debug)]
pub struct Reps {
    pub rep0: u32,
    pub rep1: u32,
    pub rep2: u32,
    pub rep3: u32,
}

impl Reps {
    /// The distance with the given index.
    pub open spec fn get(self, index: u32) -> u32 {
        if index == 0 {
            self.rep0
        } else if index == 1 {
            self.rep1
        } else if index == 2 {
            self.rep2
        } else {
            self.rep3
        }
    }

    /// The distances after `op`: a match puts its distance in front, a
    /// repeated match moves the distance it names to the front.
    pub open spec fn next(self, op: Op) -> Reps {
        match op {
            Op::Literal { byte } => self,
            Op::ShortRep => self,
            Op::Rep { index, len } => {
                if index == 0 {
                    self
                } else if index == 1 {
                    Reps { rep0: self.rep1, rep1: self.rep0, rep2: self.rep2, rep3: self.rep3 }
                } else if index == 2 {
                    Reps { rep0: self.rep2, rep1: self.rep0, rep2: self.rep1, rep3: self.rep3 }
                } else {
                    Reps { rep0: self.rep3, rep1: self.rep0, rep2: self.rep1, rep3: self.rep2 }
                }
            },
            Op::Match { dis, len } => Reps {
                rep0: dis,
                rep1: self.rep0,
                rep2: self.rep1,
                rep3: self.rep2,
            },
        }
    }
}

/// The decoded data between two operations, with what of its history the
/// next operation depends on.
#[verifier::ext_equal]
pub struct Lz {
    pub state: u32,
    pub reps: Reps,
    pub data: Seq<u8>,
}

/// The state at the start of a member.
pub open spec fn lz_init() -> Lz {
    Lz { state: 0, reps: Reps { rep0: 0, rep1: 0, rep2: 0, rep3: 0 }, data: Seq::empty() }
}

/// `data` with `len` more bytes, each a copy of the byte `dis + 1` back.
pub open spec fn lz_copy(data: Seq<u8>, dis: int, len: nat) -> Seq<u8>
    decreases len,
{
    if len == 0 {
        data
    } else {
        lz_copy(data.push(data[data.len() - 1 - dis]), dis, (len - 1) as nat)
    }
}

impl Lz {
    /// The state is within bounds, and after a match the last distance
    /// points into the data.
    pub open spec fn wf(self, dictionary_size: u32) -> bool {
        &&& self.state < STATES
        &&& !st_is_char(self.state) ==> self.reps.rep0 < self.data.len() && self.reps.rep0
            < dictionary_size
    }

    /// What selects the models of the next operation.
    pub open spec fn context(self) -> Context {
        Context {
            state: self.state,
            pos_state: (self.data.len() % POS_STATES as nat) as u32,
            prev_byte: if self.data.len() > 0 {
                self.data.last()
            } else {
                0
            },
            match_byte: if !st_is_char(self.state) && self.reps.rep0 < self.data.len() {
                self.data[self.data.len() - 1 - self.reps.rep0]
            } else {
                0
            },
        }
    }

    /// The distance that `op` copies from, if it copies.
    pub open spec fn distance(self, op: Op) -> u32 {
        self.reps.next(op).rep0
    }

    /// Whether `op` can follow: what it copies from lies in the data decoded
    /// so far and within the dictionary.
    pub open spec fn admits(self, op: Op, dictionary_size: u32) -> bool {
        &&& op.wf()
        &&& !(op is Literal) ==> self.distance(op) < self.data.len() && self.distance(op)
            < dictionary_size
    }

    /// The state after `op`.
    pub open spec fn apply(self, op: Op) -> Lz {
        Lz {
            state: st_next(self.state, op),
            reps: self.reps.next(op),
            data: match op {
                Op::Literal { byte } => self.data.push(byte),
                _ => lz_copy(self.data, self.distance(op) as int, op.out_len()),
            },
        }
    }
}

/// A copy makes the data longer by its length, and leaves what was there.
pub proof fn lemma_lz_copy(data: Seq<u8>, dis: int, len: nat)
    requires
        0 <= dis < data.len(),
    ensures
        lz_copy(data, dis, len).len() == data.len() + len,
        lz_copy(data, dis, len).subrange(0, data.len() as int) == data,
    decreases len,
{
    if len > 0 {
        let d2 = data.push(data[data.len() - 1 - dis]);
        lemma_lz_copy(d2, dis, (len - 1) as nat);
        assert(lz_copy(data, dis, len).subrange(0, data.len() as int) =~= lz_copy(
            d2,
            dis,
            (len - 1) as nat,
        ).subrange(0, d2.len() as int).subrange(0, data.len() as int));
        assert(d2.subrange(0, data.len() as int) =~= data);
    } else {
        assert(data.subrange(0, data.len() as int) =~= data);
    }
}

/// An admitted operation makes the data longer by its length and keeps the
/// state well-formed.
pub proof fn lemma_apply(lz: Lz, op: Op, dictionary_size: u32)
    requires
        lz.wf(dictionary_size),
        lz.admits(op, dictionary_size),
    ensures
        lz.apply(op).wf(dictionary_size),
        lz.apply(op).data.len() == lz.data.len() + op.out_len(),
        lz.apply(op).data.subrange(0, lz.data.len() as int) == lz.data,
{
    match op {
        Op::Literal { byte } => {
            assert(lz.data.push(byte).subrange(0, lz.data.len() as int) =~= lz.data);
        },
        _ => {
            lemma_lz_copy(lz.data, lz.distance(op) as int, op.out_len());
        },
    }
}

} // verus!
