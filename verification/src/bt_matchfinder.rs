//! The match finder of the optimizing encoder.
//!
//! Every position of the data is filed in a binary search tree, one tree
//! for each value of the hash of the four bytes at the position; the trees
//! are ordered by the data that follows the positions. Filing a position
//! walks its tree from the root, which is the position filed last, and so
//! meets the earlier positions that share the most with the new one: they
//! are the matches. Two small tables find where two and three bytes were
//! last seen. The nodes live in a ring as long as the dictionary, so a
//! position too far back to be used gives its place to a new one.
//!
//! Every match that is handed out was measured on the data, byte by byte.

use vstd::prelude::*;
use crate::lzma::{MIN_DICTIONARY_SIZE, MAX_DICTIONARY_SIZE, MAX_MATCH_LEN, MIN_MATCH_LEN};
use crate::matchfinder::{MatchfinderBase, is_match, run_len};

verus! {

/// Number of places where two bytes were last seen.
pub const NUM_PREV_POSITIONS2: usize = 0x400;

/// Number of places where three bytes were last seen.
pub const NUM_PREV_POSITIONS3: usize = 0x1_0000;

/// Number of trees.
pub const NUM_PREV_POSITIONS4: usize = 0x1_0000;

/// Size of the table that holds all three.
pub const NUM_PREV_POSITIONS: usize = 0x2_0400;

/// Number of nodes that the ring has room for at first. It grows with the
/// data, up to one node more than the dictionary is long.
pub const FIRST_NODES: usize = 0x1_0000;

/// A match: its distance less one, and its length.
#[derive(Clone, Copy, Debug, PartialEq, Eq)]
pub struct Pair {
    /// The distance, less one.
    pub dis: u32,
    /// The length.
    pub len: u32,
}

/// Whether every pair is a match of the data at `pos` within the dictionary,
/// no longer than `limit`, and each pair is longer than the one before it.
pub open spec fn pairs_match(
    pairs: Seq<Pair>,
    data: Seq<u8>,
    pos: int,
    dictionary_size: u32,
    limit: int,
) -> bool {
    &&& forall|k: int|
        0 <= k < pairs.len() ==> {
            &&& (#[trigger] pairs[k]).dis < dictionary_size
            &&& MIN_MATCH_LEN <= pairs[k].len <= limit
            &&& is_match(data, pos, pairs[k].dis as int, pairs[k].len as int)
        }
    &&& forall|j: int, k: int|
        0 <= j < k < pairs.len() ==> (#[trigger] pairs[j]).len < (#[trigger] pairs[k]).len
}

/// The place in the table for the two bytes at a position.
#[verifier::opaque]
pub open spec fn place2(b0: u8, b1: u8) -> int {
    (((b0 + b1 * 0x100) * 2654435761) % 0x1_0000_0000) / 0x40_0000
}

/// The place in the table for the three bytes at a position.
#[verifier::opaque]
pub open spec fn place3(b0: u8, b1: u8, b2: u8) -> int {
    NUM_PREV_POSITIONS2 + (((b0 + b1 * 0x100 + b2 * 0x1_0000) * 2654435761) % 0x1_0000_0000)
        / 0x1_0000
}

/// The place in the table for the four bytes at a position: that of the
/// root of their tree.
#[verifier::opaque]
pub open spec fn place4(b0: u8, b1: u8, b2: u8, b3: u8) -> int {
    NUM_PREV_POSITIONS2 + NUM_PREV_POSITIONS3 + (((b0 + b1 * 0x100 + b2 * 0x1_0000 + b3
        * 0x100_0000) * 2654435761) % 0x1_0000_0000) / 0x1_0000
}

/// What the table holds for the position `pos`: the position and one more,
/// as far as 32 bits hold it.
pub open spec fn filed_as(pos: int) -> u32 {
    ((pos + 1) % 0x1_0000_0000) as u32
}

/// How far back from the position `pos` the entry `e` of the table lies, if
/// it names a position within the data and the dictionary; else 0.
#[verifier::opaque]
pub open spec fn back_of(e: u32, pos: int, dictionary_size: u32) -> int {
    let d = (filed_as(pos) - e) % 0x1_0000_0000;
    if e != 0 && 1 <= d <= pos && d <= dictionary_size {
        d
    } else {
        0
    }
}

/// Whether the entry `e` of the table names a position from which the data
/// at `pos` repeats for two bytes or more, and the pairs hold a match at
/// least as long as it repeats, up to `limit` bytes.
pub open spec fn found_from(
    pairs: Seq<Pair>,
    e: u32,
    data: Seq<u8>,
    pos: int,
    dictionary_size: u32,
    limit: nat,
) -> bool {
    let d = back_of(e, pos, dictionary_size);
    d > 0 && run_len(data, pos, d, limit) >= 2 ==> pairs.len() > 0 && pairs.last().len >= run_len(
        data,
        pos,
        d,
        limit,
    )
}

/// The trees, and the tables of the places last seen.
pub struct BtMatchfinder {
    heads: Vec<u32>,
    tree: Vec<u32>,
    cyclic_pos: usize,
    next: u64,
    dictionary_size: u32,
    cycles: u32,
}

impl BtMatchfinder {
    /// The dictionary size.
    pub closed spec fn dictionary_size(&self) -> u32 {
        self.dictionary_size
    }

    /// The position that is filed next.
    pub closed spec fn next_position(&self) -> nat {
        self.next as nat
    }

    /// The table of the places last seen: for the two, three and four bytes
    /// at a position, by their keys, the position filed last that starts
    /// with them, and one more; 0 where there is none. The entry for four
    /// bytes is the root of their tree.
    pub closed spec fn heads(&self) -> Seq<u32> {
        self.heads@
    }

    /// The tables have their sizes, and the ring its place.
    pub closed spec fn wf(&self) -> bool {
        &&& MIN_DICTIONARY_SIZE <= self.dictionary_size <= MAX_DICTIONARY_SIZE
        &&& self.heads@.len() == NUM_PREV_POSITIONS
        &&& self.tree@.len() <= 2 * (self.dictionary_size + 1)
        &&& self.cyclic_pos <= self.dictionary_size
        &&& self.cycles >= 1
        &&& self.tree@.len() == 2 * (self.dictionary_size + 1) || (self.next == self.cyclic_pos
            && 2 * self.cyclic_pos <= self.tree@.len())
    }

    /// Empty trees for the given dictionary size. The longer the matches
    /// that are looked for, the further a tree is walked.
    pub fn new(dictionary_size: u32, match_len_limit: u32) -> (bt: BtMatchfinder)
        requires
            MIN_DICTIONARY_SIZE <= dictionary_size <= MAX_DICTIONARY_SIZE,
        ensures
            bt.wf(),
            bt.dictionary_size() == dictionary_size,
            bt.next_position() == 0,
            bt.heads().len() == NUM_PREV_POSITIONS,
            forall|j: int| 0 <= j < NUM_PREV_POSITIONS ==> #[trigger] bt.heads()[j] == 0,
    {
        let size: usize = if dictionary_size as usize + 1 < FIRST_NODES {
            2 * (dictionary_size as usize + 1)
        } else {
            2 * FIRST_NODES
        };
        BtMatchfinder {
            heads: vec![0u32; NUM_PREV_POSITIONS],
            tree: vec![0u32; size],
            cyclic_pos: 0,
            next: 0,
            dictionary_size,
            cycles: if match_len_limit < MAX_MATCH_LEN {
                16 + match_len_limit / 2
            } else {
                256
            },
        }
    }

    /// Forgets every position, for the data of a new member.
    pub fn reset(&mut self)
        requires
            old(self).wf(),
        ensures
            final(self).wf(),
            final(self).dictionary_size() == old(self).dictionary_size(),
            final(self).next_position() == 0,
            final(self).heads().len() == NUM_PREV_POSITIONS,
            forall|j: int| 0 <= j < NUM_PREV_POSITIONS ==> #[trigger] final(self).heads()[j] == 0,
    {
        let mut k: usize = 0;
        while k < NUM_PREV_POSITIONS
            invariant
                self.wf(),
                self.dictionary_size == old(self).dictionary_size,
                k <= NUM_PREV_POSITIONS,
                forall|j: int| 0 <= j < k ==> #[trigger] self.heads@[j] == 0,
            decreases NUM_PREV_POSITIONS - k,
        {
            self.heads[k] = 0;
            k = k + 1;
        }
        self.cyclic_pos = 0;
        self.next = 0;
    }

    /// Files the position `off` places after that of the window, which is
    /// the next to be filed. If matches are wanted, `pairs` is given the
    /// matches met on the way, of `len_limit` bytes at most, each longer than
    /// the one before it; else it is left empty.
    pub fn get_match_pairs(
        &mut self,
        mb: &MatchfinderBase,
        off: usize,
        len_limit: usize,
        want: bool,
        pairs: &mut Vec<Pair>,
    )
        requires
            old(self).wf(),
            mb.wf(),
            old(self).dictionary_size() == mb.dictionary_size(),
            old(self).next_position() == mb.data_position() + off,
            off < mb.ahead().len(),
            off + len_limit <= mb.ahead().len(),
            len_limit <= MAX_MATCH_LEN,
        ensures
            final(self).wf(),
            final(self).dictionary_size() == old(self).dictionary_size(),
            final(self).next_position() == old(self).next_position() + 1,
            pairs_match(
                final(pairs)@,
                mb.data(),
                mb.data_position() + off,
                mb.dictionary_size(),
                len_limit as int,
            ),
            !want ==> final(pairs)@.len() == 0,
            len_limit < 4 ==> final(self).heads() == old(self).heads() && final(pairs)@.len() == 0,
            len_limit >= 4 ==> {
                let a = mb.ahead();
                let pos = mb.data_position() + off;
                let k2 = place2(a[off as int], a[off + 1]);
                let k3 = place3(a[off as int], a[off + 1], a[off + 2]);
                let k4 = place4(a[off as int], a[off + 1], a[off + 2], a[off + 3]);
                let dict = mb.dictionary_size();
                &&& final(self).heads() == old(self).heads().update(k2, filed_as(pos)).update(
                    k3,
                    filed_as(pos),
                ).update(k4, filed_as(pos))
                &&& want ==> {
                    &&& found_from(
                        final(pairs)@,
                        old(self).heads()[k2],
                        mb.data(),
                        pos,
                        dict,
                        len_limit as nat,
                    )
                    &&& found_from(
                        final(pairs)@,
                        old(self).heads()[k3],
                        mb.data(),
                        pos,
                        dict,
                        len_limit as nat,
                    )
                    &&& found_from(
                        final(pairs)@,
                        old(self).heads()[k4],
                        mb.data(),
                        pos,
                        dict,
                        len_limit as nat,
                    )
                }
            },
    {
        proof {
            mb.lemma_wf();
        }
        pairs.clear();
        let avail: usize = mb.available_bytes();
        let dict: usize = self.dictionary_size as usize;
        let c: usize = self.cyclic_pos;
        let p: u64 = self.next;
        let nodes: usize = self.tree.len();
        if nodes < 2 * c + 2 {
            let full: usize = 2 * (dict + 1);
            let more: usize = if nodes >= full / 2 {
                full
            } else if 2 * nodes < 2 * c + 2 {
                2 * c + 2
            } else {
                2 * nodes
            };
            self.tree.resize(more, 0);
        }
        self.next = p + 1;
        self.cyclic_pos = if c == dict {
            0
        } else {
            c + 1
        };
        if len_limit < 4 {
            self.tree[2 * c] = 0;
            self.tree[2 * c + 1] = 0;
            return ;
        }
        let (key2, key3, key4) = places(mb, off);
        let pos1: u32 = ((p + 1) % 0x1_0000_0000) as u32;
        let ghost data = mb.data();
        let ghost pos = mb.data_position() + off;
        let ghost e2 = self.heads@[key2 as int];
        let ghost e3 = self.heads@[key3 as int];
        let ghost e4 = self.heads@[key4 as int];
        let ghost run2 = run_len(data, pos, back_of(e2, pos, self.dictionary_size), len_limit as nat);
        let ghost run3 = run_len(data, pos, back_of(e3, pos, self.dictionary_size), len_limit as nat);
        let ghost run4 = run_len(data, pos, back_of(e4, pos, self.dictionary_size), len_limit as nat);
        let mut maxlen: usize = 1;
        if want {
            let np2: u32 = self.heads[key2];
            let np3: u32 = self.heads[key3];
            let d2: usize = back_from(pos1, np2, p, self.dictionary_size);
            if d2 > 0 {
                let len: usize = mb.match_len_at(off, d2, len_limit);
                if len > maxlen {
                    pairs.push(Pair { dis: (d2 - 1) as u32, len: len as u32 });
                    maxlen = len;
                }
            }
            let d3: usize = back_from(pos1, np3, p, self.dictionary_size);
            if np3 != np2 && d3 > 0 {
                let len: usize = mb.match_len_at(off, d3, len_limit);
                if len > maxlen {
                    pairs.push(Pair { dis: (d3 - 1) as u32, len: len as u32 });
                    maxlen = len;
                }
            }
        }
        self.heads[key2] = pos1;
        self.heads[key3] = pos1;
        let mut newpos1: u32 = self.heads[key4];
        self.heads[key4] = pos1;
        let ghost filed = self.heads@;
        let ghost first = true;
        let mut ptr0: usize = 2 * c;
        let mut ptr1: usize = 2 * c + 1;
        let mut count: u32 = self.cycles;
        loop
            invariant
                self.wf(),
                self.heads@ == filed,
                filed == old(self).heads@.update(key2 as int, pos1).update(
                    key3 as int,
                    pos1,
                ).update(key4 as int, pos1),
                pos1 == filed_as(pos),
                pos == p,
                data == mb.data(),
                e2 == old(self).heads@[key2 as int],
                e3 == old(self).heads@[key3 as int],
                e4 == old(self).heads@[key4 as int],
                key2 == place2(mb.ahead()[off as int], mb.ahead()[off + 1]),
                key3 == place3(mb.ahead()[off as int], mb.ahead()[off + 1], mb.ahead()[off + 2]),
                key4 == place4(
                    mb.ahead()[off as int],
                    mb.ahead()[off + 1],
                    mb.ahead()[off + 2],
                    mb.ahead()[off + 3],
                ),
                key2 < key3 < key4 < NUM_PREV_POSITIONS,
                run2 == run_len(data, pos, back_of(e2, pos, self.dictionary_size), len_limit as nat),
                run3 == run_len(data, pos, back_of(e3, pos, self.dictionary_size), len_limit as nat),
                run4 == run_len(data, pos, back_of(e4, pos, self.dictionary_size), len_limit as nat),
                want && back_of(e2, pos, self.dictionary_size) > 0 && run2 >= 2 ==> maxlen >= run2,
                want && back_of(e3, pos, self.dictionary_size) > 0 && run3 >= 2 ==> maxlen >= run3,
                first ==> newpos1 == e4 && count >= 1,
                !first && want && back_of(e4, pos, self.dictionary_size) > 0 && run4 >= 2 ==> maxlen
                    >= run4,
                maxlen >= 2 ==> pairs@.len() > 0,

                mb.wf(),
                self.dictionary_size == old(self).dictionary_size,
                self.dictionary_size == mb.dictionary_size(),
                self.next == old(self).next + 1,
                dict == self.dictionary_size,
                c <= dict,
                p == mb.data_position() + off,
                4 <= len_limit <= MAX_MATCH_LEN,
                off + len_limit <= mb.ahead().len(),
                avail == mb.ahead().len(),
                2 * c + 2 <= self.tree@.len(),
                self.tree@.len() == 2 * (dict + 1) || p <= c,
                ptr0 < self.tree@.len(),
                ptr1 < self.tree@.len(),
                1 <= maxlen <= len_limit,
                pairs@.len() > 0 ==> pairs@.last().len == maxlen,
                !want ==> pairs@.len() == 0,
                pairs_match(
                    pairs@,
                    mb.data(),
                    mb.data_position() + off,
                    mb.dictionary_size(),
                    len_limit as int,
                ),
            decreases count,
        {
            let delta: usize = back_from(pos1, newpos1, p, self.dictionary_size);
            if delta == 0 || count == 0 {
                self.tree[ptr0] = 0;
                self.tree[ptr1] = 0;
                return ;
            }
            count = count - 1;
            proof {
                first = false;
            }
            let newptr: usize = 2 * if c >= delta {
                c - delta
            } else {
                c + dict + 1 - delta
            };
            let len: usize = mb.match_len_at(off, delta, len_limit);
            if want && len > maxlen {
                let ghost before = pairs@;
                pairs.push(Pair { dis: (delta - 1) as u32, len: len as u32 });
                maxlen = len;
                proof {
                    assert forall|j: int, k: int| 0 <= j < k < pairs@.len() implies (
                    #[trigger] pairs@[j]).len < (#[trigger] pairs@[k]).len by {
                        if k < before.len() {
                            assert(pairs@[j] == before[j] && pairs@[k] == before[k]);
                        } else if before.len() > 0 {
                            assert(pairs@[j] == before[j]);
                            assert(before[j].len <= before.last().len);
                        }
                    }
                }
            }
            if len >= len_limit {
                let left: u32 = self.tree[newptr];
                let right: u32 = self.tree[newptr + 1];
                self.tree[ptr0] = left;
                self.tree[ptr1] = right;
                return ;
            }
            if mb.byte_at(off + len, delta) < mb.byte_at(off + len, 0) {
                self.tree[ptr0] = newpos1;
                ptr0 = newptr + 1;
                newpos1 = self.tree[ptr0];
            } else {
                self.tree[ptr1] = newpos1;
                ptr1 = newptr;
                newpos1 = self.tree[ptr1];
            }
        }
    }
}

/// The places in the table for the two, three and four bytes at the place
/// `off` after the position of the window.
fn places(mb: &MatchfinderBase, off: usize) -> (r: (usize, usize, usize))
    requires
        mb.wf(),
        off + 4 <= mb.ahead().len(),
    ensures
        r.0 == place2(mb.ahead()[off as int], mb.ahead()[off + 1]),
        r.1 == place3(mb.ahead()[off as int], mb.ahead()[off + 1], mb.ahead()[off + 2]),
        r.2 == place4(
            mb.ahead()[off as int],
            mb.ahead()[off + 1],
            mb.ahead()[off + 2],
            mb.ahead()[off + 3],
        ),
        r.0 < NUM_PREV_POSITIONS2,
        NUM_PREV_POSITIONS2 <= r.1 < NUM_PREV_POSITIONS2 + NUM_PREV_POSITIONS3,
        NUM_PREV_POSITIONS2 + NUM_PREV_POSITIONS3 <= r.2 < NUM_PREV_POSITIONS,
{
    let avail: usize = mb.available_bytes();
    let b0: u8 = mb.byte_at(off, 0);
    let b1: u8 = mb.byte_at(off + 1, 0);
    let b2: u8 = mb.byte_at(off + 2, 0);
    let b3: u8 = mb.byte_at(off + 3, 0);
    proof {
        mb.lemma_wf();
        let dp = mb.data_position() as int;
        assert(mb.ahead()[off as int] == mb.data()[dp + off]);
        assert(mb.ahead()[off + 1] == mb.data()[dp + off + 1]);
        assert(mb.ahead()[off + 2] == mb.data()[dp + off + 2]);
        assert(mb.ahead()[off + 3] == mb.data()[dp + off + 3]);
    }
    (place2_of(b0, b1), place3_of(b0, b1, b2), place4_of(b0, b1, b2, b3))
}

/// The place in the table for two bytes.
fn place2_of(b0: u8, b1: u8) -> (r: usize)
    ensures
        r == place2(b0, b1),
        r < NUM_PREV_POSITIONS2,
{
    proof {
        reveal(place2);
    }
    let v: u64 = b0 as u64 + b1 as u64 * 0x100;
    (((v * 2654435761) % 0x1_0000_0000) / 0x40_0000) as usize
}

/// The place in the table for three bytes.
fn place3_of(b0: u8, b1: u8, b2: u8) -> (r: usize)
    ensures
        r == place3(b0, b1, b2),
        NUM_PREV_POSITIONS2 <= r < NUM_PREV_POSITIONS2 + NUM_PREV_POSITIONS3,
{
    proof {
        reveal(place3);
    }
    let v: u64 = b0 as u64 + b1 as u64 * 0x100 + b2 as u64 * 0x1_0000;
    NUM_PREV_POSITIONS2 + (((v * 2654435761) % 0x1_0000_0000) / 0x1_0000) as usize
}

/// The place in the table for four bytes.
fn place4_of(b0: u8, b1: u8, b2: u8, b3: u8) -> (r: usize)
    ensures
        r == place4(b0, b1, b2, b3),
        NUM_PREV_POSITIONS2 + NUM_PREV_POSITIONS3 <= r < NUM_PREV_POSITIONS,
{
    proof {
        reveal(place4);
    }
    let v: u64 = b0 as u64 + b1 as u64 * 0x100 + b2 as u64 * 0x1_0000 + b3 as u64 * 0x100_0000;
    NUM_PREV_POSITIONS2 + NUM_PREV_POSITIONS3 + (((v * 2654435761) % 0x1_0000_0000)
        / 0x1_0000) as usize
}

/// How far back from the position `p`, which the table holds as `pos1`, the
/// entry `e` of the table lies, if it names a position within the data and
/// the dictionary; else 0.
fn back_from(pos1: u32, e: u32, p: u64, dictionary_size: u32) -> (d: usize)
    requires
        pos1 == filed_as(p as int),
        dictionary_size <= MAX_DICTIONARY_SIZE,
    ensures
        d == back_of(e, p as int, dictionary_size),
        d <= p,
        d <= dictionary_size,
{
    proof {
        reveal(back_of);
    }
    let d: u32 = pos1.wrapping_sub(e);
    if e != 0 && 1 <= d && d as u64 <= p && d <= dictionary_size {
        d as usize
    } else {
        0
    }
}

} // verus!
