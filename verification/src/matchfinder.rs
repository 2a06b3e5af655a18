//! The encoder's input window: the data written and not yet encoded, the
//! dictionary's worth of data before it, and a hash table that finds where a
//! run of four bytes was last seen.

use vstd::prelude::*;
use crate::crc::{CrcTable, crc_update};
use crate::lzma::{MIN_DICTIONARY_SIZE, MAX_DICTIONARY_SIZE};

verus! {

/// Number of entries of the hash table.
pub const HASH_SIZE: usize = 0x4_0000;

/// Number of bytes that a position must have ahead of it to be hashed.
pub const HASH_BYTES: usize = 4;

/// Room that the window has beyond two dictionaries.
pub const WINDOW_MARGIN: usize = 65536;

/// The size of the window for a dictionary size.
pub open spec fn mf_buffer_size(dictionary_size: u32) -> int {
    2 * dictionary_size + WINDOW_MARGIN
}

/// Whether the `len` bytes of `data` from `pos` on repeat those that lie
/// `dis + 1` bytes before them.
pub open spec fn is_match(data: Seq<u8>, pos: int, dis: int, len: int) -> bool {
    &&& 0 <= dis < pos
    &&& 0 <= len
    &&& pos + len <= data.len()
    &&& forall|i: int| 0 <= i < len ==> #[trigger] data[pos + i] == data[pos + i - dis - 1]
}

/// How many of the bytes of `data` from `pos` on, `limit` at most, repeat
/// those that lie `d` bytes before them.
pub open spec fn run_len(data: Seq<u8>, pos: int, d: int, limit: nat) -> nat
    decreases limit,
{
    if limit == 0 || d < 1 || d > pos || pos >= data.len() || data[pos] != data[pos - d] {
        0
    } else {
        1 + run_len(data, pos + 1, d, (limit - 1) as nat)
    }
}

/// A match that ends where the data stops repeating, or at the limit, is
/// as long as the data repeats.
pub proof fn lemma_run_len(data: Seq<u8>, pos: int, d: int, len: nat, limit: nat)
    requires
        is_match(data, pos, d - 1, len as int),
        1 <= d,
        len <= limit,
        pos + limit <= data.len(),
        len < limit ==> data[pos + len] != data[pos + len - d],
    ensures
        run_len(data, pos, d, limit) == len,
    decreases len,
{
    if len > 0 {
        assert(data[pos + 0] == data[pos + 0 - (d - 1) - 1]);
        assert(is_match(data, pos + 1, d - 1, len - 1)) by {
            assert forall|i: int| 0 <= i < len - 1 implies #[trigger] data[pos + 1 + i] == data[pos
                + 1 + i - (d - 1) - 1] by {
                assert(data[pos + (i + 1)] == data[pos + (i + 1) - (d - 1) - 1]);
            }
        }
        lemma_run_len(data, pos + 1, d, (len - 1) as nat, (limit - 1) as nat);
    }
}

/// The hash of four bytes: the high bits of their product with a constant.
pub open spec fn hash4(b0: u8, b1: u8, b2: u8, b3: u8) -> int {
    (((b0 + b1 * 0x100 + b2 * 0x1_0000 + b3 * 0x100_0000) * 2654435761) % 0x1_0000_0000) / 0x4000
}

/// The hash table after the position moved on from the `i`-th to the `n`-th
/// of the bytes that lie from `pos` on: every position passed over but the
/// first, with four bytes ahead of it, is recorded under the hash of those
/// bytes as its place in the window and one more. The place of `pos` in the
/// window is `wpos`.
pub open spec fn moved_table(
    table: Seq<u32>,
    data: Seq<u8>,
    pos: int,
    wpos: int,
    i: nat,
    n: nat,
) -> Seq<u32>
    decreases n - i,
{
    if i >= n {
        table
    } else {
        let at = pos + i;
        let t = if i > 0 && data.len() - at >= HASH_BYTES {
            table.update(
                hash4(data[at], data[at + 1], data[at + 2], data[at + 3]),
                (wpos + i + 1) as u32,
            )
        } else {
            table
        };
        moved_table(t, data, pos, wpos, i + 1, n)
    }
}

/// The encoder's input window.
pub struct MatchfinderBase {
    buffer: Vec<u8>,
    prev_positions: Vec<u32>,
    pos: usize,
    stream_pos: usize,
    partial_data_pos: u64,
    dictionary_size: u32,
    at_stream_end: bool,
    data: Ghost<Seq<u8>>,
}

impl MatchfinderBase {
    /// All the data written for the member at hand.
    pub closed spec fn data(&self) -> Seq<u8> {
        self.data@
    }

    /// How much of it was encoded.
    pub closed spec fn data_position(&self) -> nat {
        (self.partial_data_pos + self.pos) as nat
    }

    /// The dictionary size.
    pub closed spec fn dictionary_size(&self) -> u32 {
        self.dictionary_size
    }

    /// Whether the data was declared complete.
    pub closed spec fn at_stream_end(&self) -> bool {
        self.at_stream_end
    }

    /// Number of bytes that can be written now.
    pub closed spec fn free_space(&self) -> nat {
        let slide = if self.pos > self.dictionary_size {
            self.pos - self.dictionary_size
        } else {
            0
        };
        let room = self.buffer@.len() - self.stream_pos + slide;
        let left = u64::MAX - self.data@.len();
        if room <= left {
            room as nat
        } else {
            left as nat
        }
    }

    /// The data not encoded yet.
    pub open spec fn ahead(&self) -> Seq<u8> {
        self.data().skip(self.data_position() as int)
    }

    /// The hash table: for each hash the place in the window, and one more,
    /// where four bytes with that hash were last seen; 0 where none were.
    pub closed spec fn table(&self) -> Seq<u32> {
        self.prev_positions@
    }

    /// The place of the position in the window.
    pub closed spec fn window_position(&self) -> nat {
        self.pos as nat
    }

    /// The hash of the four bytes at the position.
    pub open spec fn hash_ahead(&self) -> int {
        hash4(self.ahead()[0], self.ahead()[1], self.ahead()[2], self.ahead()[3])
    }

    /// The window holds the end of the data, and keeps a dictionary's worth
    /// of it before the position.
    pub closed spec fn wf(&self) -> bool {
        &&& MIN_DICTIONARY_SIZE <= self.dictionary_size <= MAX_DICTIONARY_SIZE
        &&& self.buffer@.len() == mf_buffer_size(self.dictionary_size)
        &&& self.prev_positions@.len() == HASH_SIZE
        &&& self.pos <= self.stream_pos <= self.buffer@.len()
        &&& self.partial_data_pos + self.stream_pos == self.data@.len()
        &&& self.data@.len() <= u64::MAX
        &&& forall|i: int|
            0 <= i < self.stream_pos ==> #[trigger] self.buffer@[i] == self.data@[self.partial_data_pos
                + i]
        &&& self.partial_data_pos > 0 ==> self.pos >= self.dictionary_size
    }

    /// The invariant, in terms a caller can use.
    pub proof fn lemma_wf(&self)
        requires
            self.wf(),
        ensures
            self.data_position() <= self.data().len() <= u64::MAX,
            MIN_DICTIONARY_SIZE <= self.dictionary_size() <= MAX_DICTIONARY_SIZE,
    {
    }

    /// The room to write and the data not encoded yet make up at least a
    /// dictionary and the margin, unless the size of the data nears 64 bits.
    pub proof fn lemma_free_space(&self)
        requires
            self.wf(),
        ensures
            self.free_space() + self.ahead().len() >= self.dictionary_size() + WINDOW_MARGIN
                || self.free_space() + self.data().len() == u64::MAX,
    {
    }

    /// An empty window for the given dictionary size.
    pub fn new(dictionary_size: u32) -> (mb: MatchfinderBase)
        requires
            MIN_DICTIONARY_SIZE <= dictionary_size <= MAX_DICTIONARY_SIZE,
        ensures
            mb.wf(),
            mb.data() == Seq::<u8>::empty(),
            mb.data_position() == 0,
            mb.dictionary_size() == dictionary_size,
            !mb.at_stream_end(),
            mb.window_position() == 0,
            mb.table().len() == HASH_SIZE,
            forall|j: int| 0 <= j < HASH_SIZE ==> #[trigger] mb.table()[j] == 0,
    {
        let size: usize = 2 * (dictionary_size as usize) + WINDOW_MARGIN;
        MatchfinderBase {
            buffer: vec![0u8; size],
            prev_positions: vec![0u32; HASH_SIZE],
            pos: 0,
            stream_pos: 0,
            partial_data_pos: 0,
            dictionary_size,
            at_stream_end: false,
            data: Ghost(Seq::empty()),
        }
    }

    /// Forgets every position that the hash table holds.
    fn clear_table(&mut self)
        requires
            old(self).prev_positions@.len() == HASH_SIZE,
        ensures
            final(self).prev_positions@.len() == HASH_SIZE,
            final(self).buffer == old(self).buffer,
            final(self).pos == old(self).pos,
            final(self).stream_pos == old(self).stream_pos,
            final(self).partial_data_pos == old(self).partial_data_pos,
            final(self).dictionary_size == old(self).dictionary_size,
            final(self).at_stream_end == old(self).at_stream_end,
            final(self).data == old(self).data,
            forall|j: int| 0 <= j < HASH_SIZE ==> #[trigger] final(self).prev_positions@[j] == 0,
    {
        let mut k: usize = 0;
        while k < HASH_SIZE
            invariant
                self.prev_positions@.len() == HASH_SIZE,
                k <= HASH_SIZE,
                forall|j: int| 0 <= j < k ==> #[trigger] self.prev_positions@[j] == 0,
                self.buffer == old(self).buffer,
                self.pos == old(self).pos,
                self.stream_pos == old(self).stream_pos,
                self.partial_data_pos == old(self).partial_data_pos,
                self.dictionary_size == old(self).dictionary_size,
                self.at_stream_end == old(self).at_stream_end,
                self.data == old(self).data,
            decreases HASH_SIZE - k,
        {
            self.prev_positions[k] = 0;
            k = k + 1;
        }
    }

    /// Moves the data from `offset` on to the front of the window.
    fn slide(&mut self, offset: usize)
        requires
            old(self).wf(),
            offset <= old(self).pos,
            old(self).pos - offset >= old(self).dictionary_size || (old(self).partial_data_pos
                == 0 && offset == 0),
        ensures
            final(self).wf(),
            final(self).data() == old(self).data(),
            final(self).data_position() == old(self).data_position(),
            final(self).dictionary_size() == old(self).dictionary_size(),
            final(self).at_stream_end() == old(self).at_stream_end(),
            final(self).pos == old(self).pos - offset,
            final(self).stream_pos == old(self).stream_pos - offset,
            final(self).buffer@.len() == old(self).buffer@.len(),
    {
        if offset == 0 {
            return ;
        }
        let n: usize = self.stream_pos - offset;
        let mut i: usize = 0;
        while i < n
            invariant
                old(self).wf(),
                0 < offset <= old(self).pos,
                n == old(self).stream_pos - offset,
                i <= n,
                self.buffer@.len() == old(self).buffer@.len(),
                self.prev_positions == old(self).prev_positions,
                self.pos == old(self).pos,
                self.stream_pos == old(self).stream_pos,
                self.partial_data_pos == old(self).partial_data_pos,
                self.dictionary_size == old(self).dictionary_size,
                self.at_stream_end == old(self).at_stream_end,
                self.data == old(self).data,
                forall|j: int|
                    0 <= j < i ==> #[trigger] self.buffer@[j] == self.data@[self.partial_data_pos
                        + offset + j],
                forall|j: int| i <= j < self.buffer@.len() ==> self.buffer@[j] == old(self).buffer@[j],
            decreases n - i,
        {
            let b: u8 = self.buffer[i + offset];
            self.buffer[i] = b;
            i = i + 1;
        }
        self.pos = self.pos - offset;
        self.stream_pos = self.stream_pos - offset;
        self.partial_data_pos = self.partial_data_pos + offset as u64;
        let mut k: usize = 0;
        while k < HASH_SIZE
            invariant
                self.prev_positions@.len() == HASH_SIZE,
                self.buffer@.len() == old(self).buffer@.len(),
                self.pos == old(self).pos - offset,
                self.stream_pos == old(self).stream_pos - offset,
                self.partial_data_pos == old(self).partial_data_pos + offset,
                self.dictionary_size == old(self).dictionary_size,
                self.at_stream_end == old(self).at_stream_end,
                self.data == old(self).data,
                forall|j: int|
                    0 <= j < self.stream_pos ==> #[trigger] self.buffer@[j]
                        == self.data@[self.partial_data_pos + j],
            decreases HASH_SIZE - k,
        {
            let e: u32 = self.prev_positions[k];
            self.prev_positions[k] = if e as usize > offset {
                (e as usize - offset) as u32
            } else {
                0
            };
            k = k + 1;
        }
    }

    /// Starts a new member: the data not encoded yet becomes the data of the
    /// new member.
    pub fn reset(&mut self)
        requires
            old(self).wf(),
        ensures
            final(self).wf(),
            final(self).data() == old(self).ahead(),
            final(self).data_position() == 0,
            final(self).dictionary_size() == old(self).dictionary_size(),
            final(self).at_stream_end() == old(self).at_stream_end(),
            final(self).window_position() == 0,
            final(self).table().len() == HASH_SIZE,
            forall|j: int| 0 <= j < HASH_SIZE ==> #[trigger] final(self).table()[j] == 0,
    {
        let offset: usize = self.pos;
        let n: usize = self.stream_pos - offset;
        let mut i: usize = 0;
        let ghost ahead = self.ahead();
        while i < n
            invariant
                old(self).wf(),
                offset == old(self).pos,
                n == old(self).stream_pos - offset,
                i <= n,
                ahead == old(self).ahead(),
                self.buffer@.len() == old(self).buffer@.len(),
                self.prev_positions@.len() == HASH_SIZE,
                self.dictionary_size == old(self).dictionary_size,
                self.at_stream_end == old(self).at_stream_end,
                forall|j: int| 0 <= j < i ==> #[trigger] self.buffer@[j] == ahead[j],
                forall|j: int| i <= j < self.buffer@.len() ==> self.buffer@[j] == old(self).buffer@[j],
            decreases n - i,
        {
            let b: u8 = self.buffer[i + offset];
            assert(b == ahead[i as int]);
            self.buffer[i] = b;
            i = i + 1;
        }
        self.pos = 0;
        self.stream_pos = n;
        self.partial_data_pos = 0;
        self.data = Ghost(ahead);
        self.clear_table();
    }

    /// Declares the data complete.
    pub fn finish(&mut self)
        requires
            old(self).wf(),
        ensures
            final(self).wf(),
            final(self).data() == old(self).data(),
            final(self).data_position() == old(self).data_position(),
            final(self).dictionary_size() == old(self).dictionary_size(),
            final(self).at_stream_end(),
    {
        self.at_stream_end = true;
    }

    /// Takes back the declaration that the data is complete.
    pub fn resume(&mut self)
        requires
            old(self).wf(),
        ensures
            final(self).wf(),
            final(self).data() == old(self).data(),
            final(self).data_position() == old(self).data_position(),
            final(self).dictionary_size() == old(self).dictionary_size(),
            !final(self).at_stream_end(),
    {
        self.at_stream_end = false;
    }

    /// Whether the data was declared complete.
    pub fn is_at_stream_end(&self) -> (b: bool)
        ensures
            b == self.at_stream_end(),
    {
        self.at_stream_end
    }

    /// The dictionary size.
    pub fn get_dictionary_size(&self) -> (d: u32)
        ensures
            d == self.dictionary_size(),
    {
        self.dictionary_size
    }

    /// Whether the data was declared complete and is all encoded.
    pub fn data_finished(&self) -> (b: bool)
        requires
            self.wf(),
        ensures
            b == (self.at_stream_end() && self.ahead().len() == 0),
    {
        self.at_stream_end && self.pos == self.stream_pos
    }

    /// How much of the data was encoded.
    pub fn get_data_position(&self) -> (n: u64)
        requires
            self.wf(),
        ensures
            n == self.data_position(),
    {
        self.partial_data_pos + self.pos as u64
    }

    /// Number of bytes written and not encoded yet.
    pub fn available_bytes(&self) -> (n: usize)
        requires
            self.wf(),
        ensures
            n == self.ahead().len(),
    {
        self.stream_pos - self.pos
    }

    /// Number of bytes that can be written now.
    pub fn free_bytes(&self) -> (n: usize)
        requires
            self.wf(),
        ensures
            n == self.free_space(),
    {
        let slide: usize = if self.pos > self.dictionary_size as usize {
            self.pos - self.dictionary_size as usize
        } else {
            0
        };
        let room: usize = self.buffer.len() - self.stream_pos + slide;
        let left: u64 = u64::MAX - (self.partial_data_pos + self.stream_pos as u64);
        if room as u64 <= left {
            room
        } else {
            left as usize
        }
    }

    /// Writes as many bytes of `data[from..]` as there is room for, and
    /// returns how many were taken.
    pub fn write_data(&mut self, data: &[u8], from: usize) -> (n: usize)
        requires
            old(self).wf(),
            from <= data@.len(),
        ensures
            final(self).wf(),
            n == if data@.len() - from <= old(self).free_space() {
                data@.len() - from
            } else {
                old(self).free_space() as int
            },
            final(self).data() == old(self).data() + data@.subrange(from as int, from + n),
            final(self).data_position() == old(self).data_position(),
            final(self).dictionary_size() == old(self).dictionary_size(),
            final(self).at_stream_end() == old(self).at_stream_end(),
    {
        let free: usize = self.free_bytes();
        let n: usize = if data.len() - from <= free {
            data.len() - from
        } else {
            free
        };
        if n > self.buffer.len() - self.stream_pos {
            let offset: usize = self.pos - self.dictionary_size as usize;
            self.slide(offset);
        }
        let mut i: usize = 0;
        let ghost data0 = self.data@;
        proof {
            assert(data@.subrange(from as int, from as int) =~= Seq::<u8>::empty());
            assert(data0 + Seq::<u8>::empty() =~= data0);
        }
        while i < n
            invariant
                self.wf(),
                i <= n,
                from + n <= data@.len(),
                data@.len() <= usize::MAX,
                self.stream_pos + (n - i) <= self.buffer@.len(),
                self.data@.len() + (n - i) <= u64::MAX,
                data0 == old(self).data(),
                self.data@ == data0 + data@.subrange(from as int, from + i),
                self.data_position() == old(self).data_position(),
                self.dictionary_size() == old(self).dictionary_size(),
                self.at_stream_end() == old(self).at_stream_end(),
            decreases n - i,
        {
            let b: u8 = data[from + i];
            let sp: usize = self.stream_pos;
            self.buffer[sp] = b;
            self.stream_pos = sp + 1;
            self.data = Ghost(self.data@.push(b));
            i = i + 1;
            proof {
                assert(self.data@ =~= data0 + data@.subrange(from as int, from + i));
            }
        }
        n
    }

    /// The byte `i` places after the position.
    pub fn peek(&self, i: usize) -> (b: u8)
        requires
            self.wf(),
            i < self.ahead().len(),
        ensures
            b == self.ahead()[i as int],
            b == self.data()[self.data_position() + i],
    {
        self.buffer[self.pos + i]
    }

    /// The byte `d` places before the position.
    pub fn peek_back(&self, d: u32) -> (b: u8)
        requires
            self.wf(),
            1 <= d <= self.data_position(),
            d <= self.dictionary_size(),
        ensures
            b == self.data()[self.data_position() - d],
    {
        self.buffer[self.pos - d as usize]
    }

    /// The CRC of the `len` bytes from the position on, folded into `crc`.
    pub fn crc_ahead(&self, table: &CrcTable, crc: u32, len: usize) -> (r: u32)
        requires
            self.wf(),
            table.wf(),
            len <= self.ahead().len(),
        ensures
            r == crc_update(crc, self.ahead().subrange(0, len as int)),
    {
        let r: u32 = table.update_range(crc, self.buffer.as_slice(), self.pos, self.pos + len);
        assert(self.buffer@.subrange(self.pos as int, self.pos + len) =~= self.ahead().subrange(
            0,
            len as int,
        ));
        r
    }

    /// How many of the bytes from the position on, `limit` at most, repeat
    /// those that lie `d` bytes before them.
    pub fn true_match_len(&self, d: u32, limit: usize) -> (len: usize)
        requires
            self.wf(),
            1 <= d <= self.data_position(),
            d <= self.dictionary_size(),
            limit <= self.ahead().len(),
        ensures
            len <= limit,
            is_match(self.data(), self.data_position() as int, d - 1, len as int),
            len < limit ==> self.data()[self.data_position() + len] != self.data()[
                self.data_position() + len - d],
    {
        let dist: usize = d as usize;
        let mut len: usize = 0;
        while len < limit && self.buffer[self.pos + len] == self.buffer[self.pos + len - dist]
            invariant
                self.wf(),
                1 <= dist <= self.pos,
                dist == d,
                len <= limit,
                limit <= self.stream_pos - self.pos,
                is_match(self.data(), self.data_position() as int, d - 1, len as int),
            decreases limit - len,
        {
            proof {
                let dp = self.data_position() as int;
                assert(self.buffer@[self.pos + len] == self.data@[dp + len]);
                assert(self.buffer@[self.pos + len - dist] == self.data@[dp + len - d]);
            }
            len = len + 1;
        }
        proof {
            if len < limit {
                let dp = self.data_position() as int;
                assert(self.buffer@[self.pos + len] == self.data@[dp + len]);
                assert(self.buffer@[self.pos + len - dist] == self.data@[dp + len - d]);
            }
        }
        len
    }

    /// The hash of the four bytes at the position.
    fn hash_here(&self) -> (h: usize)
        requires
            self.wf(),
            self.stream_pos - self.pos >= HASH_BYTES,
        ensures
            h < HASH_SIZE,
            h == self.hash_ahead(),
    {
        proof {
            let dp = self.data_position() as int;
            assert(self.buffer@[self.pos as int] == self.data@[dp]);
            assert(self.buffer@[self.pos + 1] == self.data@[dp + 1]);
            assert(self.buffer@[self.pos + 2] == self.data@[dp + 2]);
            assert(self.buffer@[self.pos + 3] == self.data@[dp + 3]);
        }
        let v: u64 = self.buffer[self.pos] as u64 + self.buffer[self.pos + 1] as u64 * 0x100
            + self.buffer[self.pos + 2] as u64 * 0x1_0000 + self.buffer[self.pos + 3] as u64
            * 0x100_0000;
        (((v * 2654435761) % 0x1_0000_0000) / 0x4000) as usize
    }

    /// Looks up where the four bytes at the position were last seen, records
    /// the position in their place, and measures how far the data repeats
    /// from there. Yields the length, `limit` at most, and the distance less
    /// one; a length of 0 if nothing was found.
    pub fn longest_match(&mut self, limit: usize) -> (r: (usize, u32))
        requires
            old(self).wf(),
            limit <= old(self).ahead().len(),
        ensures
            final(self).wf(),
            final(self).data() == old(self).data(),
            final(self).data_position() == old(self).data_position(),
            final(self).dictionary_size() == old(self).dictionary_size(),
            final(self).at_stream_end() == old(self).at_stream_end(),
            r.0 <= limit,
            r.0 > 0 ==> r.1 < old(self).dictionary_size() && is_match(
                old(self).data(),
                old(self).data_position() as int,
                r.1 as int,
                r.0 as int,
            ),
            final(self).window_position() == old(self).window_position(),
            old(self).ahead().len() < HASH_BYTES ==> r == (0usize, 0u32) && final(self).table()
                == old(self).table(),
            old(self).ahead().len() >= HASH_BYTES ==> {
                let h = old(self).hash_ahead();
                let e = old(self).table()[h];
                let at = old(self).window_position();
                &&& final(self).table() == old(self).table().update(h, (at + 1) as u32)
                &&& if e == 0 || e > at || at + 1 - e > old(self).dictionary_size() {
                    r == (0usize, 0u32)
                } else {
                    &&& r.1 == at - e
                    &&& is_match(
                        old(self).data(),
                        old(self).data_position() as int,
                        r.1 as int,
                        r.0 as int,
                    )
                    &&& r.0 < limit ==> old(self).data()[old(self).data_position() + r.0] != old(
                        self,
                    ).data()[old(self).data_position() + r.0 - r.1 - 1]
                }
            },
    {
        if self.stream_pos - self.pos < HASH_BYTES {
            return (0, 0);
        }
        let h: usize = self.hash_here();
        let e: u32 = self.prev_positions[h];
        self.prev_positions[h] = (self.pos + 1) as u32;
        if e == 0 || e as usize > self.pos {
            return (0, 0);
        }
        let d: usize = self.pos + 1 - e as usize;
        if d > self.dictionary_size as usize {
            return (0, 0);
        }
        let len: usize = self.true_match_len(d as u32, limit);
        (len, (d - 1) as u32)
    }

    /// Moves the position `n` bytes on, recording each position passed over
    /// in the hash table.
    pub fn move_pos(&mut self, n: usize)
        requires
            old(self).wf(),
            n <= old(self).ahead().len(),
        ensures
            final(self).wf(),
            final(self).data() == old(self).data(),
            final(self).data_position() == old(self).data_position() + n,
            final(self).dictionary_size() == old(self).dictionary_size(),
            final(self).at_stream_end() == old(self).at_stream_end(),
            final(self).window_position() == old(self).window_position() + n,
            final(self).table() == moved_table(
                old(self).table(),
                old(self).data(),
                old(self).data_position() as int,
                old(self).window_position() as int,
                0,
                n as nat,
            ),
    {
        let ghost t0 = self.prev_positions@;
        let ghost dp = self.data_position() as int;
        let ghost wp = self.pos as int;
        let mut i: usize = 0;
        while i < n
            invariant
                self.wf(),
                i <= n,
                n <= old(self).ahead().len(),
                self.data() == old(self).data(),
                self.data_position() == old(self).data_position() + i,
                self.dictionary_size() == old(self).dictionary_size(),
                self.at_stream_end() == old(self).at_stream_end(),
                self.pos == wp + i,
                dp == old(self).data_position(),
                wp == old(self).pos,
                t0 == old(self).prev_positions@,
                moved_table(self.prev_positions@, self.data(), dp, wp, i as nat, n as nat)
                    == moved_table(t0, self.data(), dp, wp, 0, n as nat),
            decreases n - i,
        {
            proof {
                let at = dp + i;
                assert(self.data().len() - at == self.stream_pos - self.pos);
                if self.stream_pos - self.pos >= HASH_BYTES {
                    assert(self.ahead()[0] == self.data()[at]);
                    assert(self.ahead()[1] == self.data()[at + 1]);
                    assert(self.ahead()[2] == self.data()[at + 2]);
                    assert(self.ahead()[3] == self.data()[at + 3]);
                }
            }
            if i > 0 && self.stream_pos - self.pos >= HASH_BYTES {
                let h: usize = self.hash_here();
                self.prev_positions[h] = (self.pos + 1) as u32;
            }
            self.pos = self.pos + 1;
            i = i + 1;
        }
    }

    /// Moves the position `n` bytes on, and leaves the hash table as it is.
    pub fn advance(&mut self, n: usize)
        requires
            old(self).wf(),
            n <= old(self).ahead().len(),
        ensures
            final(self).wf(),
            final(self).data() == old(self).data(),
            final(self).data_position() == old(self).data_position() + n,
            final(self).dictionary_size() == old(self).dictionary_size(),
            final(self).at_stream_end() == old(self).at_stream_end(),
            final(self).window_position() == old(self).window_position() + n,
            final(self).table() == old(self).table(),
    {
        self.pos = self.pos + n;
    }

    /// The byte that lies `d` places before the one `i` places after the
    /// position; the window holds it if `d` is within the dictionary.
    pub fn byte_at(&self, i: usize, d: usize) -> (b: u8)
        requires
            self.wf(),
            d <= self.data_position() + i,
            d <= self.dictionary_size() + i,
            d > 0 || i < self.ahead().len(),
            i <= self.ahead().len(),
        ensures
            b == self.data()[self.data_position() + i - d],
    {
        self.buffer[self.pos + i - d]
    }

    /// How many of the bytes from `i` places after the position on, `limit`
    /// at most, repeat those that lie `d` bytes before them.
    pub fn match_len_at(&self, i: usize, d: usize, limit: usize) -> (len: usize)
        requires
            self.wf(),
            1 <= d <= self.data_position() + i,
            d <= self.dictionary_size(),
            i + limit <= self.ahead().len(),
        ensures
            len <= limit,
            is_match(self.data(), self.data_position() + i, d - 1, len as int),
            len < limit ==> self.data()[self.data_position() + i + len] != self.data()[
                self.data_position() + i + len - d],
            len == run_len(self.data(), self.data_position() + i, d as int, limit as nat),
    {
        let from: usize = self.pos + i;
        let mut len: usize = 0;
        while len < limit && self.buffer[from + len] == self.buffer[from + len - d]
            invariant
                self.wf(),
                from == self.pos + i,
                1 <= d <= from,
                len <= limit,
                from + limit <= self.stream_pos,
                is_match(self.data(), self.data_position() + i, d - 1, len as int),
            decreases limit - len,
        {
            proof {
                let dp = self.data_position() as int;
                assert(self.buffer@[from + len] == self.data@[dp + i + len]);
                assert(self.buffer@[from + len - d] == self.data@[dp + i + len - d]);
            }
            len = len + 1;
        }
        proof {
            if len < limit {
                let dp = self.data_position() as int;
                assert(self.buffer@[from + len] == self.data@[dp + i + len]);
                assert(self.buffer@[from + len - d] == self.data@[dp + i + len - d]);
            }
        }
        proof {
            lemma_run_len(
                self.data(),
                self.data_position() + i,
                d as int,
                len as nat,
                limit as nat,
            );
        }
        len
    }
}

} // verus!
