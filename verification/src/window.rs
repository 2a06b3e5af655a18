//! The decoder's sliding window: a ring that holds the most recent decoded
//! bytes, both as the dictionary that matches copy from and as the queue
//! that the reader drains.

use vstd::prelude::*;
use crate::crc::{CrcTable, crc_update, crc32, lemma_crc_update_push, CRC_INIT};
use crate::lzma::{lz_copy, MIN_DICTIONARY_SIZE, MAX_DICTIONARY_SIZE};

verus! {

/// Room that the ring keeps beyond the dictionary, so that one operation can
/// always be decoded once the reader has caught up.
pub const WINDOW_SLACK: usize = 274;

/// Smallest size of the part of the ring that serves the reader.
pub const MIN_QUEUE_SIZE: usize = 65536;

/// The size of the ring for a dictionary size.
pub open spec fn window_size(dictionary_size: u32) -> int {
    if dictionary_size < MIN_QUEUE_SIZE {
        MIN_QUEUE_SIZE + WINDOW_SLACK
    } else {
        dictionary_size + WINDOW_SLACK
    }
}

/// The sliding window of one member.
pub struct Window {
    buffer: Vec<u8>,
    get: usize,
    put: usize,
    wrapped: bool,
    data_pos: u64,
    dictionary_size: u32,
    crc: u32,
    table: CrcTable,
    data: Ghost<Seq<u8>>,
    delivered: Ghost<nat>,
}

impl Window {
    /// All the bytes decoded into the window since it was made or reset.
    pub closed spec fn data(&self) -> Seq<u8> {
        self.data@
    }

    /// How many of those bytes the reader has taken.
    pub closed spec fn delivered(&self) -> nat {
        self.delivered@
    }

    /// The dictionary size the window was made for.
    pub closed spec fn dictionary_size(&self) -> u32 {
        self.dictionary_size
    }

    /// The bytes decoded and not taken yet.
    pub open spec fn pending(&self) -> Seq<u8> {
        self.data().skip(self.delivered() as int)
    }

    /// Number of bytes that can be decoded before the reader must take some.
    pub open spec fn free_space(&self) -> int {
        window_size(self.dictionary_size()) - 1 - (self.data().len() - self.delivered())
    }

    /// Offset into the data of the byte that slot 0 of the ring holds, or
    /// will hold next.
    spec fn base(&self) -> int {
        self.data@.len() - self.put
    }

    /// The ring holds the last bytes of the data at the places that the
    /// cursors say, and the running CRC is that of the data.
    pub closed spec fn wf(&self) -> bool {
        &&& MIN_DICTIONARY_SIZE <= self.dictionary_size <= MAX_DICTIONARY_SIZE
        &&& self.buffer@.len() == window_size(self.dictionary_size)
        &&& self.put < self.buffer@.len()
        &&& self.get < self.buffer@.len()
        &&& self.data@.len() == self.data_pos
        &&& self.base() >= 0
        &&& !self.wrapped ==> self.base() == 0
        &&& self.wrapped ==> self.base() >= self.buffer@.len()
        &&& forall|j: int| 0 <= j < self.put ==> self.buffer@[j] == self.data@[self.base() + j]
        &&& self.wrapped ==> forall|j: int|
            self.put <= j < self.buffer@.len() ==> self.buffer@[j] == self.data@[self.base()
                - self.buffer@.len() + j]
        &&& self.delivered@ <= self.data@.len()
        &&& self.get <= self.put ==> self.delivered@ == self.base() + self.get
        &&& self.get > self.put ==> self.wrapped && self.delivered@ == self.base()
            - self.buffer@.len() + self.get
        &&& self.crc == crc_update(CRC_INIT, self.data@)
        &&& self.table.wf()
    }

    /// The invariant, in terms a caller can use.
    pub proof fn lemma_wf(&self)
        requires
            self.wf(),
        ensures
            self.delivered() <= self.data().len() <= u64::MAX,
            self.free_space() >= 0,
            MIN_DICTIONARY_SIZE <= self.dictionary_size() <= MAX_DICTIONARY_SIZE,
    {
    }

    /// An empty window for the given dictionary size.
    pub fn new(dictionary_size: u32) -> (w: Window)
        requires
            MIN_DICTIONARY_SIZE <= dictionary_size <= MAX_DICTIONARY_SIZE,
        ensures
            w.wf(),
            w.data() == Seq::<u8>::empty(),
            w.delivered() == 0,
            w.dictionary_size() == dictionary_size,
    {
        let size: usize = if (dictionary_size as usize) < MIN_QUEUE_SIZE {
            MIN_QUEUE_SIZE + WINDOW_SLACK
        } else {
            dictionary_size as usize + WINDOW_SLACK
        };
        Window {
            buffer: vec![0u8; size],
            get: 0,
            put: 0,
            wrapped: false,
            data_pos: 0,
            dictionary_size,
            crc: CRC_INIT,
            table: CrcTable::new(),
            data: Ghost(Seq::empty()),
            delivered: Ghost(0),
        }
    }

    /// Forgets the data, for the next member.
    pub fn reset(&mut self, dictionary_size: u32)
        requires
            old(self).wf(),
            dictionary_size == old(self).dictionary_size(),
        ensures
            final(self).wf(),
            final(self).data() == Seq::<u8>::empty(),
            final(self).delivered() == 0,
            final(self).dictionary_size() == dictionary_size,
    {
        self.get = 0;
        self.put = 0;
        self.wrapped = false;
        self.data_pos = 0;
        self.crc = CRC_INIT;
        self.data = Ghost(Seq::empty());
        self.delivered = Ghost(0);
    }

    /// The dictionary size the window was made for.
    pub fn get_dictionary_size(&self) -> (d: u32)
        ensures
            d == self.dictionary_size(),
    {
        self.dictionary_size
    }

    /// Number of bytes decoded so far.
    pub fn data_position(&self) -> (n: u64)
        requires
            self.wf(),
        ensures
            n == self.data().len(),
    {
        self.data_pos
    }

    /// The CRC-32 of the bytes decoded so far.
    pub fn data_crc(&self) -> (c: u32)
        requires
            self.wf(),
        ensures
            c == crc32(self.data()),
    {
        self.crc ^ 0xFFFF_FFFFu32
    }

    /// Number of bytes decoded and not taken yet.
    pub fn used_bytes(&self) -> (n: usize)
        requires
            self.wf(),
        ensures
            n == self.data().len() - self.delivered(),
    {
        if self.get <= self.put {
            self.put - self.get
        } else {
            self.buffer.len() - self.get + self.put
        }
    }

    /// Number of bytes that can be decoded before the reader must take some.
    pub fn free_bytes(&self) -> (n: usize)
        requires
            self.wf(),
        ensures
            n == self.free_space(),
    {
        self.buffer.len() - 1 - self.used_bytes()
    }

    /// The last byte decoded; 0 if there is none.
    pub fn prev_byte(&self) -> (b: u8)
        requires
            self.wf(),
        ensures
            b == if self.data().len() > 0 {
                self.data().last()
            } else {
                0
            },
    {
        if self.put > 0 {
            self.buffer[self.put - 1]
        } else if self.wrapped {
            self.buffer[self.buffer.len() - 1]
        } else {
            0
        }
    }

    /// The byte `distance + 1` back from the end of the data.
    pub fn peek(&self, distance: u32) -> (b: u8)
        requires
            self.wf(),
            distance < self.data().len(),
            distance < self.dictionary_size(),
        ensures
            b == self.data()[self.data().len() - 1 - distance],
    {
        let d: usize = distance as usize;
        if self.put > d {
            self.buffer[self.put - d - 1]
        } else {
            self.buffer[self.buffer.len() - 1 - d + self.put]
        }
    }

    /// Decodes one byte into the window.
    pub fn put_byte(&mut self, b: u8)
        requires
            old(self).wf(),
            old(self).free_space() >= 1,
            old(self).data().len() < u64::MAX,
        ensures
            final(self).wf(),
            final(self).data() == old(self).data().push(b),
            final(self).delivered() == old(self).delivered(),
            final(self).dictionary_size() == old(self).dictionary_size(),
    {
        let size: usize = self.buffer.len();
        let p: usize = self.put;
        proof {
            lemma_crc_update_push(CRC_INIT, self.data@, b);
        }
        self.crc = self.table.update_byte(self.crc, b);
        self.buffer[p] = b;
        self.data_pos = self.data_pos + 1;
        self.data = Ghost(self.data@.push(b));
        if p + 1 < size {
            self.put = p + 1;
        } else {
            self.put = 0;
            self.wrapped = true;
        }
    }

    /// Decodes `len` bytes into the window, each a copy of the byte
    /// `distance + 1` back.
    pub fn copy_block(&mut self, distance: u32, len: u32)
        requires
            old(self).wf(),
            distance < old(self).data().len(),
            distance < old(self).dictionary_size(),
            old(self).free_space() >= len,
            old(self).data().len() + len <= u64::MAX,
        ensures
            final(self).wf(),
            final(self).data() == lz_copy(old(self).data(), distance as int, len as nat),
            final(self).delivered() == old(self).delivered(),
            final(self).dictionary_size() == old(self).dictionary_size(),
    {
        let mut i: u32 = 0;
        while i < len
            invariant
                self.wf(),
                i <= len,
                distance < self.data().len(),
                distance < self.dictionary_size(),
                self.free_space() >= len - i,
                self.data().len() + (len - i) <= u64::MAX,
                self.delivered() == old(self).delivered(),
                self.dictionary_size() == old(self).dictionary_size(),
                lz_copy(self.data(), distance as int, (len - i) as nat) == lz_copy(
                    old(self).data(),
                    distance as int,
                    len as nat,
                ),
            decreases len - i,
        {
            let b: u8 = self.peek(distance);
            self.put_byte(b);
            i = i + 1;
        }
    }

    /// Moves all the pending bytes to the end of `out`.
    pub fn drain_to(&mut self, out: &mut Vec<u8>)
        requires
            old(self).wf(),
        ensures
            final(self).wf(),
            final(self).data() == old(self).data(),
            final(self).dictionary_size() == old(self).dictionary_size(),
            final(self).delivered() == final(self).data().len(),
            final(out)@ == old(out)@ + old(self).pending(),
    {
        let size: usize = self.buffer.len();
        let used: usize = self.used_bytes();
        let mut i: usize = 0;
        proof {
            assert(old(out)@ + old(self).pending().subrange(0, 0) =~= old(out)@);
        }
        while i < used
            invariant
                self.wf(),
                self.data() == old(self).data(),
                self.dictionary_size() == old(self).dictionary_size(),
                size == self.buffer@.len(),
                i <= used,
                used == old(self).pending().len(),
                self.delivered() == old(self).delivered() + i,
                out@ == old(out)@ + old(self).pending().subrange(0, i as int),
            decreases used - i,
        {
            let b: u8 = self.buffer[self.get];
            assert(b == self.data@[self.delivered@ as int]);
            out.push(b);
            if self.get + 1 < size {
                self.get = self.get + 1;
            } else {
                self.get = 0;
            }
            self.delivered = Ghost((self.delivered@ + 1) as nat);
            i = i + 1;
            proof {
                let pend = old(self).pending();
                assert(b == pend[i - 1]);
                assert(pend.subrange(0, i as int) =~= pend.subrange(0, i - 1).push(b));
                assert(out@ =~= old(out)@ + pend.subrange(0, i as int));
            }
        }
        proof {
            assert(old(self).pending().subrange(0, used as int) =~= old(self).pending());
        }
    }

    /// Moves as many of the pending bytes as fit into the front of `out`, and
    /// returns how many were moved.
    pub fn read_data(&mut self, out: &mut [u8]) -> (n: usize)
        requires
            old(self).wf(),
        ensures
            final(self).wf(),
            final(self).data() == old(self).data(),
            final(self).dictionary_size() == old(self).dictionary_size(),
            n == if old(out)@.len() <= old(self).pending().len() {
                old(out)@.len()
            } else {
                old(self).pending().len()
            },
            final(self).delivered() == old(self).delivered() + n,
            final(out)@.len() == old(out)@.len(),
            final(out)@.subrange(0, n as int) == old(self).pending().subrange(0, n as int),
            final(out)@.subrange(n as int, old(out)@.len() as int) == old(out)@.subrange(
                n as int,
                old(out)@.len() as int,
            ),
    {
        let size: usize = self.buffer.len();
        let used: usize = self.used_bytes();
        let n: usize = if out.len() <= used {
            out.len()
        } else {
            used
        };
        let mut i: usize = 0;
        while i < n
            invariant
                self.wf(),
                self.data() == old(self).data(),
                self.dictionary_size() == old(self).dictionary_size(),
                size == self.buffer@.len(),
                i <= n,
                n <= old(self).pending().len(),
                n <= old(out)@.len(),
                out@.len() == old(out)@.len(),
                self.delivered() == old(self).delivered() + i,
                out@.subrange(0, i as int) == old(self).pending().subrange(0, i as int),
                out@.subrange(i as int, out@.len() as int) == old(out)@.subrange(
                    i as int,
                    out@.len() as int,
                ),
            decreases n - i,
        {
            let ghost before = out@;
            let b: u8 = self.buffer[self.get];
            assert(b == self.data@[self.delivered@ as int]);
            out[i] = b;
            if self.get + 1 < size {
                self.get = self.get + 1;
            } else {
                self.get = 0;
            }
            self.delivered = Ghost((self.delivered@ + 1) as nat);
            i = i + 1;
            proof {
                let pend = old(self).pending();
                assert(b == pend[i - 1]);
                assert(out@.subrange(0, i as int) =~= before.subrange(0, i - 1).push(b));
                assert(pend.subrange(0, i as int) =~= pend.subrange(0, i - 1).push(b));
                assert(out@.subrange(i as int, out@.len() as int) =~= before.subrange(
                    i - 1,
                    out@.len() as int,
                ).skip(1));
                assert(old(out)@.subrange(i as int, out@.len() as int) =~= old(out)@.subrange(
                    i - 1,
                    out@.len() as int,
                ).skip(1));
            }
        }
        n
    }
}

} // verus!
