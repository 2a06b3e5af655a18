//! A bounded byte queue with one producer and one consumer.

use vstd::prelude::*;

verus! {

/// A fixed-capacity first-in first-out queue of bytes, kept in a ring.
pub struct CircularBuffer {
    buffer: Vec<u8>,
    get: usize,
    put: usize,
}

impl View for CircularBuffer {
    type V = Seq<u8>;

    /// The queued bytes, oldest first.
    closed spec fn view(&self) -> Seq<u8> {
        if self.get <= self.put {
            self.buffer@.subrange(self.get as int, self.put as int)
        } else {
            self.buffer@.subrange(self.get as int, self.buffer@.len() as int)
                + self.buffer@.subrange(0, self.put as int)
        }
    }
}

impl CircularBuffer {
    /// The two cursors lie inside the ring.
    pub closed spec fn wf(&self) -> bool {
        &&& self.buffer@.len() >= 1
        &&& self.get < self.buffer@.len()
        &&& self.put < self.buffer@.len()
    }

    /// The largest number of bytes the queue can hold.
    pub closed spec fn capacity(&self) -> nat {
        (self.buffer@.len() - 1) as nat
    }

    /// A well-formed queue never holds more than its capacity.
    pub proof fn lemma_len_bound(&self)
        requires
            self.wf(),
        ensures
            self@.len() <= self.capacity(),
    {
    }

    /// An empty queue of the given capacity.
    pub fn new(capacity: usize) -> (cb: CircularBuffer)
        requires
            capacity < usize::MAX,
        ensures
            cb.wf(),
            cb@ == Seq::<u8>::empty(),
            cb.capacity() == capacity,
    {
        let buffer: Vec<u8> = vec![0u8; capacity + 1];
        let cb = CircularBuffer { buffer, get: 0, put: 0 };
        assert(cb@ =~= Seq::<u8>::empty());
        cb
    }

    /// Drops everything queued.
    pub fn reset(&mut self)
        requires
            old(self).wf(),
        ensures
            final(self).wf(),
            final(self)@ == Seq::<u8>::empty(),
            final(self).capacity() == old(self).capacity(),
    {
        self.get = 0;
        self.put = 0;
        assert(self@ =~= Seq::<u8>::empty());
    }

    /// Number of bytes queued (`available`).
    pub fn used_bytes(&self) -> (n: usize)
        requires
            self.wf(),
        ensures
            n == self@.len(),
            n <= self.capacity(),
    {
        if self.get <= self.put {
            self.put - self.get
        } else {
            self.buffer.len() - self.get + self.put
        }
    }

    /// Number of bytes that can still be queued (`free_space`).
    pub fn free_bytes(&self) -> (n: usize)
        requires
            self.wf(),
        ensures
            n == self.capacity() - self@.len(),
    {
        self.buffer.len() - 1 - self.used_bytes()
    }

    /// Whether nothing is queued.
    pub fn is_empty(&self) -> (b: bool)
        requires
            self.wf(),
        ensures
            b == (self@.len() == 0),
    {
        self.get == self.put
    }

    /// The `i`-th queued byte, counted from the oldest, left in place.
    pub fn peek(&self, i: usize) -> (b: u8)
        requires
            self.wf(),
            i < self@.len(),
        ensures
            b == self@[i as int],
    {
        let n: usize = self.buffer.len();
        if i < n - self.get {
            self.buffer[self.get + i]
        } else {
            self.buffer[i - (n - self.get)]
        }
    }

    /// Takes the oldest byte out (`pop_byte`).
    pub fn get_byte(&mut self) -> (b: u8)
        requires
            old(self).wf(),
            old(self)@.len() > 0,
        ensures
            final(self).wf(),
            b == old(self)@[0],
            final(self)@ == old(self)@.skip(1),
            final(self).capacity() == old(self).capacity(),
    {
        let size: usize = self.buffer.len();
        let b: u8 = self.buffer[self.get];
        self.get = self.get + 1;
        if self.get >= size {
            self.get = 0;
        }
        assert(self@ =~= old(self)@.skip(1));
        b
    }

    /// Adds a byte at the end (`push_byte`).
    pub fn put_byte(&mut self, b: u8)
        requires
            old(self).wf(),
            old(self)@.len() < old(self).capacity(),
        ensures
            final(self).wf(),
            final(self)@ == old(self)@.push(b),
            final(self).capacity() == old(self).capacity(),
    {
        let size: usize = self.buffer.len();
        let p: usize = self.put;
        self.buffer[p] = b;
        self.put = p + 1;
        if self.put >= size {
            self.put = 0;
        }
        assert(self@ =~= old(self)@.push(b));
    }

    /// Drops the `n` oldest bytes.
    pub fn skip(&mut self, n: usize)
        requires
            old(self).wf(),
            n <= old(self)@.len(),
        ensures
            final(self).wf(),
            final(self)@ == old(self)@.skip(n as int),
            final(self).capacity() == old(self).capacity(),
    {
        let size: usize = self.buffer.len();
        if n < size - self.get {
            self.get = self.get + n;
        } else {
            self.get = n - (size - self.get);
        }
        assert(self@ =~= old(self)@.skip(n as int));
    }

    /// Drops the `n` newest bytes.
    pub fn unput(&mut self, n: usize)
        requires
            old(self).wf(),
            n <= old(self)@.len(),
        ensures
            final(self).wf(),
            final(self)@ == old(self)@.take(old(self)@.len() - n),
            final(self).capacity() == old(self).capacity(),
    {
        let size: usize = self.buffer.len();
        if n <= self.put {
            self.put = self.put - n;
        } else {
            self.put = size - (n - self.put);
        }
        assert(self@ =~= old(self)@.take(old(self)@.len() - n));
    }

    /// Moves as many of the oldest bytes as fit into the front of `out`, and
    /// returns how many were moved.
    pub fn read_data(&mut self, out: &mut [u8]) -> (n: usize)
        requires
            old(self).wf(),
        ensures
            final(self).wf(),
            final(self).capacity() == old(self).capacity(),
            n == if old(out)@.len() <= old(self)@.len() {
                old(out)@.len()
            } else {
                old(self)@.len()
            },
            final(out)@.len() == old(out)@.len(),
            final(out)@.subrange(0, n as int) == old(self)@.subrange(0, n as int),
            final(out)@.subrange(n as int, old(out)@.len() as int) == old(out)@.subrange(
                n as int,
                old(out)@.len() as int,
            ),
            final(self)@ == old(self)@.skip(n as int),
    {
        let used: usize = self.used_bytes();
        let n: usize = if out.len() <= used {
            out.len()
        } else {
            used
        };
        let mut i: usize = 0;
        while i < n
            invariant
                self.wf(),
                self.capacity() == old(self).capacity(),
                i <= n,
                n <= old(self)@.len(),
                n <= old(out)@.len(),
                out@.len() == old(out)@.len(),
                self@ == old(self)@.skip(i as int),
                out@.subrange(0, i as int) == old(self)@.subrange(0, i as int),
                out@.subrange(i as int, out@.len() as int) == old(out)@.subrange(
                    i as int,
                    out@.len() as int,
                ),
            decreases n - i,
        {
            let ghost before = out@;
            let b: u8 = self.get_byte();
            out[i] = b;
            i = i + 1;
            proof {
                assert(out@ == before.update(i - 1, b));
                assert(b == old(self)@[i - 1]);
                assert(out@.subrange(0, i as int) =~= before.subrange(0, i - 1).push(b));
                assert(old(self)@.subrange(0, i as int) =~= old(self)@.subrange(0, i - 1).push(b));
                assert(out@.subrange(i as int, out@.len() as int) =~= before.subrange(
                    i - 1,
                    out@.len() as int,
                ).skip(1));
                assert(old(out)@.subrange(i as int, out@.len() as int) =~= old(out)@.subrange(
                    i - 1,
                    out@.len() as int,
                ).skip(1));
                assert(self@ =~= old(self)@.skip(i as int));
            }
        }
        n
    }

    /// Queues as many bytes of `data[from..]` as fit, and returns how many
    /// were queued.
    pub fn write_data(&mut self, data: &[u8], from: usize) -> (n: usize)
        requires
            old(self).wf(),
            from <= data@.len(),
        ensures
            final(self).wf(),
            final(self).capacity() == old(self).capacity(),
            n == if data@.len() - from <= old(self).capacity() - old(self)@.len() {
                data@.len() - from
            } else {
                old(self).capacity() - old(self)@.len()
            },
            final(self)@ == old(self)@ + data@.subrange(from as int, from + n),
    {
        let free: usize = self.free_bytes();
        let n: usize = if data.len() - from <= free {
            data.len() - from
        } else {
            free
        };
        let mut i: usize = 0;
        while i < n
            invariant
                self.wf(),
                self.capacity() == old(self).capacity(),
                i <= n,
                from + n <= data@.len(),
                data@.len() <= usize::MAX,
                n <= old(self).capacity() - old(self)@.len(),
                self@ == old(self)@ + data@.subrange(from as int, from + i),
            decreases n - i,
        {
            self.put_byte(data[from + i]);
            i = i + 1;
            assert(self@ =~= old(self)@ + data@.subrange(from as int, from + i));
        }
        n
    }
}

} // verus!
