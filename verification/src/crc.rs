//! CRC-32 (the reflected polynomial `0xEDB88320`) of member payloads.

use vstd::prelude::*;

verus! {

/// One step of the bitwise division: shift right, and fold the polynomial in
/// when the bit shifted out was set.
pub open spec fn crc_shift(c: u32) -> u32 {
    if c & 1 == 1 {
        0xEDB8_8320u32 ^ (c >> 1)
    } else {
        c >> 1
    }
}

/// `crc_shift` applied `n` times.
pub open spec fn crc_shift_n(c: u32, n: nat) -> u32
    decreases n,
{
    if n == 0 {
        c
    } else {
        crc_shift(crc_shift_n(c, (n - 1) as nat))
    }
}

/// Entry `n` of the 256-entry lookup table.
pub open spec fn crc_table_entry(n: int) -> u32 {
    crc_shift_n(n as u32, 8)
}

/// The running CRC after one more byte.
pub open spec fn crc_update_byte(crc: u32, b: u8) -> u32 {
    crc_table_entry(((crc ^ (b as u32)) & 0xFF) as int) ^ (crc >> 8)
}

/// The running CRC after all of `data`, starting from `crc`.
pub open spec fn crc_update(crc: u32, data: Seq<u8>) -> u32
    decreases data.len(),
{
    if data.len() == 0 {
        crc
    } else {
        crc_update_byte(crc_update(crc, data.drop_last()), data.last())
    }
}

/// Initial value of a running CRC.
pub const CRC_INIT: u32 = 0xFFFF_FFFF;

/// The CRC-32 of `data`: the running CRC from `CRC_INIT`, complemented.
pub open spec fn crc32(data: Seq<u8>) -> u32 {
    crc_update(CRC_INIT, data) ^ 0xFFFF_FFFFu32
}

/// The running CRC of a concatenation is the running CRC of the second part
/// started from that of the first.
pub proof fn lemma_crc_update_concat(crc: u32, a: Seq<u8>, b: Seq<u8>)
    ensures
        crc_update(crc, a + b) == crc_update(crc_update(crc, a), b),
    decreases b.len(),
{
    if b.len() == 0 {
        assert(a + b =~= a);
    } else {
        lemma_crc_update_concat(crc, a, b.drop_last());
        assert((a + b).drop_last() =~= a + b.drop_last());
        assert((a + b).last() == b.last());
    }
}

/// The running CRC after one byte more than `data`.
pub proof fn lemma_crc_update_push(crc: u32, data: Seq<u8>, b: u8)
    ensures
        crc_update(crc, data.push(b)) == crc_update_byte(crc_update(crc, data), b),
{
    assert(data.push(b).drop_last() =~= data);
}

/// The 256-entry CRC lookup table.
pub struct CrcTable {
    entries: Vec<u32>,
}

impl CrcTable {
    /// Every entry holds the value the definition gives it.
    pub closed spec fn wf(&self) -> bool {
        &&& self.entries@.len() == 256
        &&& forall|i: int| 0 <= i < 256 ==> #[trigger] self.entries@[i] == crc_table_entry(i)
    }

    /// Builds the table.
    pub fn new() -> (t: CrcTable)
        ensures
            t.wf(),
    {
        let mut entries: Vec<u32> = Vec::new();
        let mut n: u32 = 0;
        while n < 256
            invariant
                n <= 256,
                entries@.len() == n,
                forall|i: int| 0 <= i < n ==> #[trigger] entries@[i] == crc_table_entry(i),
            decreases 256 - n,
        {
            let mut c: u32 = n;
            let mut k: u32 = 0;
            while k < 8
                invariant
                    k <= 8,
                    c == crc_shift_n(n, k as nat),
                decreases 8 - k,
            {
                if c & 1 == 1 {
                    c = 0xEDB8_8320u32 ^ (c >> 1);
                } else {
                    c = c >> 1;
                }
                k = k + 1;
            }
            entries.push(c);
            n = n + 1;
        }
        CrcTable { entries }
    }

    /// Folds one byte into a running CRC.
    pub fn update_byte(&self, crc: u32, b: u8) -> (r: u32)
        requires
            self.wf(),
        ensures
            r == crc_update_byte(crc, b),
    {
        let idx: u32 = (crc ^ (b as u32)) & 0xFF;
        assert(idx < 256) by (bit_vector)
            requires
                idx == (crc ^ (b as u32)) & 0xFF,
        ;
        self.entries[idx as usize] ^ (crc >> 8)
    }

    /// Folds `buf[from..to]` into a running CRC.
    pub fn update_range(&self, crc: u32, buf: &[u8], from: usize, to: usize) -> (r: u32)
        requires
            self.wf(),
            from <= to <= buf@.len(),
        ensures
            r == crc_update(crc, buf@.subrange(from as int, to as int)),
    {
        let mut c: u32 = crc;
        let mut i: usize = from;
        while i < to
            invariant
                self.wf(),
                from <= i <= to <= buf@.len(),
                c == crc_update(crc, buf@.subrange(from as int, i as int)),
            decreases to - i,
        {
            proof {
                lemma_crc_update_push(crc, buf@.subrange(from as int, i as int), buf@[i as int]);
                assert(buf@.subrange(from as int, i as int).push(buf@[i as int])
                    =~= buf@.subrange(from as int, i + 1));
            }
            c = self.update_byte(c, buf[i]);
            i = i + 1;
        }
        c
    }

    /// The CRC-32 of a whole buffer.
    pub fn checksum(&self, buf: &[u8]) -> (r: u32)
        requires
            self.wf(),
        ensures
            r == crc32(buf@),
    {
        let c: u32 = self.update_range(CRC_INIT, buf, 0, buf.len());
        assert(buf@.subrange(0, buf@.len() as int) =~= buf@);
        c ^ 0xFFFF_FFFFu32
    }
}

} // verus!
