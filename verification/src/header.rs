//! The frame of a member: six bytes of header before the payload and twenty
//! bytes of trailer after it.

use vstd::prelude::*;
use vstd::arithmetic::power2::{pow2, lemma_pow2_unfold, lemma_pow2_strictly_increases, lemma2_to64};
use vstd::bits::lemma_u32_shl_is_mul;
use crate::lzma::{MIN_DICTIONARY_SIZE, MAX_DICTIONARY_SIZE, MIN_DICTIONARY_BITS, MAX_DICTIONARY_BITS};

verus! {

/// Size of a header.
pub const HEADER_SIZE: usize = 6;

/// Size of a trailer.
pub const TRAILER_SIZE: usize = 20;

/// The version of the format.
pub const VERSION: u8 = 1;

/// The four bytes every member starts with: `LZIP`.
pub open spec fn magic() -> Seq<u8> {
    seq![0x4Cu8, 0x5Au8, 0x49u8, 0x50u8]
}

/// Whether a size is one a dictionary can have.
pub open spec fn valid_dictionary_size(size: int) -> bool {
    MIN_DICTIONARY_SIZE <= size <= MAX_DICTIONARY_SIZE
}

/// The size that a header byte stands for: its low five bits are an exponent
/// of 2, and its high three bits count the sixteenths taken off that power.
/// Nothing is taken off the smallest size.
pub open spec fn coded_dictionary_size(b: u8) -> int {
    let base = pow2((b % 32) as nat) as int;
    if base > MIN_DICTIONARY_SIZE {
        base - (base / 16) * (b / 32)
    } else {
        base
    }
}

/// Number of bits of `v`: the least `k` with `v < 2^k`.
pub open spec fn real_bits(v: nat) -> nat
    decreases v,
{
    if v == 0 {
        0
    } else {
        1 + real_bits(v / 2)
    }
}

/// The greatest count of sixteenths, at most `f`, that can be taken off
/// `base` without going below `size`.
pub open spec fn best_fraction(size: int, base: int, f: nat) -> nat
    decreases f,
{
    if f == 0 {
        0
    } else if base - (base / 16) * f >= size {
        f
    } else {
        best_fraction(size, base, (f - 1) as nat)
    }
}

/// The header byte for a dictionary size: the least power of 2 that holds
/// the size, less as many sixteenths as the size allows.
pub open spec fn dictionary_byte(size: u32) -> u8 {
    let bits = real_bits((size - 1) as nat);
    let f = if size > MIN_DICTIONARY_SIZE {
        best_fraction(size as int, pow2(bits) as int, 7)
    } else {
        0
    };
    (bits + 32 * f) as u8
}

/// A number has at most `k` bits exactly when it is below `2^k`.
pub proof fn lemma_real_bits(v: nat, k: nat)
    ensures
        real_bits(v) <= k <==> v < pow2(k),
    decreases v,
{
    lemma2_to64();
    if v == 0 {
        vstd::arithmetic::power2::lemma_pow2_pos(k);
    } else if k == 0 {
    } else {
        lemma_real_bits(v / 2, (k - 1) as nat);
        lemma_pow2_unfold(k);
    }
}

/// The fraction that `best_fraction` picks is at most its limit and leaves
/// at least `size`.
pub proof fn lemma_best_fraction(size: int, base: int, f: nat)
    requires
        base >= size,
    ensures
        best_fraction(size, base, f) <= f,
        base - (base / 16) * best_fraction(size, base, f) >= size,
    decreases f,
{
    if f > 0 && !(base - (base / 16) * f >= size) {
        lemma_best_fraction(size, base, (f - 1) as nat);
    }
}

/// The byte chosen for a valid dictionary size stands for a valid size that
/// is not below the one asked for, and whose power of 2 is the least that
/// holds it.
pub proof fn lemma_dictionary_byte(size: u32)
    requires
        valid_dictionary_size(size as int),
    ensures
        MIN_DICTIONARY_BITS <= dictionary_byte(size) % 32 <= MAX_DICTIONARY_BITS,
        size <= coded_dictionary_size(dictionary_byte(size)) <= pow2(
            (dictionary_byte(size) % 32) as nat,
        ),
        pow2((dictionary_byte(size) % 32) as nat) < 2 * size,
        valid_dictionary_size(coded_dictionary_size(dictionary_byte(size))),
{
    lemma2_to64();
    let bits = real_bits((size - 1) as nat);
    lemma_real_bits((size - 1) as nat, 29);
    lemma_real_bits((size - 1) as nat, 11);
    lemma_real_bits((size - 1) as nat, bits);
    lemma_real_bits((size - 1) as nat, (bits - 1) as nat);
    lemma_pow2_unfold(bits);
    let base = pow2(bits) as int;
    if bits < 29 {
        lemma_pow2_strictly_increases(bits, 29);
    }
    if bits > 12 {
        lemma_pow2_strictly_increases(12, bits);
    }
    let f = if size > MIN_DICTIONARY_SIZE {
        best_fraction(size as int, base, 7)
    } else {
        0
    };
    if size > MIN_DICTIONARY_SIZE {
        lemma_best_fraction(size as int, base, 7);
    }
    assert((base / 16) * f >= 0) by (nonlinear_arith)
        requires
            base >= 0,
            f >= 0,
    ;
    let b = dictionary_byte(size);
    assert(b == bits + 32 * f);
    assert(b % 32 == bits);
    assert(b / 32 == f);
}

/// The size a header byte stands for, if it is one a dictionary can have.
pub fn decode_dictionary_size(b: u8) -> (r: Option<u32>)
    ensures
        r is Some <==> valid_dictionary_size(coded_dictionary_size(b)),
        r matches Some(size) ==> size == coded_dictionary_size(b),
{
    let bits: u32 = (b % 32) as u32;
    let f: u32 = (b / 32) as u32;
    proof {
        lemma2_to64();
        if bits < 12 {
            lemma_pow2_strictly_increases(bits as nat, 12);
        }
        if bits == 31 {
            lemma_pow2_unfold(31);
        }
        lemma_u32_shl_is_mul(1, bits);
    }
    if bits < MIN_DICTIONARY_BITS || bits > MAX_DICTIONARY_BITS + 1 {
        assert(bits == 31 ==> coded_dictionary_size(b) >= pow2(31) - (pow2(31) / 16) * 7);
        return None;
    }
    let base: u32 = 1u32 << bits;
    proof {
        if bits > 12 {
            lemma_pow2_strictly_increases(12, bits as nat);
        }
        if bits < 30 {
            lemma_pow2_strictly_increases(bits as nat, 30);
        }
        assert((base / 16) * f <= (base / 16) * 7 && (base / 16) * f >= 0) by (nonlinear_arith)
            requires
                0 <= f <= 7,
                base >= 0,
        ;
    }
    let size: u32 = if base > MIN_DICTIONARY_SIZE {
        base - (base / 16) * f
    } else {
        base
    };
    if size <= MAX_DICTIONARY_SIZE {
        Some(size)
    } else {
        None
    }
}

/// The header byte for a dictionary size.
pub fn encode_dictionary_size(size: u32) -> (b: u8)
    requires
        valid_dictionary_size(size as int),
    ensures
        b == dictionary_byte(size),
        valid_dictionary_size(coded_dictionary_size(b)),
        coded_dictionary_size(b) >= size,
{
    proof {
        lemma_dictionary_byte(size);
        lemma2_to64();
        lemma_real_bits((size - 1) as nat, 29);
    }
    let mut bits: u32 = 0;
    let mut v: u32 = size - 1;
    while v > 0
        invariant
            bits + real_bits(v as nat) == real_bits((size - 1) as nat),
            real_bits((size - 1) as nat) <= 29,
        decreases v,
    {
        v = v / 2;
        bits = bits + 1;
    }
    let mut f: u32 = 0;
    if size > MIN_DICTIONARY_SIZE {
        proof {
            lemma_u32_shl_is_mul(1, bits);
            if bits < 29 {
                lemma_pow2_strictly_increases(bits as nat, 29);
            }
        }
        let base: u32 = 1u32 << bits;
        let fraction: u32 = base / 16;
        let mut cut: u32 = fraction * 7;
        f = 7;
        while f > 0 && base - cut < size
            invariant
                f <= 7,
                base == pow2(bits as nat),
                base <= MAX_DICTIONARY_SIZE,
                fraction == base / 16,
                cut == fraction * f,
                cut <= base,
                best_fraction(size as int, base as int, f as nat) == best_fraction(
                    size as int,
                    base as int,
                    7,
                ),
            decreases f,
        {
            assert(fraction * (f - 1) == fraction * f - fraction && fraction * (f - 1) >= 0)
                by (nonlinear_arith)
                requires
                    f >= 1,
            ;
            f = f - 1;
            cut = cut - fraction;
        }
    }
    (bits + 32 * f) as u8
}

/// The six bytes of the header for a coded dictionary size.
pub open spec fn header_bytes(dictionary_byte: u8) -> Seq<u8> {
    magic().push(VERSION).push(dictionary_byte)
}

/// What a header is rejected for.
#[derive(Clone, Copy, Debug, PartialEq, Eq, Structural)]
pub enum HeaderFault {
    /// The first four bytes are not `LZIP`.
    BadMagic,
    /// The version is not 1.
    BadVersion,
    /// The dictionary size is not one a dictionary can have.
    BadDictionarySize,
}

/// The dictionary size that six bytes announce, or what is wrong with them:
/// the magic is looked at first, then the version, then the size.
pub open spec fn parse_header(h: Seq<u8>) -> Result<u32, HeaderFault> {
    if h.subrange(0, 4) != magic() {
        Err(HeaderFault::BadMagic)
    } else if h[4] != VERSION {
        Err(HeaderFault::BadVersion)
    } else if !valid_dictionary_size(coded_dictionary_size(h[5])) {
        Err(HeaderFault::BadDictionarySize)
    } else {
        Ok(coded_dictionary_size(h[5]) as u32)
    }
}

/// The header for a dictionary size.
pub fn make_header(dictionary_size: u32) -> (h: [u8; 6])
    requires
        valid_dictionary_size(dictionary_size as int),
    ensures
        h@ == header_bytes(dictionary_byte(dictionary_size)),
        parse_header(h@) == Ok::<u32, HeaderFault>(
            coded_dictionary_size(dictionary_byte(dictionary_size)) as u32,
        ),
{
    let b: u8 = encode_dictionary_size(dictionary_size);
    let h: [u8; 6] = [0x4C, 0x5A, 0x49, 0x50, VERSION, b];
    assert(h@ =~= header_bytes(b));
    assert(h@.subrange(0, 4) =~= magic());
    h
}

/// Reads a header.
pub fn read_header(h: &[u8; 6]) -> (r: Result<u32, HeaderFault>)
    ensures
        r == parse_header(h@),
{
    let ok: bool = h[0] == 0x4C && h[1] == 0x5A && h[2] == 0x49 && h[3] == 0x50;
    proof {
        let m = h@.subrange(0, 4);
        if ok {
            assert(m =~= magic());
        } else {
            assert(m[0] == h@[0] && m[1] == h@[1] && m[2] == h@[2] && m[3] == h@[3]);
            assert(magic()[0] == 0x4C && magic()[1] == 0x5A && magic()[2] == 0x49 && magic()[3]
                == 0x50);
        }
    }
    if !ok {
        Err(HeaderFault::BadMagic)
    } else if h[4] != VERSION {
        Err(HeaderFault::BadVersion)
    } else {
        match decode_dictionary_size(h[5]) {
            Some(size) => Ok(size),
            None => Err(HeaderFault::BadDictionarySize),
        }
    }
}

/// The value that `bytes` hold, lowest byte first.
pub open spec fn le_value(bytes: Seq<u8>) -> nat
    decreases bytes.len(),
{
    if bytes.len() == 0 {
        0
    } else {
        bytes[0] as nat + 256 * le_value(bytes.skip(1))
    }
}

/// The `n` lowest bytes of `v`, lowest first.
pub open spec fn le_bytes(v: nat, n: nat) -> Seq<u8>
    decreases n,
{
    if n == 0 {
        Seq::empty()
    } else {
        seq![(v % 256) as u8] + le_bytes(v / 256, (n - 1) as nat)
    }
}

/// The bytes of a value that fits them hold that value.
pub proof fn lemma_le_round_trip(v: nat, n: nat)
    requires
        v < vstd::arithmetic::power::pow(256, n),
    ensures
        le_bytes(v, n).len() == n,
        le_value(le_bytes(v, n)) == v,
    decreases n,
{
    vstd::arithmetic::power::lemma_pow0(256);
    if n > 0 {
        reveal(vstd::arithmetic::power::pow);
        assert(vstd::arithmetic::power::pow(256, n) == 256 * vstd::arithmetic::power::pow(
            256,
            (n - 1) as nat,
        ));
        lemma_le_round_trip(v / 256, (n - 1) as nat);
        let s = le_bytes(v, n);
        assert(s.skip(1) =~= le_bytes(v / 256, (n - 1) as nat));
    }
}

/// The length of `le_bytes`.
pub proof fn lemma_le_bytes_len(v: nat, n: nat)
    ensures
        le_bytes(v, n).len() == n,
    decreases n,
{
    if n > 0 {
        lemma_le_bytes_len(v / 256, (n - 1) as nat);
    }
}

/// Sequences of one length that hold the same value are the same.
pub proof fn lemma_le_value_injective(a: Seq<u8>, b: Seq<u8>)
    requires
        a.len() == b.len(),
        le_value(a) == le_value(b),
    ensures
        a == b,
    decreases a.len(),
{
    if a.len() > 0 {
        lemma_le_value_injective(a.skip(1), b.skip(1));
        assert(a =~= seq![a[0]] + a.skip(1));
        assert(b =~= seq![b[0]] + b.skip(1));
    } else {
        assert(a =~= b);
    }
}

/// What a trailer holds.
#[derive(Clone, Copy, Debug, PartialEq, Eq, Structural)]
pub struct Trailer {
    /// CRC-32 of the decompressed data.
    pub data_crc: u32,
    /// Size of the decompressed data.
    pub data_size: u64,
    /// Size of the member, header and trailer included.
    pub member_size: u64,
}

/// The twenty bytes of a trailer.
pub open spec fn trailer_bytes(t: Trailer) -> Seq<u8> {
    le_bytes(t.data_crc as nat, 4) + le_bytes(t.data_size as nat, 8) + le_bytes(
        t.member_size as nat,
        8,
    )
}

/// The trailer that twenty bytes hold.
pub open spec fn parse_trailer(bytes: Seq<u8>) -> Trailer {
    Trailer {
        data_crc: le_value(bytes.subrange(0, 4)) as u32,
        data_size: le_value(bytes.subrange(4, 12)) as u64,
        member_size: le_value(bytes.subrange(12, 20)) as u64,
    }
}

/// The value of at most eight bytes fits 64 bits.
pub proof fn lemma_le_value_bound(bytes: Seq<u8>)
    requires
        bytes.len() <= 8,
    ensures
        le_value(bytes) < vstd::arithmetic::power::pow(256, bytes.len()),
        bytes.len() == 4 ==> le_value(bytes) <= u32::MAX,
        le_value(bytes) <= u64::MAX,
    decreases bytes.len(),
{
    reveal(vstd::arithmetic::power::pow);
    lemma_pow256();
    if bytes.len() > 0 {
        lemma_le_value_bound(bytes.skip(1));
        assert(vstd::arithmetic::power::pow(256, bytes.len()) == 256 * vstd::arithmetic::power::pow(
            256,
            (bytes.len() - 1) as nat,
        ));
        lemma_pow256_mono((bytes.len() - 1) as nat);
    }
    lemma_pow256_mono(bytes.len());
}

/// The powers of 256 that matter here.
pub proof fn lemma_pow256()
    ensures
        vstd::arithmetic::power::pow(256, 0) == 1,
        vstd::arithmetic::power::pow(256, 4) == 0x1_0000_0000,
        vstd::arithmetic::power::pow(256, 8) == 0x1_0000_0000_0000_0000,
{
    reveal_with_fuel(vstd::arithmetic::power::pow, 9);
}

/// Up to the eighth, the powers of 256 stay within 64 bits.
pub proof fn lemma_pow256_mono(n: nat)
    requires
        n <= 8,
    ensures
        0 < vstd::arithmetic::power::pow(256, n) <= 0x1_0000_0000_0000_0000,
{
    reveal_with_fuel(vstd::arithmetic::power::pow, 9);
}

/// Parsing the bytes of a trailer gives the trailer back.
pub proof fn lemma_trailer_round_trip(t: Trailer)
    ensures
        trailer_bytes(t).len() == TRAILER_SIZE,
        parse_trailer(trailer_bytes(t)) == t,
{
    lemma_pow256();
    lemma_le_round_trip(t.data_crc as nat, 4);
    lemma_le_round_trip(t.data_size as nat, 8);
    lemma_le_round_trip(t.member_size as nat, 8);
    let b = trailer_bytes(t);
    assert(b.subrange(0, 4) =~= le_bytes(t.data_crc as nat, 4));
    assert(b.subrange(4, 12) =~= le_bytes(t.data_size as nat, 8));
    assert(b.subrange(12, 20) =~= le_bytes(t.member_size as nat, 8));
}

/// Two runs of twenty bytes that parse to the same trailer are the same.
pub proof fn lemma_parse_trailer_injective(a: Seq<u8>, b: Seq<u8>)
    requires
        a.len() == TRAILER_SIZE,
        b.len() == TRAILER_SIZE,
        parse_trailer(a) == parse_trailer(b),
    ensures
        a == b,
{
    lemma_le_value_bound(a.subrange(0, 4));
    lemma_le_value_bound(b.subrange(0, 4));
    lemma_le_value_bound(a.subrange(4, 12));
    lemma_le_value_bound(b.subrange(4, 12));
    lemma_le_value_bound(a.subrange(12, 20));
    lemma_le_value_bound(b.subrange(12, 20));
    lemma_le_value_injective(a.subrange(0, 4), b.subrange(0, 4));
    lemma_le_value_injective(a.subrange(4, 12), b.subrange(4, 12));
    lemma_le_value_injective(a.subrange(12, 20), b.subrange(12, 20));
    assert(a =~= a.subrange(0, 4) + a.subrange(4, 12) + a.subrange(12, 20));
    assert(b =~= b.subrange(0, 4) + b.subrange(4, 12) + b.subrange(12, 20));
}

/// Appends the `n` lowest bytes of `v`, lowest first.
pub fn push_le(out: &mut Vec<u8>, v: u64, n: usize)
    requires
        n <= 8,
    ensures
        final(out)@ == old(out)@ + le_bytes(v as nat, n as nat),
{
    let mut x: u64 = v;
    let mut i: usize = 0;
    let ghost mut done: Seq<u8> = Seq::empty();
    while i < n
        invariant
            i <= n,
            done.len() == i,
            out@ == old(out)@ + done,
            done + le_bytes(x as nat, (n - i) as nat) == le_bytes(v as nat, n as nat),
        decreases n - i,
    {
        let b: u8 = (x % 256) as u8;
        proof {
            let rest = le_bytes((x / 256) as nat, (n - i - 1) as nat);
            assert(le_bytes(x as nat, (n - i) as nat) == seq![b] + rest);
            assert(done.push(b) + rest =~= done + (seq![b] + rest));
            assert(old(out)@ + done.push(b) =~= (old(out)@ + done).push(b));
            done = done.push(b);
        }
        out.push(b);
        x = x / 256;
        i = i + 1;
    }
    proof {
        assert(done + le_bytes(x as nat, 0) =~= done);
    }
}

/// The value that `buf[from..from + n]` holds, lowest byte first.
pub fn read_le(buf: &[u8], from: usize, n: usize) -> (v: u64)
    requires
        n <= 8,
        from + n <= buf@.len(),
    ensures
        v == le_value(buf@.subrange(from as int, from + n)),
{
    let total: usize = buf.len();
    let mut v: u64 = 0;
    let mut i: usize = n;
    proof {
        assert(buf@.subrange(from + n, from + n) =~= Seq::<u8>::empty());
    }
    while i > 0
        invariant
            buf@.len() == total,
            i <= n <= 8,
            from + n <= buf@.len(),
            v == le_value(buf@.subrange(from + i, from + n)),
        decreases i,
    {
        i = i - 1;
        proof {
            let s = buf@.subrange(from + i, from + n);
            assert(s.skip(1) =~= buf@.subrange(from + i + 1, from + n));
            lemma_le_value_bound(s);
            assert(le_value(s) == s[0] as nat + 256 * le_value(s.skip(1)));
            assert(v == le_value(s.skip(1)));
            assert(s[0] == buf@[from + i]);
            assert(v * 256 + buf@[from + i] == le_value(s));
        }
        v = v * 256 + buf[from + i] as u64;
    }
    v
}

/// The bytes of a trailer.
pub fn make_trailer(t: Trailer) -> (bytes: Vec<u8>)
    ensures
        bytes@ == trailer_bytes(t),
        bytes@.len() == TRAILER_SIZE,
{
    let mut bytes: Vec<u8> = Vec::new();
    push_le(&mut bytes, t.data_crc as u64, 4);
    push_le(&mut bytes, t.data_size, 8);
    push_le(&mut bytes, t.member_size, 8);
    proof {
        lemma_trailer_round_trip(t);
        assert(bytes@ =~= trailer_bytes(t));
    }
    bytes
}

/// Reads a trailer from twenty bytes.
pub fn read_trailer(bytes: &[u8]) -> (t: Trailer)
    requires
        bytes@.len() == TRAILER_SIZE,
    ensures
        t == parse_trailer(bytes@),
{
    proof {
        lemma_le_value_bound(bytes@.subrange(0, 4));
    }
    let crc: u64 = read_le(bytes, 0, 4);
    Trailer {
        data_crc: crc as u32,
        data_size: read_le(bytes, 4, 8),
        member_size: read_le(bytes, 12, 8),
    }
}

} // verus!
