//! The version of the interface, and the bounds of the parameters.

use vstd::prelude::*;
use crate::lzma::{
    MAX_DICTIONARY_BITS,
    MAX_DICTIONARY_SIZE,
    MAX_MATCH_LEN,
    MIN_DICTIONARY_BITS,
    MIN_DICTIONARY_SIZE,
    MIN_MATCH_LEN_LIMIT,
};

verus! {

/// The version of the interface, as one number.
pub const API_VERSION: u32 = 1013;

/// The version of the interface, as one number.
pub fn api_version() -> (v: u32)
    ensures
        v == 1013,
{
    API_VERSION
}

/// The version of the library.
pub fn version() -> (s: &'static str)
    ensures
        s@ == "1.13"@,
{
    "1.13"
}

/// The smallest dictionary size, as a number of bits.
pub fn min_dictionary_bits() -> (n: u32)
    ensures
        n == 12,
{
    MIN_DICTIONARY_BITS
}

/// The smallest dictionary size: 4 KiB.
pub fn min_dictionary_size() -> (n: u32)
    ensures
        n == 0x1000,
        n == vstd::arithmetic::power2::pow2(12),
{
    proof {
        vstd::arithmetic::power2::lemma2_to64();
    }
    MIN_DICTIONARY_SIZE
}

/// The largest dictionary size, as a number of bits.
pub fn max_dictionary_bits() -> (n: u32)
    ensures
        n == 29,
{
    MAX_DICTIONARY_BITS
}

/// The largest dictionary size: 512 MiB.
pub fn max_dictionary_size() -> (n: u32)
    ensures
        n == 0x2000_0000,
        n == vstd::arithmetic::power2::pow2(29),
{
    proof {
        vstd::arithmetic::power2::lemma2_to64();
    }
    MAX_DICTIONARY_SIZE
}

/// The smallest limit on the length of a match.
pub fn min_match_len_limit() -> (n: u32)
    ensures
        n == 5,
{
    MIN_MATCH_LEN_LIMIT
}

/// The largest limit on the length of a match.
pub fn max_match_len_limit() -> (n: u32)
    ensures
        n == 273,
{
    MAX_MATCH_LEN
}

} // verus!
