//! What a run of bytes decodes to, when all of it is at hand: the data of
//! one member, and the data of a stream of members.

use vstd::prelude::*;
use crate::bit_model::BIT_MODEL_INIT;
use crate::decoder::is_magic_prefix;
use crate::errno::Errno;
use crate::header::{parse_header, parse_trailer, HEADER_SIZE, TRAILER_SIZE};
use crate::lz_decoder::{Dec, Step, Outcome, lzd_step, lzd_run, trailer_agrees};
use crate::lzma::{lz_init, lemma_apply, NUM_MODELS, MAX_MATCH_LEN};
use crate::range_decoder::{rd_loadable, rd_load, LOAD_SIZE};

verus! {

/// Where the decoding of a payload stands after some steps.
pub enum Walk {
    /// Operations were decoded, and more may follow.
    At(Dec),
    /// The marker that ends the payload was decoded.
    Ended(Dec),
    /// The input ran out inside an operation.
    Starved,
    /// The payload is corrupt.
    Corrupt,
}

/// One more step; a decoding that has stopped stays where it is.
pub open spec fn walk_step(w: Walk, dictionary_size: u32) -> Walk {
    match w {
        Walk::At(d) => {
            if d.lz.data.len() + MAX_MATCH_LEN > u64::MAX {
                Walk::Corrupt
            } else {
                match lzd_step(d, dictionary_size) {
                    Step::Next(n, op) => Walk::At(n),
                    Step::End(e) => Walk::Ended(e),
                    Step::Starved => Walk::Starved,
                    Step::Corrupt => Walk::Corrupt,
                }
            }
        },
        _ => w,
    }
}

/// Where the decoding stands after `n` steps from `d`.
pub open spec fn walk(d: Dec, dictionary_size: u32, n: nat) -> Walk
    decreases n,
{
    if n == 0 {
        Walk::At(d)
    } else {
        walk_step(walk(d, dictionary_size, (n - 1) as nat), dictionary_size)
    }
}

/// More steps than any payload takes: each operation stands for at least
/// one byte, and the size of the data fits 64 bits.
pub open spec fn walk_limit() -> nat {
    0x1_0000_0000_0000_0000
}

/// Where the decoding of a payload ends.
pub open spec fn payload_end(d: Dec, dictionary_size: u32) -> Walk {
    walk(d, dictionary_size, walk_limit())
}

/// What a run of bytes that starts with a member decodes to.
pub enum Decoded {
    /// A member of the given size, which holds the given data, and after it
    /// the rest of the input.
    Member { data: Seq<u8>, size: nat, rest: Seq<u8> },
    /// No member.
    Fails(Errno),
}

/// The state at the start of a payload.
pub open spec fn dec_init(payload: Seq<u8>) -> Dec {
    Dec {
        rd: rd_load(payload),
        probs: Seq::new(NUM_MODELS as nat, |i: int| BIT_MODEL_INIT),
        lz: lz_init(),
    }
}

/// Decodes the member that `input` starts with. A header that is wrong in
/// any way is a header error, as is a first payload byte other than 0; a
/// corrupt payload and a trailer that disagrees with the data or with the
/// size of the member are data errors; input that ends inside the member is
/// an unexpected end.
pub open spec fn decode_member(input: Seq<u8>) -> Decoded {
    if input.len() < HEADER_SIZE {
        Decoded::Fails(
            if is_magic_prefix(input) {
                Errno::UnexpectedEof
            } else {
                Errno::HeaderError
            },
        )
    } else {
        match parse_header(input.subrange(0, HEADER_SIZE as int)) {
            Err(_) => Decoded::Fails(Errno::HeaderError),
            Ok(dictionary_size) => {
                let payload = input.skip(HEADER_SIZE as int);
                if payload.len() >= 1 && payload[0] != 0 {
                    Decoded::Fails(Errno::HeaderError)
                } else if payload.len() < LOAD_SIZE {
                    Decoded::Fails(Errno::UnexpectedEof)
                } else if !rd_loadable(payload) {
                    Decoded::Fails(Errno::DataError)
                } else {
                    match payload_end(dec_init(payload), dictionary_size) {
                        Walk::Ended(e) => {
                            let size = (input.len() - e.rd.input.len() + TRAILER_SIZE) as nat;
                            if e.rd.input.len() < TRAILER_SIZE {
                                Decoded::Fails(Errno::UnexpectedEof)
                            } else if trailer_agrees(
                                parse_trailer(e.rd.input.subrange(0, TRAILER_SIZE as int)),
                                e.lz.data,
                                size as int,
                            ) {
                                Decoded::Member {
                                    data: e.lz.data,
                                    size,
                                    rest: e.rd.input.skip(TRAILER_SIZE as int),
                                }
                            } else {
                                Decoded::Fails(Errno::DataError)
                            }
                        },
                        Walk::Starved => Decoded::Fails(Errno::UnexpectedEof),
                        Walk::Corrupt => Decoded::Fails(Errno::DataError),
                        Walk::At(_) => Decoded::Fails(Errno::LibraryError),
                    }
                }
            },
        }
    }
}

/// Decodes a stream: one member after another until the input is used up.
/// `first` tells whether the input is the whole stream, which holds at least
/// one member, or what is left of it after a member.
pub open spec fn decode_stream(input: Seq<u8>, first: bool) -> Result<Seq<u8>, Errno>
    decreases input.len(),
{
    if input.len() == 0 && !first {
        Ok(Seq::empty())
    } else {
        match decode_member(input) {
            Decoded::Member { data, size, rest } => {
                if rest.len() < input.len() {
                    match decode_stream(rest, false) {
                        Ok(more) => Ok(data + more),
                        Err(e) => Err(e),
                    }
                } else {
                    Err(Errno::LibraryError)
                }
            },
            Decoded::Fails(e) => Err(e),
        }
    }
}

/// Number of operations that a run of decoding decodes.
pub open spec fn run_steps(d: Dec, dictionary_size: u32, free: int) -> nat
    decreases free,
{
    if free < MAX_MATCH_LEN || d.lz.data.len() + MAX_MATCH_LEN > u64::MAX {
        0
    } else {
        match lzd_step(d, dictionary_size) {
            Step::Next(n, op) => {
                if op.out_len() >= 1 {
                    1 + run_steps(n, dictionary_size, free - op.out_len())
                } else {
                    0
                }
            },
            _ => 0,
        }
    }
}

/// A run of decoding gets to where as many steps get to; it stops for want
/// of room only when the room is short of the longest match, and otherwise
/// where the next step stops.
pub proof fn lemma_run_walk(d: Dec, dictionary_size: u32, free: int)
    requires
        d.lz.wf(dictionary_size),
    ensures
        ({
            let r = lzd_run(d, dictionary_size, free);
            let k = run_steps(d, dictionary_size, free);
            &&& r.0.lz.wf(dictionary_size)
            &&& r.0.lz.data.len() >= d.lz.data.len() + k
            &&& r.0.lz.data.subrange(0, d.lz.data.len() as int) == d.lz.data
            &&& walk(d, dictionary_size, k) is At
            &&& r.1 == Outcome::NeedSpace ==> walk(d, dictionary_size, k) == Walk::At(r.0) && free
                - (r.0.lz.data.len() - d.lz.data.len()) < MAX_MATCH_LEN
            &&& r.1 == Outcome::End ==> walk(d, dictionary_size, k + 1) == Walk::Ended(r.0)
            &&& r.1 == Outcome::NeedInput ==> walk(d, dictionary_size, k + 1) == Walk::Starved
            &&& r.1 == Outcome::Corrupt ==> walk(d, dictionary_size, k + 1) == Walk::Corrupt
        }),
    decreases free,
{
    assert(d.lz.data.subrange(0, d.lz.data.len() as int) =~= d.lz.data);
    if free < MAX_MATCH_LEN || d.lz.data.len() + MAX_MATCH_LEN > u64::MAX {
        assert(walk(d, dictionary_size, 1) == walk_step(walk(d, dictionary_size, 0), dictionary_size));
    } else {
        assert(walk(d, dictionary_size, 1) == walk_step(walk(d, dictionary_size, 0), dictionary_size));
        match lzd_step(d, dictionary_size) {
            Step::Next(n, op) => {
                lemma_apply(d.lz, op, dictionary_size);
                lemma_run_walk(n, dictionary_size, free - op.out_len());
                let k2 = run_steps(n, dictionary_size, free - op.out_len());
                lemma_walk_add(d, dictionary_size, 1, k2);
                lemma_walk_add(d, dictionary_size, 1, k2 + 1);
                let r = lzd_run(d, dictionary_size, free);
                assert(r.0.lz.data.subrange(0, d.lz.data.len() as int) =~= r.0.lz.data.subrange(
                    0,
                    n.lz.data.len() as int,
                ).subrange(0, d.lz.data.len() as int));
            },
            _ => {},
        }
    }
}

/// A decoding that has stopped stays where it is.
pub proof fn lemma_walk_stays(d: Dec, dictionary_size: u32, k: nat, n: nat)
    requires
        !(walk(d, dictionary_size, k) is At),
        k <= n,
    ensures
        walk(d, dictionary_size, n) == walk(d, dictionary_size, k),
    decreases n - k,
{
    if k < n {
        lemma_walk_stays(d, dictionary_size, k, (n - 1) as nat);
    }
}

/// Walking on from where a walk has got to is walking further.
pub proof fn lemma_walk_add(d: Dec, dictionary_size: u32, k: nat, n: nat)
    requires
        walk(d, dictionary_size, k) is At,
    ensures
        walk(d, dictionary_size, k + n) == walk(walk(d, dictionary_size, k)->At_0, dictionary_size, n),
    decreases n,
{
    if n > 0 {
        lemma_walk_add(d, dictionary_size, k, (n - 1) as nat);
    }
}

/// Every operation decoded stands for at least one byte, and leaves the
/// state well-formed.
pub proof fn lemma_walk_grows(d: Dec, dictionary_size: u32, n: nat)
    requires
        d.lz.wf(dictionary_size),
        walk(d, dictionary_size, n) is At,
    ensures
        walk(d, dictionary_size, n)->At_0.lz.data.len() >= d.lz.data.len() + n,
        walk(d, dictionary_size, n)->At_0.lz.wf(dictionary_size),
    decreases n,
{
    if n > 0 {
        let p = walk(d, dictionary_size, (n - 1) as nat);
        lemma_walk_grows(d, dictionary_size, (n - 1) as nat);
        match lzd_step(p->At_0, dictionary_size) {
            Step::Next(q, op) => {
                lemma_apply(p->At_0.lz, op, dictionary_size);
            },
            _ => {},
        }
    }
}

} // verus!
