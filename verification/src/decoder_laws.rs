//! The streaming decoder agrees with the decoding of a whole member: given
//! a member all at once, it yields the data and consumes the member, and a
//! member whose trailer disagrees is a data error.
//!
//! The laws here are for input that is at hand as a whole when the payload
//! is decoded, and that the input queue has room for.

use vstd::prelude::*;
use crate::decoder::DecoderState;
use crate::errno::Errno;
use crate::header::{parse_header, parse_trailer, HEADER_SIZE, TRAILER_SIZE};
use crate::lz_decoder::{Dec, Stage, Step, Outcome, lzd_run, lzd_step, trailer_agrees};
use crate::lzma::{lemma_apply, MAX_MATCH_LEN, MIN_DICTIONARY_SIZE, MAX_DICTIONARY_SIZE};
use crate::member::{
    Walk,
    walk,
    walk_limit,
    payload_end,
    dec_init,
    run_steps,
    lemma_run_walk,
    lemma_walk_add,
    lemma_walk_grows,
    lemma_walk_stays,
};
use crate::buffer::member_head;
use crate::bufread::{Next, ReaderState};
use crate::crc::crc32;
use crate::header::{
    Trailer,
    header_bytes,
    trailer_bytes,
    coded_dictionary_size,
    valid_dictionary_size,
    lemma_trailer_round_trip,
    lemma_parse_trailer_injective,
};
use crate::input_laws::{is_tail, lemma_tail, lemma_tail_self, lemma_step_input, lemma_run_input};
use crate::lz_encoder::{enc_ops, is_parse, member_bytes, payload_bytes};
use crate::lzma::Op;
use crate::member::decode_member;
use crate::member_laws::{
    member_trailer,
    lemma_header,
    lemma_member_round_trip,
    lemma_payload_round_trip,
};
use crate::mem::{pump, Pumped, DecompressState, Status, Error};
use crate::range_decoder::{RD_BUFFER_SIZE, LOAD_SIZE};
use crate::range_decoder::Rd;

verus! {

/// The state of the decoding of the payload that a decoder holds.
pub open spec fn dec_of(s: DecoderState) -> Dec {
    let m = s.member->Some_0;
    Dec {
        rd: Rd { code: s.code, range: s.range, input: s.input, starved: false },
        probs: m.probs,
        lz: m.lz,
    }
}

/// Whether the decoder `s` is in the payload of a member that started in
/// the state `d0`, after `k` operations, with nothing wrong so far.
pub open spec fn in_payload(s: DecoderState, d0: Dec, dictionary_size: u32, k: nat) -> bool {
    let m = s.member->Some_0;
    &&& !s.fatal
    &&& !s.seeking
    &&& s.errno == Errno::NoError
    &&& s.member is Some
    &&& m.stage == Stage::Decoding
    &&& m.dictionary_size == dictionary_size
    &&& MIN_DICTIONARY_SIZE <= dictionary_size <= MAX_DICTIONARY_SIZE
    &&& m.delivered <= m.lz.data.len()
    &&& m.start <= s.total_in
    &&& d0.lz.wf(dictionary_size)
    &&& walk(d0, dictionary_size, k) == Walk::At(dec_of(s))
}

/// The data decoded at any step of a walk is the start of the data decoded
/// at any later step, and at the end.
pub proof fn lemma_walk_prefix(d0: Dec, dictionary_size: u32, k: nat, n: nat)
    requires
        d0.lz.wf(dictionary_size),
        k <= n,
        walk(d0, dictionary_size, k) is At,
        walk(d0, dictionary_size, n) is At || walk(d0, dictionary_size, n) is Ended,
    ensures
        ({
            let x = walk(d0, dictionary_size, k)->At_0;
            let y = match walk(d0, dictionary_size, n) {
                Walk::At(y) => y,
                Walk::Ended(y) => y,
                _ => x,
            };
            &&& x.lz.data.len() <= y.lz.data.len()
            &&& y.lz.data.subrange(0, x.lz.data.len() as int) == x.lz.data
        }),
    decreases n - k,
{
    let x = walk(d0, dictionary_size, k)->At_0;
    if k == n {
        assert(x.lz.data.subrange(0, x.lz.data.len() as int) =~= x.lz.data);
    } else {
        let prev = walk(d0, dictionary_size, (n - 1) as nat);
        lemma_walk_prefix(d0, dictionary_size, k, (n - 1) as nat);
        if prev is At {
            lemma_walk_grows(d0, dictionary_size, (n - 1) as nat);
            let p = prev->At_0;
            match lzd_step(p, dictionary_size) {
                Step::Next(q, op) => {
                    lemma_apply(p.lz, op, dictionary_size);
                    assert(q.lz.data.subrange(0, x.lz.data.len() as int) =~= q.lz.data.subrange(
                        0,
                        p.lz.data.len() as int,
                    ).subrange(0, x.lz.data.len() as int));
                },
                _ => {},
            }
        }
    }
}

/// A walk that is on its way after `n` steps has taken fewer steps than any
/// payload takes.
pub proof fn lemma_walk_bound(d0: Dec, dictionary_size: u32, n: nat)
    requires
        d0.lz.wf(dictionary_size),
        walk(d0, dictionary_size, n) is At,
    ensures
        n < walk_limit(),
{
    if n > 0 {
        let prev = walk(d0, dictionary_size, (n - 1) as nat);
        assert(prev is At);
        lemma_walk_grows(d0, dictionary_size, (n - 1) as nat);
    }
}

/// Where the payload of a member ends, every walk that is on its way is a
/// step on the way there: the step after it does not fail.
pub proof fn lemma_on_the_way(d0: Dec, dictionary_size: u32, n: nat, e: Dec)
    requires
        d0.lz.wf(dictionary_size),
        walk(d0, dictionary_size, n) is At,
        payload_end(d0, dictionary_size) == Walk::Ended(e),
    ensures
        walk(d0, dictionary_size, n + 1) is At || walk(d0, dictionary_size, n + 1) == Walk::Ended(
            e,
        ),
        ({
            let x = walk(d0, dictionary_size, n)->At_0;
            &&& x.lz.data.len() <= e.lz.data.len()
            &&& e.lz.data.subrange(0, x.lz.data.len() as int) == x.lz.data
        }),
{
    lemma_walk_bound(d0, dictionary_size, n);
    if !(walk(d0, dictionary_size, n + 1) is At) {
        lemma_walk_stays(d0, dictionary_size, n + 1, walk_limit());
    }
    lemma_walk_prefix(d0, dictionary_size, n, walk_limit());
}

/// A run of decoding on the way to the end of a payload, with the input at
/// hand holding all that is left of it. The run, which took `j` steps from
/// the state after `k` and came to `r`, stopped for want of room, at a step
/// on the way, or it reached the end; it did not fail.
pub proof fn lemma_run_end(
    d0: Dec,
    dictionary_size: u32,
    k: nat,
    j: nat,
    r: (Dec, Outcome),
    e: Dec,
)
    requires
        d0.lz.wf(dictionary_size),
        walk(d0, dictionary_size, k) is At,
        payload_end(d0, dictionary_size) == Walk::Ended(e),
        walk(d0, dictionary_size, k + j) is At,
        r.1 == Outcome::NeedSpace ==> walk(d0, dictionary_size, k + j) == Walk::At(r.0),
        r.1 == Outcome::End ==> walk(d0, dictionary_size, k + j + 1) == Walk::Ended(r.0),
        r.1 == Outcome::NeedInput ==> walk(d0, dictionary_size, k + j + 1) == Walk::Starved,
        r.1 == Outcome::Corrupt ==> walk(d0, dictionary_size, k + j + 1) == Walk::Corrupt,
    ensures
        r.1 == Outcome::NeedSpace || r.1 == Outcome::End,
        r.0.lz.data.len() <= e.lz.data.len(),
        e.lz.data.subrange(0, r.0.lz.data.len() as int) == r.0.lz.data,
        r.1 == Outcome::End ==> r.0 == e,
{
    lemma_on_the_way(d0, dictionary_size, k + j, e);
    if r.1 == Outcome::End {
        assert(e.lz.data.subrange(0, e.lz.data.len() as int) =~= e.lz.data);
    }
}

/// The same of the run that decoding makes from the state after `k` steps
/// with room for `free` bytes.
pub proof fn lemma_run_facts(d0: Dec, dictionary_size: u32, k: nat, free: int, e: Dec)
    requires
        d0.lz.wf(dictionary_size),
        walk(d0, dictionary_size, k) is At,
        payload_end(d0, dictionary_size) == Walk::Ended(e),
    ensures
        ({
            let d = walk(d0, dictionary_size, k)->At_0;
            let r = lzd_run(d, dictionary_size, free);
            let j = run_steps(d, dictionary_size, free);
            &&& r.1 == Outcome::NeedSpace || r.1 == Outcome::End
            &&& r.0.lz.data.len() >= d.lz.data.len()
            &&& r.0.lz.data.len() <= e.lz.data.len()
            &&& e.lz.data.subrange(0, r.0.lz.data.len() as int) == r.0.lz.data
            &&& r.1 == Outcome::NeedSpace ==> walk(d0, dictionary_size, k + j) == Walk::At(r.0)
                && free - (r.0.lz.data.len() - d.lz.data.len()) < MAX_MATCH_LEN
            &&& r.1 == Outcome::End ==> r.0 == e
        }),
{
    let d = walk(d0, dictionary_size, k)->At_0;
    let r = lzd_run(d, dictionary_size, free);
    let j = run_steps(d, dictionary_size, free);
    lemma_walk_grows(d0, dictionary_size, k);
    lemma_run_walk(d, dictionary_size, free);
    lemma_walk_add(d0, dictionary_size, k, j);
    lemma_walk_add(d0, dictionary_size, k, j + 1);
    lemma_run_end(d0, dictionary_size, k, j, r, e);
}

/// What a read comes to once the payload was decoded as far as can be and
/// the trailer read if it is due: the data in the window, as far as there
/// is room for it, or the error if the decoder has failed and has none.
pub open spec fn hand_out(t: DecoderState, size: nat) -> (DecoderState, Result<Seq<u8>, Errno>) {
    if t.fatal && t.pending().len() == 0 {
        (t, Err(t.errno))
    } else {
        (t.drain(size).0, Ok(t.drain(size).1))
    }
}

/// A read of a decoder that has a member at hand and has not failed decodes
/// the payload, reads the trailer if it is due, and hands out the data.
pub proof fn lemma_read_shape(s: DecoderState, size: nat)
    requires
        !s.fatal,
        !s.seeking,
        s.member is Some,
        s.member->Some_0.stage == Stage::Decoding,
    ensures
        s.read(size) == hand_out(s.run().trailer(), size),
{
    assert(s.retire() == s);
    assert(s.retire().start() == s);
}

/// The decoder after the payload was decoded as far as can be, from a state
/// in the payload of a member, with the input at hand holding all that is
/// left: it is in the payload still, a run further, with the window filled;
/// or the payload is at its end and the trailer is due.
pub proof fn lemma_run_payload(s: DecoderState, d0: Dec, dictionary_size: u32, k: nat, e: Dec)
    requires
        in_payload(s, d0, dictionary_size, k),
        payload_end(d0, dictionary_size) == Walk::Ended(e),
    ensures
        ({
            let m = s.member->Some_0;
            let r = lzd_run(dec_of(s), dictionary_size, m.free_space());
            let j = run_steps(dec_of(s), dictionary_size, m.free_space());
            let t = s.run();
            let m1 = t.member->Some_0;
            &&& t.member is Some
            &&& !t.fatal
            &&& !t.seeking
            &&& t.errno == Errno::NoError
            &&& t.at_stream_end == s.at_stream_end
            &&& t.partial_out == s.partial_out
            &&& t.total_in + t.input.len() == s.total_in + s.input.len()
            &&& t.total_in >= s.total_in
            &&& is_tail(t.input, s.input)
            &&& m1.start == m.start
            &&& m1.delivered == m.delivered
            &&& m1.dictionary_size == dictionary_size
            &&& m1.lz.data.len() <= e.lz.data.len()
            &&& m1.lz.data.len() >= m.lz.data.len()
            &&& e.lz.data.subrange(0, m1.lz.data.len() as int) == m1.lz.data
            &&& if r.1 == Outcome::NeedSpace {
                &&& m1.stage == Stage::Decoding
                &&& walk(d0, dictionary_size, k + j) == Walk::At(dec_of(t))
                &&& m1.lz.data.len() - m1.delivered >= 1
            } else {
                &&& m1.stage == Stage::TrailerPending
                &&& m1.lz == e.lz
                &&& t.input == e.rd.input
            }
        }),
{
    let m = s.member->Some_0;
    lemma_run_facts(d0, dictionary_size, k, m.free_space(), e);
    lemma_run_input(dec_of(s), dictionary_size, m.free_space());
}

/// What one read of a decoder in the payload of a member comes to, where the
/// input at hand holds all that is left of the member and there is room for
/// more than the data that is left: either the window was filled, and all
/// that was in it is read; or the payload was decoded to its end, the
/// trailer read, and all the data that was left is read, unless the trailer
/// disagrees and no data was left.
pub open spec fn read_in_payload(
    s: DecoderState,
    d0: Dec,
    dictionary_size: u32,
    k: nat,
    e: Dec,
    q: (DecoderState, Result<Seq<u8>, Errno>),
) -> bool {
    let m = s.member->Some_0;
    let r = lzd_run(dec_of(s), dictionary_size, m.free_space());
    let j = run_steps(dec_of(s), dictionary_size, m.free_space());
    let left = e.lz.data.skip(m.delivered as int);
    if r.1 == Outcome::NeedSpace {
        &&& in_payload(q.0, d0, dictionary_size, k + j)
        &&& q.0.member->Some_0.delivered > m.delivered
        &&& q.0.member->Some_0.delivered <= e.lz.data.len()
        &&& q.1 == Ok::<Seq<u8>, Errno>(
            e.lz.data.subrange(m.delivered as int, q.0.member->Some_0.delivered as int),
        )
        &&& q.0.total_in + q.0.input.len() == s.total_in + s.input.len()
        &&& q.0.member->Some_0.start == m.start
        &&& q.0.at_stream_end == s.at_stream_end
        &&& q.0.partial_out == s.partial_out
        &&& !q.0.member_finished()
    } else {
        let size_read = s.total_in + s.input.len() - e.rd.input.len() + TRAILER_SIZE;
        let agrees = trailer_agrees(
            parse_trailer(e.rd.input.subrange(0, TRAILER_SIZE as int)),
            e.lz.data,
            size_read - m.start,
        );
        &&& q.0.input == e.rd.input.skip(TRAILER_SIZE as int)
        &&& q.0.total_in == size_read
        &&& q.0.pending().len() == 0
        &&& q.0.at_stream_end == s.at_stream_end
        &&& !q.0.seeking
        &&& q.0.partial_out == s.partial_out
        &&& if agrees {
            &&& q.1 == Ok::<Seq<u8>, Errno>(left)
            &&& q.0.member_finished()
            &&& !q.0.fatal
            &&& q.0.errno == Errno::NoError
        } else {
            &&& q.0.fatal
            &&& q.0.errno == Errno::DataError
            &&& !q.0.member_finished()
            &&& if left.len() == 0 {
                q.1 == Err::<Seq<u8>, Errno>(Errno::DataError)
            } else {
                q.1 == Ok::<Seq<u8>, Errno>(left)
            }
        }
    }
}

/// One read of a decoder in the payload of a member, of which the input at
/// hand holds all that is left, with room for more than the data that is
/// left, comes to what `read_in_payload` says.
#[verifier::rlimit(50)]
pub proof fn lemma_read_payload(
    s: DecoderState,
    size: nat,
    d0: Dec,
    dictionary_size: u32,
    k: nat,
    e: Dec,
)
    requires
        in_payload(s, d0, dictionary_size, k),
        payload_end(d0, dictionary_size) == Walk::Ended(e),
        e.rd.input.len() >= TRAILER_SIZE,
        size > e.lz.data.len() - s.member->Some_0.delivered,
    ensures
        read_in_payload(s, d0, dictionary_size, k, e, s.read(size)),
{
    let m = s.member->Some_0;
    let r = lzd_run(dec_of(s), dictionary_size, m.free_space());
    lemma_run_payload(s, d0, dictionary_size, k, e);
    lemma_read_shape(s, size);
    let t1 = s.run();
    let t = t1.trailer();
    let left = e.lz.data.skip(m.delivered as int);
    let q = s.read(size);
    assert(q == hand_out(t, size));
    if r.1 == Outcome::NeedSpace {
        assert(t == t1);
        let m1 = t1.member->Some_0;
        assert(m1.pending().len() <= e.lz.data.len() - m.delivered);
        assert(!t.fatal);
        assert(q.0 == t1.drain(size).0);
        assert(q.1 == Ok::<Seq<u8>, Errno>(t1.drain(size).1));
        assert(t1.drain(size).1 =~= e.lz.data.subrange(
            m.delivered as int,
            q.0.member->Some_0.delivered as int,
        ));
        assert(dec_of(q.0) == dec_of(t1));
        assert(q.0.member->Some_0.delivered > m.delivered);
        assert(q.0.total_in + q.0.input.len() == s.total_in + s.input.len());
        assert(in_payload(q.0, d0, dictionary_size, k + run_steps(
            dec_of(s),
            dictionary_size,
            m.free_space(),
        )));
    } else {
        let size_read = s.total_in + s.input.len() - e.rd.input.len() + TRAILER_SIZE;
        let agrees = trailer_agrees(
            parse_trailer(e.rd.input.subrange(0, TRAILER_SIZE as int)),
            e.lz.data,
            size_read - m.start,
        );
        assert(t1.input == e.rd.input);
        assert(t1.total_in == s.total_in + s.input.len() - e.rd.input.len());
        assert(t.input == e.rd.input.skip(TRAILER_SIZE as int));
        assert(t.total_in == size_read);
        assert(t.fatal == !agrees);
        assert(t.pending() =~= left);
        assert(t.drain(size).1 =~= left);
        assert(q.0.pending().len() == 0);
        if agrees {
            assert(q.0.member_finished());
        } else {
            assert(q.0.errno == Errno::DataError);
        }
    }
}

/// What a read of up to `size` bytes comes to.
#[verifier::opaque]
pub open spec fn read_of(s: DecoderState, size: nat) -> (DecoderState, Result<Seq<u8>, Errno>) {
    s.read(size)
}

/// What reading to fill `size` bytes comes to.
#[verifier::opaque]
pub open spec fn pumped(s: DecoderState, size: nat) -> Pumped {
    pump(s, size)
}

/// Reading to fill `size` bytes is one read, and more reading if the read
/// neither filled the room, nor ended the member, nor came back empty.
pub proof fn lemma_pumped(s: DecoderState, size: nat)
    requires
        size > 0,
    ensures
        pumped(s, size) == match read_of(s, size).1 {
            Err(e) => Pumped { dec: read_of(s, size).0, data: Seq::empty(), stalled: false },
            Ok(d) => {
                if read_of(s, size).0.member_finished() || d.len() >= size {
                    Pumped { dec: read_of(s, size).0, data: d, stalled: false }
                } else if d.len() == 0 {
                    Pumped { dec: read_of(s, size).0, data: d, stalled: true }
                } else {
                    let q = pumped(read_of(s, size).0, (size - d.len()) as nat);
                    Pumped { dec: q.dec, data: d + q.data, stalled: q.stalled }
                }
            },
        },
{
    reveal(read_of);
    reveal(pumped);
}

/// Reading from a decoder that has failed and has no data left fails, and
/// leaves the decoder as it is.
pub proof fn lemma_pumped_failed(s: DecoderState, size: nat)
    requires
        s.fatal,
        s.pending().len() == 0,
    ensures
        pumped(s, size) == (Pumped { dec: s, data: Seq::empty(), stalled: false }),
{
    reveal(pumped);
}

/// The read that `read_in_payload` speaks of.
pub proof fn lemma_read_of_payload(
    s: DecoderState,
    size: nat,
    d0: Dec,
    dictionary_size: u32,
    k: nat,
    e: Dec,
)
    requires
        in_payload(s, d0, dictionary_size, k),
        payload_end(d0, dictionary_size) == Walk::Ended(e),
        e.rd.input.len() >= TRAILER_SIZE,
        size > e.lz.data.len() - s.member->Some_0.delivered,
    ensures
        read_in_payload(s, d0, dictionary_size, k, e, read_of(s, size)),
{
    reveal(read_of);
    lemma_read_payload(s, size, d0, dictionary_size, k, e);
}

/// What reading from a decoder in the payload of a member comes to, where
/// the input at hand holds all that is left of the member and there is room
/// for more than the data that is left: all the data that is left is read,
/// the input is consumed to the end of the trailer, and the member is done
/// with if the trailer agrees; if it does not, the decoder has failed with a
/// data error.
pub open spec fn pumped_from_payload(s: DecoderState, e: Dec, p: Pumped) -> bool {
    let m = s.member->Some_0;
    let size_read = s.total_in + s.input.len() - e.rd.input.len() + TRAILER_SIZE;
    let agrees = trailer_agrees(
        parse_trailer(e.rd.input.subrange(0, TRAILER_SIZE as int)),
        e.lz.data,
        size_read - m.start,
    );
    &&& p.data == e.lz.data.skip(m.delivered as int)
    &&& !p.stalled
    &&& p.dec.input == e.rd.input.skip(TRAILER_SIZE as int)
    &&& p.dec.total_in == size_read
    &&& p.dec.at_stream_end == s.at_stream_end
    &&& !p.dec.seeking
    &&& p.dec.partial_out == s.partial_out
    &&& agrees ==> p.dec.member_finished() && !p.dec.fatal && p.dec.errno == Errno::NoError
    &&& !agrees ==> p.dec.fatal && p.dec.errno == Errno::DataError
}

/// Reading from a decoder in the payload of a member comes to what
/// `pumped_from_payload` says.
pub proof fn lemma_pump_payload(
    s: DecoderState,
    size: nat,
    d0: Dec,
    dictionary_size: u32,
    k: nat,
    e: Dec,
)
    requires
        in_payload(s, d0, dictionary_size, k),
        payload_end(d0, dictionary_size) == Walk::Ended(e),
        e.rd.input.len() >= TRAILER_SIZE,
        size > e.lz.data.len() - s.member->Some_0.delivered,
    ensures
        pumped_from_payload(s, e, pumped(s, size)),
    decreases e.lz.data.len() - s.member->Some_0.delivered,
{
    let m = s.member->Some_0;
    let q = read_of(s, size);
    let left = e.lz.data.skip(m.delivered as int);
    lemma_on_the_way(d0, dictionary_size, k, e);
    lemma_read_of_payload(s, size, d0, dictionary_size, k, e);
    lemma_pumped(s, size);
    if lzd_run(dec_of(s), dictionary_size, m.free_space()).1 == Outcome::NeedSpace {
        let j = run_steps(dec_of(s), dictionary_size, m.free_space());
        let got = q.1->Ok_0;
        lemma_pump_payload(q.0, (size - got.len()) as nat, d0, dictionary_size, k + j, e);
        let rec = pumped(q.0, (size - got.len()) as nat);
        assert(got + rec.data =~= left);
    } else {
        match q.1 {
            Ok(got) => {
                if !q.0.member_finished() {
                    lemma_pumped_failed(q.0, (size - got.len()) as nat);
                    assert(got + Seq::<u8>::empty() =~= got);
                }
            },
            Err(_) => {
                assert(left =~= Seq::<u8>::empty());
            },
        }
    }
}

/// A walk takes input only: what is left of the input at any step, and at
/// the end, is the end of what was there at the start.
pub proof fn lemma_walk_input(d0: Dec, dictionary_size: u32, n: nat)
    ensures
        match walk(d0, dictionary_size, n) {
            Walk::At(x) => is_tail(x.rd.input, d0.rd.input),
            Walk::Ended(x) => is_tail(x.rd.input, d0.rd.input),
            _ => true,
        },
    decreases n,
{
    lemma_tail_self(d0.rd.input);
    if n > 0 {
        lemma_walk_input(d0, dictionary_size, (n - 1) as nat);
        match walk(d0, dictionary_size, (n - 1) as nat) {
            Walk::At(p) => {
                lemma_step_input(p, dictionary_size);
                match lzd_step(p, dictionary_size) {
                    Step::Next(q, op) => {
                        lemma_tail(q.rd.input, p.rd.input, d0.rd.input);
                    },
                    Step::End(q) => {
                        lemma_tail(q.rd.input, p.rd.input, d0.rd.input);
                    },
                    _ => {},
                }
            },
            _ => {},
        }
    }
}

/// A decoder that was given the start of a member, as far as the bytes that
/// prime the range decoder, is at the start of the payload once it has
/// started the member; and reading from it is reading from there.
pub proof fn lemma_start_payload(input: Seq<u8>, size: nat, dictionary_size: u32)
    requires
        input.len() <= RD_BUFFER_SIZE,
        member_head(input) == Ok::<u32, Errno>(dictionary_size),
        size > 0,
    ensures
        ({
            let w = DecoderState::init().write(input).0;
            let s1 = w.start();
            &&& DecoderState::init().write(input).1 == Ok::<nat, Errno>(input.len())
            &&& in_payload(s1, dec_init(input.skip(HEADER_SIZE as int)), dictionary_size, 0)
            &&& s1.total_in + s1.input.len() == input.len()
            &&& s1.member->Some_0.start == 0
            &&& s1.member->Some_0.delivered == 0
            &&& !s1.at_stream_end
            &&& pump(w, size) == pumped(s1, size)
        }),
{
    let w = DecoderState::init().write(input).0;
    let s1 = w.start();
    assert(input.subrange(0, input.len() as int) =~= input);
    assert(w.input =~= input);
    assert(s1.member is Some);
    assert(w.retire() == w);
    assert(s1.retire().start() == s1);
    assert(w.read(size) == s1.read(size));
    reveal(pumped);
}

/// The streaming decoder on a member that it is given at once: with a
/// header that is right, a payload that is decoded to its marker, and room
/// for more than the data, one step produces all the data; it ends the
/// member, having consumed it and nothing after it, if the trailer agrees
/// with the data and with the size of the member, and it fails with a data
/// error if the trailer does not.
pub proof fn lemma_step_payload_end(input: Seq<u8>, size: nat, dictionary_size: u32, e: Dec)
    requires
        input.len() <= RD_BUFFER_SIZE,
        member_head(input) == Ok::<u32, Errno>(dictionary_size),
        payload_end(dec_init(input.skip(HEADER_SIZE as int)), dictionary_size) == Walk::Ended(e),
        e.rd.input.len() >= TRAILER_SIZE,
        size > e.lz.data.len(),
    ensures
        ({
            let p = DecompressState::init().step(input, size);
            let member_size = input.len() - e.rd.input.len() + TRAILER_SIZE;
            let agrees = trailer_agrees(
                parse_trailer(e.rd.input.subrange(0, TRAILER_SIZE as int)),
                e.lz.data,
                member_size,
            );
            &&& p.data == e.lz.data
            &&& member_size <= input.len()
            &&& agrees ==> p.result == Ok::<Status, Error>(Status::StreamEnd) && p.consumed
                == member_size
            &&& !agrees ==> p.result == Err::<Status, Error>(Error::Data)
        }),
{
    let d0 = dec_init(input.skip(HEADER_SIZE as int));
    let w = DecoderState::init().write(input).0;
    let s1 = w.start();
    lemma_start_payload(input, size, dictionary_size);
    lemma_pump_payload(s1, size, d0, dictionary_size, 0, e);
    lemma_walk_input(d0, dictionary_size, walk_limit());
    assert(e.lz.data.skip(0) =~= e.lz.data);
    let p = pump(w, size);
    assert(p == pumped(s1, size));
    assert(d0.rd.input.len() == input.len() - HEADER_SIZE - LOAD_SIZE);
    assert(p.dec.input.len() == e.rd.input.len() - TRAILER_SIZE);
}

/// The streaming decoder on input that does not start with what a member
/// starts with: one step fails with the error of a missing header, and
/// consumes and produces nothing.
pub proof fn lemma_step_header_error(input: Seq<u8>, size: nat)
    requires
        input.len() <= RD_BUFFER_SIZE,
        member_head(input) == Err::<u32, Errno>(Errno::HeaderError),
        size > 0,
    ensures
        ({
            let p = DecompressState::init().step(input, size);
            &&& p.result == Err::<Status, Error>(Error::DataMagic)
            &&& p.consumed == 0
            &&& p.data == Seq::<u8>::empty()
        }),
{
    let w = DecoderState::init().write(input).0;
    assert(input.subrange(0, input.len() as int) =~= input);
    assert(w.input =~= input);
    assert(w.retire() == w);
    let s1 = w.start();
    assert(s1 == w.fail(Errno::HeaderError));
    assert(w.read(size) == (s1, Err::<Seq<u8>, Errno>(Errno::HeaderError)));
}

/// The streaming decoder agrees with the decoding of a member: where the
/// input, which the input queue has room for, starts with a member, and
/// there is room for more than its data, one step produces the data, ends
/// the member, and consumes the member and nothing after it.
pub proof fn lemma_step_member(input: Seq<u8>, size: nat)
    requires
        input.len() <= RD_BUFFER_SIZE,
        decode_member(input) is Member,
        size > decode_member(input)->data.len(),
    ensures
        ({
            let p = DecompressState::init().step(input, size);
            &&& p.result == Ok::<Status, Error>(Status::StreamEnd)
            &&& p.data == decode_member(input)->data
            &&& p.consumed == decode_member(input)->size
            &&& p.consumed + decode_member(input)->rest.len() == input.len()
        }),
{
    let dictionary_size = parse_header(input.subrange(0, HEADER_SIZE as int))->Ok_0;
    let payload = input.skip(HEADER_SIZE as int);
    let e = payload_end(dec_init(payload), dictionary_size)->Ended_0;
    assert(input.len() >= HEADER_SIZE);
    assert(parse_header(input.subrange(0, HEADER_SIZE as int)) is Ok);
    assert(member_head(input) == Ok::<u32, Errno>(dictionary_size));
    assert(payload_end(dec_init(payload), dictionary_size) is Ended);
    assert(e.rd.input.len() >= TRAILER_SIZE);
    assert(decode_member(input)->data == e.lz.data);
    assert(decode_member(input)->rest == e.rd.input.skip(TRAILER_SIZE as int));
    lemma_walk_input(dec_init(payload), dictionary_size, walk_limit());
    assert(e.rd.input.len() <= input.len());
    let member_size = input.len() - e.rd.input.len() + TRAILER_SIZE;
    assert(decode_member(input)->size == member_size);
    assert(trailer_agrees(
        parse_trailer(e.rd.input.subrange(0, TRAILER_SIZE as int)),
        e.lz.data,
        member_size,
    ));
    lemma_step_payload_end(input, size, dictionary_size, e);
}

/// Encoding then decoding gives the data back through the streaming
/// decoder: one step on a member that a parse is coded to, with anything
/// after it, produces the data that the parse stands for, ends the member,
/// and consumes the member and nothing after it. This holds of input that
/// the input queue has room for, and with room for more than the data.
pub proof fn lemma_decompress_round_trip(
    dictionary_byte: u8,
    ops: Seq<Op>,
    rest: Seq<u8>,
    size: nat,
)
    requires
        valid_dictionary_size(coded_dictionary_size(dictionary_byte)),
        is_parse(ops, coded_dictionary_size(dictionary_byte) as u32),
        (member_bytes(dictionary_byte, ops) + rest).len() <= RD_BUFFER_SIZE,
        enc_ops(ops).lz.data.len() + MAX_MATCH_LEN <= u64::MAX,
        size > enc_ops(ops).lz.data.len(),
    ensures
        ({
            let p = DecompressState::init().step(member_bytes(dictionary_byte, ops) + rest, size);
            &&& p.result == Ok::<Status, Error>(Status::StreamEnd)
            &&& p.data == enc_ops(ops).lz.data
            &&& p.consumed == member_bytes(dictionary_byte, ops).len()
        }),
{
    lemma_member_round_trip(dictionary_byte, ops, rest);
    lemma_step_member(member_bytes(dictionary_byte, ops) + rest, size);
}

/// A trailer that was changed in any way fails the streaming decoder: one
/// step on a member that a parse is coded to, with its trailer changed and
/// anything after it, produces the data and fails with a data error. This
/// holds of input that the input queue has room for, and with room for more
/// than the data.
pub proof fn lemma_decompress_changed_trailer(
    dictionary_byte: u8,
    ops: Seq<Op>,
    changed: Seq<u8>,
    rest: Seq<u8>,
    size: nat,
)
    requires
        valid_dictionary_size(coded_dictionary_size(dictionary_byte)),
        is_parse(ops, coded_dictionary_size(dictionary_byte) as u32),
        (header_bytes(dictionary_byte) + payload_bytes(ops) + changed + rest).len()
            <= RD_BUFFER_SIZE,
        enc_ops(ops).lz.data.len() + MAX_MATCH_LEN <= u64::MAX,
        changed.len() == TRAILER_SIZE,
        changed != member_trailer(ops),
        size > enc_ops(ops).lz.data.len(),
    ensures
        ({
            let p = DecompressState::init().step(
                header_bytes(dictionary_byte) + payload_bytes(ops) + changed + rest,
                size,
            );
            &&& p.result == Err::<Status, Error>(Error::Data)
            &&& p.data == enc_ops(ops).lz.data
        }),
{
    let dict = coded_dictionary_size(dictionary_byte) as u32;
    let data = enc_ops(ops).lz.data;
    let h = header_bytes(dictionary_byte);
    let p = payload_bytes(ops);
    let t = Trailer {
        data_crc: crc32(data),
        data_size: data.len() as u64,
        member_size: (HEADER_SIZE + p.len() + TRAILER_SIZE) as u64,
    };
    let tb = trailer_bytes(t);
    lemma_trailer_round_trip(t);
    lemma_header(dictionary_byte);
    lemma_payload_round_trip(ops, changed + rest, dict);
    assert((p + changed) + rest =~= p + (changed + rest));
    let input = h + p + changed + rest;
    let e = payload_end(dec_init(p + changed + rest), dict)->Ended_0;
    assert(input.subrange(0, HEADER_SIZE as int) =~= h);
    assert(input.skip(HEADER_SIZE as int) =~= p + changed + rest);
    assert(e.rd.input.subrange(0, TRAILER_SIZE as int) =~= changed);
    if trailer_agrees(parse_trailer(changed), data, HEADER_SIZE + p.len() + TRAILER_SIZE) {
        assert(parse_trailer(changed) == t);
        lemma_parse_trailer_injective(changed, tb);
    }
    lemma_step_payload_end(input, size, dict, e);
}

/// The same of a reader: its first step on a source that holds such a
/// member with its trailer changed fails with a data error, whether the
/// reader decodes one member or all.
pub proof fn lemma_reader_changed_trailer(
    dictionary_byte: u8,
    ops: Seq<Op>,
    changed: Seq<u8>,
    rest: Seq<u8>,
    size: nat,
    multi: bool,
)
    requires
        valid_dictionary_size(coded_dictionary_size(dictionary_byte)),
        is_parse(ops, coded_dictionary_size(dictionary_byte) as u32),
        (header_bytes(dictionary_byte) + payload_bytes(ops) + changed + rest).len()
            <= RD_BUFFER_SIZE,
        enc_ops(ops).lz.data.len() + MAX_MATCH_LEN <= u64::MAX,
        changed.len() == TRAILER_SIZE,
        changed != member_trailer(ops),
        size > enc_ops(ops).lz.data.len(),
    ensures
        ReaderState::init(multi).turn(
            header_bytes(dictionary_byte) + payload_bytes(ops) + changed + rest,
            size,
        ).next == Next::Invalid(Error::Data),
{
    lemma_decompress_changed_trailer(dictionary_byte, ops, changed, rest, size);
}

/// The same of a reader and a member as it was coded: its first step yields
/// the data, consumes the member and nothing after it, and leaves the reader
/// done with the member.
pub proof fn lemma_reader_round_trip(
    dictionary_byte: u8,
    ops: Seq<Op>,
    rest: Seq<u8>,
    size: nat,
    multi: bool,
)
    requires
        valid_dictionary_size(coded_dictionary_size(dictionary_byte)),
        is_parse(ops, coded_dictionary_size(dictionary_byte) as u32),
        (member_bytes(dictionary_byte, ops) + rest).len() <= RD_BUFFER_SIZE,
        enc_ops(ops).lz.data.len() + MAX_MATCH_LEN <= u64::MAX,
        size > enc_ops(ops).lz.data.len(),
    ensures
        ({
            let t = ReaderState::init(multi).turn(member_bytes(dictionary_byte, ops) + rest, size);
            &&& t.data == enc_ops(ops).lz.data
            &&& t.consumed == member_bytes(dictionary_byte, ops).len()
            &&& t.state.done
            &&& t.next == if t.data.len() > 0 {
                Next::Return(t.data.len() as usize)
            } else {
                Next::Again
            }
        }),
{
    lemma_decompress_round_trip(dictionary_byte, ops, rest, size);
}

} // verus!
