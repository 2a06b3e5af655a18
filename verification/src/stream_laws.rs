//! The streaming decoder, step by step, on a source that is at hand as a
//! whole: whatever the room for data at each step, the steps produce the
//! data of the member piece by piece, and end the member, having consumed it
//! and nothing after it, or fail with a data error if its trailer disagrees.
//!
//! The laws are for a source that the input queue has room for, and that
//! hands over, at every step, all that is left of it.

use vstd::prelude::*;
use crate::buffer::member_head;
use crate::bufread::{Next, ReaderState};
use crate::decoder::DecoderState;
use crate::decoder_laws::{
    dec_of,
    in_payload,
    hand_out,
    read_of,
    pumped,
    lemma_on_the_way,
    lemma_run_payload,
    lemma_read_shape,
    lemma_pumped,
    lemma_pumped_failed,
    lemma_start_payload,
    lemma_walk_input,
};
use crate::errno::Errno;
use crate::crc::crc32;
use crate::header::{
    Trailer,
    header_bytes,
    trailer_bytes,
    parse_header,
    parse_trailer,
    coded_dictionary_size,
    valid_dictionary_size,
    lemma_trailer_round_trip,
    lemma_parse_trailer_injective,
    HEADER_SIZE,
    TRAILER_SIZE,
};
use crate::lz_encoder::{enc_ops, is_parse, member_bytes, payload_bytes};
use crate::lzma::{Op, MAX_MATCH_LEN};
use crate::member_laws::{
    member_trailer,
    lemma_header,
    lemma_member_round_trip,
    lemma_payload_round_trip,
};
use crate::input_laws::{is_tail, lemma_tail, lemma_tail_self};
use crate::lz_decoder::{Dec, Stage, Outcome, lzd_run, trailer_agrees};
use crate::member::{Walk, payload_end, dec_init, decode_member, run_steps, walk_limit};
use crate::mem::{pump, Pumped, DecompressState, Status, Error};
use crate::range_decoder::{RD_BUFFER_SIZE, LOAD_SIZE};

verus! {

/// Whether the decoder `q` is at the end of the payload that ends in the
/// state `e`, with the trailer read and `delivered` bytes of the data read:
/// done with the payload if the trailer agreed, failed with a data error if
/// it did not.
pub open spec fn ended(
    q: DecoderState,
    e: Dec,
    dictionary_size: u32,
    delivered: int,
    size_read: int,
    agrees: bool,
) -> bool {
    let m = q.member->Some_0;
    &&& q.member is Some
    &&& m.lz == e.lz
    &&& m.delivered == delivered
    &&& m.dictionary_size == dictionary_size
    &&& q.input == e.rd.input.skip(TRAILER_SIZE as int)
    &&& q.total_in == size_read
    &&& !q.seeking
    &&& if agrees {
        m.stage == Stage::Finished && !q.fatal && q.errno == Errno::NoError
    } else {
        m.stage == Stage::TrailerPending && q.fatal && q.errno == Errno::DataError
    }
}

/// Whether the trailer at the end of the payload agrees, for a decoder `s`
/// in the payload of a member whose input at hand holds all that is left.
pub open spec fn trailer_ok(s: DecoderState, e: Dec) -> bool {
    trailer_agrees(
        parse_trailer(e.rd.input.subrange(0, TRAILER_SIZE as int)),
        e.lz.data,
        s.total_in + s.input.len() - e.rd.input.len() + TRAILER_SIZE - s.member->Some_0.start,
    )
}

/// The smaller of two numbers.
pub open spec fn least(a: int, b: int) -> int {
    if a <= b {
        a
    } else {
        b
    }
}

/// What one read of a decoder in the payload of a member comes to, where the
/// input at hand holds all that is left of the member: the data in the
/// window is read as far as there is room; if the payload was decoded to its
/// end, the trailer was read too.
pub open spec fn read_any(
    s: DecoderState,
    size: nat,
    d0: Dec,
    dictionary_size: u32,
    k: nat,
    e: Dec,
    q: (DecoderState, Result<Seq<u8>, Errno>),
) -> bool {
    let m = s.member->Some_0;
    let r = lzd_run(dec_of(s), dictionary_size, m.free_space());
    let j = run_steps(dec_of(s), dictionary_size, m.free_space());
    let now = q.0.member->Some_0.delivered;
    &&& q.0.member is Some
    &&& q.0.member->Some_0.start == m.start
    &&& q.0.at_stream_end == s.at_stream_end
    &&& q.0.partial_out == s.partial_out
    &&& q.0.total_in + q.0.input.len() == s.total_in + s.input.len()
    &&& is_tail(q.0.input, s.input)
    &&& m.delivered <= now <= e.lz.data.len()
    &&& now - m.delivered <= size
    &&& if r.1 == Outcome::NeedSpace {
        &&& in_payload(q.0, d0, dictionary_size, k + j)
        &&& now > m.delivered
        &&& q.1 == Ok::<Seq<u8>, Errno>(e.lz.data.subrange(m.delivered as int, now as int))
    } else {
        &&& now - m.delivered == least(size as int, e.lz.data.len() - m.delivered)
        &&& ended(
            q.0,
            e,
            dictionary_size,
            now as int,
            s.total_in + s.input.len() - e.rd.input.len() + TRAILER_SIZE,
            trailer_ok(s, e),
        )
        &&& q.1 == if !trailer_ok(s, e) && e.lz.data.len() == m.delivered {
            Err::<Seq<u8>, Errno>(Errno::DataError)
        } else {
            Ok::<Seq<u8>, Errno>(e.lz.data.subrange(m.delivered as int, now as int))
        }
    }
}

/// One read of a decoder in the payload of a member, of which the input at
/// hand holds all that is left, comes to what `read_any` says.
#[verifier::rlimit(50)]
pub proof fn lemma_read_any(
    s: DecoderState,
    size: nat,
    d0: Dec,
    dictionary_size: u32,
    k: nat,
    e: Dec,
)
    requires
        in_payload(s, d0, dictionary_size, k),
        payload_end(d0, dictionary_size) == Walk::Ended(e),
        e.rd.input.len() >= TRAILER_SIZE,
        size >= 1,
    ensures
        read_any(s, size, d0, dictionary_size, k, e, read_of(s, size)),
{
    reveal(read_of);
    let m = s.member->Some_0;
    let r = lzd_run(dec_of(s), dictionary_size, m.free_space());
    lemma_run_payload(s, d0, dictionary_size, k, e);
    lemma_read_shape(s, size);
    let t1 = s.run();
    let t = t1.trailer();
    let q = s.read(size);
    assert(q == hand_out(t, size));
    let m1 = t1.member->Some_0;
    if r.1 == Outcome::NeedSpace {
        assert(t == t1);
        assert(q.0 == t1.drain(size).0);
        let now = q.0.member->Some_0.delivered;
        assert(t1.drain(size).1 =~= e.lz.data.subrange(m.delivered as int, now as int));
        assert(dec_of(q.0) == dec_of(t1));
    } else {
        let left = e.lz.data.skip(m.delivered as int);
        assert(t1.input == e.rd.input);
        assert(t.pending() =~= left);
        let now = q.0.member->Some_0.delivered;
        if !(t.fatal && left.len() == 0) {
            assert(t.drain(size).1 =~= e.lz.data.subrange(m.delivered as int, now as int));
        }
        assert(is_tail(q.0.input, s.input)) by {
            assert(e.rd.input.skip(TRAILER_SIZE as int) =~= e.rd.input.skip(
                e.rd.input.len() - (e.rd.input.len() - TRAILER_SIZE),
            ));
            lemma_tail(q.0.input, e.rd.input, s.input);
        }
    }
}

/// What reading from a decoder in the payload of a member comes to, where
/// the input at hand holds all that is left of the member: the data that is
/// left is read as far as there is room, and the decoder is in the payload
/// still or at its end; it is at its end if there was room for more than the
/// data that was left.
pub open spec fn pumped_any(
    s: DecoderState,
    size: nat,
    d0: Dec,
    dictionary_size: u32,
    e: Dec,
    p: Pumped,
) -> bool {
    let m = s.member->Some_0;
    let now = m.delivered + least(size as int, e.lz.data.len() - m.delivered);
    let size_read = s.total_in + s.input.len() - e.rd.input.len() + TRAILER_SIZE;
    &&& p.data == e.lz.data.subrange(m.delivered as int, now)
    &&& !p.stalled
    &&& p.dec.member is Some
    &&& p.dec.member->Some_0.start == m.start
    &&& p.dec.member->Some_0.delivered == now
    &&& p.dec.at_stream_end == s.at_stream_end
    &&& p.dec.partial_out == s.partial_out
    &&& p.dec.total_in + p.dec.input.len() == s.total_in + s.input.len()
    &&& is_tail(p.dec.input, s.input)
    &&& (exists|k2: nat| in_payload(p.dec, d0, dictionary_size, k2)) || ended(
        p.dec,
        e,
        dictionary_size,
        now,
        size_read,
        trailer_ok(s, e),
    )
    &&& size > e.lz.data.len() - m.delivered ==> ended(
        p.dec,
        e,
        dictionary_size,
        now,
        size_read,
        trailer_ok(s, e),
    )
}

/// Reading from a decoder in the payload of a member, of which the input at
/// hand holds all that is left, comes to what `pumped_any` says.
pub proof fn lemma_pump_any(
    s: DecoderState,
    size: nat,
    d0: Dec,
    dictionary_size: u32,
    k: nat,
    e: Dec,
)
    requires
        in_payload(s, d0, dictionary_size, k),
        payload_end(d0, dictionary_size) == Walk::Ended(e),
        e.rd.input.len() >= TRAILER_SIZE,
        size >= 1,
    ensures
        pumped_any(s, size, d0, dictionary_size, e, pumped(s, size)),
    decreases e.lz.data.len() - s.member->Some_0.delivered,
{
    let m = s.member->Some_0;
    let q = read_of(s, size);
    lemma_on_the_way(d0, dictionary_size, k, e);
    lemma_read_any(s, size, d0, dictionary_size, k, e);
    lemma_pumped(s, size);
    let now = q.0.member->Some_0.delivered;
    let got = e.lz.data.subrange(m.delivered as int, now as int);
    let last = m.delivered + least(size as int, e.lz.data.len() - m.delivered);
    if lzd_run(dec_of(s), dictionary_size, m.free_space()).1 == Outcome::NeedSpace {
        let j = run_steps(dec_of(s), dictionary_size, m.free_space());
        assert(!q.0.member_finished());
        if got.len() >= size {
            assert(in_payload(pumped(s, size).dec, d0, dictionary_size, k + j));
        } else {
            lemma_pump_any(q.0, (size - got.len()) as nat, d0, dictionary_size, k + j, e);
            let rec = pumped(q.0, (size - got.len()) as nat);
            assert(got + rec.data =~= e.lz.data.subrange(m.delivered as int, last));
            lemma_tail(rec.dec.input, q.0.input, s.input);
            assert(trailer_ok(q.0, e) == trailer_ok(s, e));
        }
    } else {
        match q.1 {
            Ok(chunk) => {
                if !q.0.member_finished() && chunk.len() < size && chunk.len() > 0 {
                    lemma_pumped_failed(q.0, (size - chunk.len()) as nat);
                    assert(chunk + Seq::<u8>::empty() =~= chunk);
                }
            },
            Err(_) => {
                assert(e.lz.data.subrange(m.delivered as int, last) =~= Seq::<u8>::empty());
            },
        }
    }
}

/// Reading from a decoder that is done with the payload of a member and has
/// data left to read: the data is read as far as there is room, and nothing
/// else changes.
pub proof fn lemma_pump_finished(s: DecoderState, size: nat)
    requires
        !s.fatal,
        !s.seeking,
        s.member is Some,
        s.member->Some_0.stage == Stage::Finished,
        s.member->Some_0.delivered < s.member->Some_0.lz.data.len(),
        size >= 1,
    ensures
        ({
            let m = s.member->Some_0;
            let now = m.delivered + least(size as int, m.lz.data.len() - m.delivered);
            let p = pumped(s, size);
            &&& p.data == m.lz.data.subrange(m.delivered as int, now)
            &&& !p.stalled
            &&& p.dec == (DecoderState {
                member: Some(crate::decoder::MemberState { delivered: now as nat, ..m }),
                ..s
            })
        }),
{
    reveal(read_of);
    lemma_pumped(s, size);
    let m = s.member->Some_0;
    assert(s.retire() == s);
    assert(s.retire().start() == s);
    assert(s.run() == s);
    assert(s.run().trailer() == s);
    let now = m.delivered + least(size as int, m.lz.data.len() - m.delivered);
    assert(s.drain(size).1 =~= m.lz.data.subrange(m.delivered as int, now));
}

/// The decoder `s` with `input` in its queue.
pub open spec fn with_input(s: DecoderState, input: Seq<u8>) -> DecoderState {
    DecoderState { input, ..s }
}

/// Whether the source `source` starts with a member whose header is right
/// and whose payload is decoded to its marker, in the state `e`, with a
/// trailer after it; and the input queue has room for the source.
pub open spec fn whole_member(source: Seq<u8>, dictionary_size: u32, e: Dec) -> bool {
    &&& source.len() <= RD_BUFFER_SIZE
    &&& member_head(source) == Ok::<u32, Errno>(dictionary_size)
    &&& payload_end(dec_init(source.skip(HEADER_SIZE as int)), dictionary_size) == Walk::Ended(e)
    &&& e.rd.input.len() >= TRAILER_SIZE
}

/// The size of the member that the source starts with.
pub open spec fn member_size(source: Seq<u8>, e: Dec) -> int {
    source.len() - e.rd.input.len() + TRAILER_SIZE
}

/// Whether the trailer of the member that the source starts with agrees
/// with the data and with the size of the member.
pub open spec fn member_agrees(source: Seq<u8>, e: Dec) -> bool {
    trailer_agrees(
        parse_trailer(e.rd.input.subrange(0, TRAILER_SIZE as int)),
        e.lz.data,
        member_size(source, e),
    )
}

/// Whether the stream `s` is on its way through the member that `source`
/// starts with: it has consumed a part of the source and given back the
/// rest, so that its queue is empty; it is in the payload, or done with it
/// with data left to read; and nothing is wrong.
pub open spec fn tracks(s: DecompressState, source: Seq<u8>, dictionary_size: u32, e: Dec) -> bool {
    let d = s.dec;
    let m = d.member->Some_0;
    let st = with_input(d, source.skip(d.total_in as int));
    &&& whole_member(source, dictionary_size, e)
    &&& d.input.len() == 0
    &&& d.total_in <= source.len()
    &&& !d.at_stream_end
    &&& !d.seeking
    &&& !d.fatal
    &&& d.errno == Errno::NoError
    &&& d.member is Some
    &&& m.start == 0
    &&& m.delivered <= e.lz.data.len()
    &&& (exists|k: nat|
        in_payload(st, dec_init(source.skip(HEADER_SIZE as int)), dictionary_size, k)) || (ended(
        st,
        e,
        dictionary_size,
        m.delivered as int,
        member_size(source, e),
        true,
    ) && member_agrees(source, e) && m.delivered < e.lz.data.len())
}

/// What a step of a stream that has read `delivered` bytes of the data of
/// the member that `source` starts with comes to, with room for `room`
/// bytes: the data that is left is produced as far as there is room; the
/// step ends the member, having consumed it and nothing after it, once all
/// the data is produced and the trailer agrees; it fails with a data error
/// once the payload is decoded and the trailer disagrees; and else the
/// stream is on its way still.
pub open spec fn step_on(
    p: crate::mem::Progress,
    before: nat,
    delivered: nat,
    room: nat,
    source: Seq<u8>,
    dictionary_size: u32,
    e: Dec,
) -> bool {
    let left = e.lz.data.len() - delivered;
    let now = delivered + least(room as int, left);
    &&& p.data == e.lz.data.subrange(delivered as int, now)
    &&& p.state.dec.total_in == before + p.consumed
    &&& p.state.dec.total_in <= source.len()
    &&& p.result != Ok::<Status, Error>(Status::MemNeeded)
    &&& p.result == Ok::<Status, Error>(Status::RunOk) ==> tracks(
        p.state,
        source,
        dictionary_size,
        e,
    ) && p.state.dec.member->Some_0.delivered == now
    &&& p.result == Ok::<Status, Error>(Status::StreamEnd) ==> member_agrees(source, e) && now
        == e.lz.data.len() && p.state.dec.total_in == member_size(source, e)
    &&& p.result is Err ==> !member_agrees(source, e) && p.result == Err::<Status, Error>(
        Error::Data,
    )
    &&& room > left ==> p.result == if member_agrees(source, e) {
        Ok::<Status, Error>(Status::StreamEnd)
    } else {
        Err::<Status, Error>(Error::Data)
    }
}

/// What is left in the queue after reading is what is left of the source.
proof fn lemma_rest_of_source(source: Seq<u8>, c: int, rest: Seq<u8>)
    requires
        0 <= c <= source.len(),
        is_tail(rest, source.skip(c)),
    ensures
        rest == source.skip(source.len() - rest.len()),
{
    assert(source.skip(c).skip(source.skip(c).len() - rest.len()) =~= source.skip(
        source.len() - rest.len(),
    ));
}

/// The step of a stream that is on its way through the member that the
/// source starts with, given all that is left of the source, comes to what
/// `step_on` says.
#[verifier::rlimit(50)]
pub proof fn lemma_step_tracks(
    s: DecompressState,
    source: Seq<u8>,
    dictionary_size: u32,
    e: Dec,
    room: nat,
)
    requires
        tracks(s, source, dictionary_size, e),
        room >= 1,
    ensures
        step_on(
            s.step(source.skip(s.dec.total_in as int), room),
            s.dec.total_in,
            s.dec.member->Some_0.delivered,
            room,
            source,
            dictionary_size,
            e,
        ),
{
    let d = s.dec;
    let m = d.member->Some_0;
    let c = d.total_in as int;
    let input = source.skip(c);
    let st = with_input(d, input);
    let d0 = dec_init(source.skip(HEADER_SIZE as int));
    assert(input.subrange(0, input.len() as int) =~= input);
    assert(d.input + input =~= input);
    assert(d.write(input).0 == st);
    assert(d.write(input).1 == Ok::<nat, Errno>(input.len()));
    reveal(pumped);
    let p = pump(st, room);
    lemma_walk_input(d0, dictionary_size, walk_limit());
    if exists|k: nat| in_payload(st, d0, dictionary_size, k) {
        let k = choose|k: nat| in_payload(st, d0, dictionary_size, k);
        lemma_pump_any(st, room, d0, dictionary_size, k, e);
    } else {
        lemma_pump_finished(st, room);
        lemma_tail_self(st.input);
    }
    lemma_rest_of_source(source, c, p.dec.input);
    let after = p.dec.unwrite(p.dec.input.len());
    assert(after.input =~= Seq::<u8>::empty());
    assert(with_input(after, source.skip(after.total_in as int)) == p.dec);
}

/// The first step of a stream on a source that starts with a member, given
/// the whole source, comes to what `step_on` says.
#[verifier::rlimit(50)]
pub proof fn lemma_step_first(source: Seq<u8>, dictionary_size: u32, e: Dec, room: nat)
    requires
        whole_member(source, dictionary_size, e),
        room >= 1,
    ensures
        step_on(DecompressState::init().step(source, room), 0, 0, room, source, dictionary_size, e),
{
    let d0 = dec_init(source.skip(HEADER_SIZE as int));
    let w = DecoderState::init().write(source).0;
    let s1 = w.start();
    lemma_start_payload(source, room, dictionary_size);
    lemma_pump_any(s1, room, d0, dictionary_size, 0, e);
    lemma_walk_input(d0, dictionary_size, walk_limit());
    let p = pump(w, room);
    assert(p == pumped(s1, room));
    assert(s1.input =~= source.skip((HEADER_SIZE + LOAD_SIZE) as int));
    lemma_rest_of_source(source, (HEADER_SIZE + LOAD_SIZE) as int, p.dec.input);
    let after = p.dec.unwrite(p.dec.input.len());
    assert(after.input =~= Seq::<u8>::empty());
    assert(with_input(after, source.skip(after.total_in as int)) == p.dec);
}

/// The sum of the numbers of a run.
pub open spec fn sum(rooms: Seq<nat>) -> nat
    decreases rooms.len(),
{
    if rooms.len() == 0 {
        0
    } else {
        rooms[0] + sum(rooms.skip(1))
    }
}

/// Steps of a stream on a source that hands over all that is left of it,
/// one for each of `rooms` with that much room for data, until a step ends
/// the member or fails: the data produced, and what the last step returned.
pub open spec fn drive(s: DecompressState, source: Seq<u8>, rooms: Seq<nat>) -> (
    Seq<u8>,
    Result<Status, Error>,
)
    decreases rooms.len(),
{
    if rooms.len() == 0 {
        (Seq::empty(), Ok(Status::RunOk))
    } else {
        let p = s.step(source.skip(s.dec.total_in as int), rooms[0]);
        if p.result == Ok::<Status, Error>(Status::RunOk) {
            let r = drive(p.state, source, rooms.skip(1));
            (p.data + r.0, r.1)
        } else {
            (p.data, p.result)
        }
    }
}

/// What steps with room for more than the data that is left come to: all
/// the data that is left and the end of the member, if the trailer agrees;
/// a data error, after a part of the data that is left, if it does not.
pub open spec fn driven(
    r: (Seq<u8>, Result<Status, Error>),
    delivered: nat,
    source: Seq<u8>,
    e: Dec,
) -> bool {
    if member_agrees(source, e) {
        r == (e.lz.data.skip(delivered as int), Ok::<Status, Error>(Status::StreamEnd))
    } else {
        &&& r.1 == Err::<Status, Error>(Error::Data)
        &&& r.0.len() <= e.lz.data.len() - delivered
        &&& r.0 == e.lz.data.subrange(delivered as int, (delivered + r.0.len()) as int)
    }
}

/// Whatever the room at each step, as long as there is some: steps of a
/// stream that is on its way through a member, with room in all for more
/// than the data that is left, produce the data that is left and end the
/// member if its trailer agrees, and fail with a data error if it does not.
pub proof fn lemma_drive(
    s: DecompressState,
    source: Seq<u8>,
    dictionary_size: u32,
    e: Dec,
    rooms: Seq<nat>,
)
    requires
        tracks(s, source, dictionary_size, e),
        forall|i: int| 0 <= i < rooms.len() ==> #[trigger] rooms[i] >= 1,
        sum(rooms) > e.lz.data.len() - s.dec.member->Some_0.delivered,
    ensures
        driven(drive(s, source, rooms), s.dec.member->Some_0.delivered, source, e),
    decreases rooms.len(),
{
    let delivered = s.dec.member->Some_0.delivered;
    let left = e.lz.data.len() - delivered;
    assert(rooms.len() > 0);
    let p = s.step(source.skip(s.dec.total_in as int), rooms[0]);
    lemma_step_tracks(s, source, dictionary_size, e, rooms[0]);
    let now = delivered + least(rooms[0] as int, left);
    if p.result == Ok::<Status, Error>(Status::RunOk) {
        let rest = rooms.skip(1);
        assert forall|i: int| 0 <= i < rest.len() implies #[trigger] rest[i] >= 1 by {
            assert(rest[i] == rooms[i + 1]);
        }
        lemma_drive(p.state, source, dictionary_size, e, rest);
        let r = drive(p.state, source, rest);
        if member_agrees(source, e) {
            assert(p.data + r.0 =~= e.lz.data.skip(delivered as int));
        } else {
            assert(p.data + r.0 =~= e.lz.data.subrange(
                delivered as int,
                (delivered + (p.data + r.0).len()) as int,
            ));
        }
    } else {
        assert(p.data =~= e.lz.data.subrange(delivered as int, (delivered + p.data.len()) as int));
        if member_agrees(source, e) {
            assert(p.data =~= e.lz.data.skip(delivered as int));
        }
    }
}

/// The same of a stream that was just made: steps on a source that starts
/// with a member, with room in all for more than its data, produce the data
/// and end the member if its trailer agrees, and fail with a data error if
/// it does not.
pub proof fn lemma_drive_first(source: Seq<u8>, dictionary_size: u32, e: Dec, rooms: Seq<nat>)
    requires
        whole_member(source, dictionary_size, e),
        forall|i: int| 0 <= i < rooms.len() ==> #[trigger] rooms[i] >= 1,
        sum(rooms) > e.lz.data.len(),
    ensures
        driven(drive(DecompressState::init(), source, rooms), 0, source, e),
{
    let s = DecompressState::init();
    assert(rooms.len() > 0);
    assert(source.skip(0) =~= source);
    let p = s.step(source, rooms[0]);
    lemma_step_first(source, dictionary_size, e, rooms[0]);
    if p.result == Ok::<Status, Error>(Status::RunOk) {
        let rest = rooms.skip(1);
        assert forall|i: int| 0 <= i < rest.len() implies #[trigger] rest[i] >= 1 by {
            assert(rest[i] == rooms[i + 1]);
        }
        lemma_drive(p.state, source, dictionary_size, e, rest);
        let r = drive(p.state, source, rest);
        if member_agrees(source, e) {
            assert(p.data + r.0 =~= e.lz.data.skip(0));
        } else {
            assert(p.data + r.0 =~= e.lz.data.subrange(0, (p.data + r.0).len() as int));
        }
    } else {
        assert(p.data =~= e.lz.data.subrange(0, p.data.len() as int));
        if member_agrees(source, e) {
            assert(p.data =~= e.lz.data.skip(0));
        }
    }
}

/// A source that starts with a member, as `decode_member` finds it, is a
/// whole member whose trailer agrees, with the data and the size that
/// `decode_member` gives.
pub proof fn lemma_whole_member(source: Seq<u8>)
    requires
        source.len() <= RD_BUFFER_SIZE,
        decode_member(source) is Member,
    ensures
        ({
            let dictionary_size = parse_header(source.subrange(0, HEADER_SIZE as int))->Ok_0;
            let e = payload_end(
                dec_init(source.skip(HEADER_SIZE as int)),
                dictionary_size,
            )->Ended_0;
            &&& whole_member(source, dictionary_size, e)
            &&& member_agrees(source, e)
            &&& e.lz.data == decode_member(source)->data
            &&& member_size(source, e) == decode_member(source)->size
        }),
{
    let dictionary_size = parse_header(source.subrange(0, HEADER_SIZE as int))->Ok_0;
    let payload = source.skip(HEADER_SIZE as int);
    let e = payload_end(dec_init(payload), dictionary_size)->Ended_0;
    assert(member_head(source) == Ok::<u32, Errno>(dictionary_size));
    lemma_walk_input(dec_init(payload), dictionary_size, walk_limit());
    assert(e.rd.input.len() <= source.len());
}

/// Encoding then decoding gives the data back through the streaming
/// decoder, whatever the room at each step: steps on a source that holds a
/// member that a parse is coded to, and anything after it, with room in all
/// for more than the data, produce the data that the parse stands for and
/// end the member.
pub proof fn lemma_drive_round_trip(
    dictionary_byte: u8,
    ops: Seq<Op>,
    rest: Seq<u8>,
    rooms: Seq<nat>,
)
    requires
        valid_dictionary_size(coded_dictionary_size(dictionary_byte)),
        is_parse(ops, coded_dictionary_size(dictionary_byte) as u32),
        (member_bytes(dictionary_byte, ops) + rest).len() <= RD_BUFFER_SIZE,
        enc_ops(ops).lz.data.len() + MAX_MATCH_LEN <= u64::MAX,
        forall|i: int| 0 <= i < rooms.len() ==> #[trigger] rooms[i] >= 1,
        sum(rooms) > enc_ops(ops).lz.data.len(),
    ensures
        drive(DecompressState::init(), member_bytes(dictionary_byte, ops) + rest, rooms) == (
            enc_ops(ops).lz.data,
            Ok::<Status, Error>(Status::StreamEnd),
        ),
{
    let source = member_bytes(dictionary_byte, ops) + rest;
    lemma_member_round_trip(dictionary_byte, ops, rest);
    lemma_whole_member(source);
    let dictionary_size = parse_header(source.subrange(0, HEADER_SIZE as int))->Ok_0;
    let e = payload_end(dec_init(source.skip(HEADER_SIZE as int)), dictionary_size)->Ended_0;
    lemma_drive_first(source, dictionary_size, e, rooms);
    assert(e.lz.data.skip(0) =~= e.lz.data);
}

/// A trailer that was changed in any way fails the streaming decoder,
/// whatever the room at each step: steps on a source that holds a member
/// that a parse is coded to, with its trailer changed, and anything after
/// it, with room in all for more than the data, fail with a data error.
pub proof fn lemma_drive_changed_trailer(
    dictionary_byte: u8,
    ops: Seq<Op>,
    changed: Seq<u8>,
    rest: Seq<u8>,
    rooms: Seq<nat>,
)
    requires
        valid_dictionary_size(coded_dictionary_size(dictionary_byte)),
        is_parse(ops, coded_dictionary_size(dictionary_byte) as u32),
        (header_bytes(dictionary_byte) + payload_bytes(ops) + changed + rest).len()
            <= RD_BUFFER_SIZE,
        enc_ops(ops).lz.data.len() + MAX_MATCH_LEN <= u64::MAX,
        changed.len() == TRAILER_SIZE,
        changed != member_trailer(ops),
        forall|i: int| 0 <= i < rooms.len() ==> #[trigger] rooms[i] >= 1,
        sum(rooms) > enc_ops(ops).lz.data.len(),
    ensures
        drive(
            DecompressState::init(),
            header_bytes(dictionary_byte) + payload_bytes(ops) + changed + rest,
            rooms,
        ).1 == Err::<Status, Error>(Error::Data),
{
    let dict = coded_dictionary_size(dictionary_byte) as u32;
    let data = enc_ops(ops).lz.data;
    let h = header_bytes(dictionary_byte);
    let p = payload_bytes(ops);
    let t = Trailer {
        data_crc: crc32(data),
        data_size: data.len() as u64,
        member_size: (HEADER_SIZE + p.len() + TRAILER_SIZE) as u64,
    };
    let tb = trailer_bytes(t);
    lemma_trailer_round_trip(t);
    lemma_header(dictionary_byte);
    lemma_payload_round_trip(ops, changed + rest, dict);
    assert((p + changed) + rest =~= p + (changed + rest));
    let source = h + p + changed + rest;
    let e = payload_end(dec_init(p + changed + rest), dict)->Ended_0;
    assert(source.subrange(0, HEADER_SIZE as int) =~= h);
    assert(source.skip(HEADER_SIZE as int) =~= p + changed + rest);
    assert(e.rd.input.subrange(0, TRAILER_SIZE as int) =~= changed);
    assert(member_head(source) == Ok::<u32, Errno>(dict));
    if trailer_agrees(parse_trailer(changed), data, HEADER_SIZE + p.len() + TRAILER_SIZE) {
        assert(parse_trailer(changed) == t);
        lemma_parse_trailer_injective(changed, tb);
    }
    lemma_drive_first(source, dict, e, rooms);
}

/// A step of a reader that is not done with its member is a step of its
/// stream: it consumes and produces what that step does, it is done once
/// that step ends the member, and it reports invalid data exactly if that
/// step fails, with the error of that step.
pub proof fn lemma_turn_of_step(r: ReaderState, input: Seq<u8>, room: nat)
    requires
        !r.done,
    ensures
        ({
            let p = r.data.step(input, room);
            let t = r.turn(input, room);
            &&& t.state.data == p.state
            &&& t.state.multi == r.multi
            &&& t.consumed == p.consumed
            &&& t.data == p.data
            &&& t.state.done == (p.result == Ok::<Status, Error>(Status::StreamEnd))
            &&& p.result matches Err(e) ==> t.next == Next::Invalid(e)
            &&& t.next is Invalid ==> p.result is Err
        }),
{
}

} // verus!
