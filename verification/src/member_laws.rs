//! Encoding then decoding gives the data back: what a parse is coded to
//! decodes to the data that the parse stands for.

use vstd::prelude::*;
use crate::bit_model::valid_probs;
use crate::crc::crc32;
use crate::errno::Errno;
use crate::header::{
    Trailer,
    HeaderFault,
    header_bytes,
    trailer_bytes,
    parse_header,
    parse_trailer,
    magic,
    coded_dictionary_size,
    valid_dictionary_size,
    lemma_trailer_round_trip,
    lemma_parse_trailer_injective,
    HEADER_SIZE,
    TRAILER_SIZE,
    VERSION,
};
use crate::lz_decoder::{Dec, Step, lzd_step, trailer_agrees};
use crate::lz_encoder::{
    enc_init,
    enc_ops,
    is_parse,
    all_parses,
    marker,
    payload_bytes,
    member_bytes,
    members_bytes,
    members_data,
    sizes_fit,
};
use crate::lzma::{Op, lemma_apply, NUM_MODELS, MAX_MATCH_LEN};
use crate::member::{
    Walk,
    Decoded,
    walk,
    walk_limit,
    payload_end,
    dec_init,
    decode_member,
    decode_stream,
    lemma_walk_stays,
};
use crate::op_encoder::op_events;
use crate::op_laws::{lemma_op_valid, lemma_op_sync, lemma_valid_concat};
use crate::range_decoder::{rd_load, rd_loadable, LOAD_SIZE};
use crate::range_encoder::{Re, re_init, re_events, re_normalize, lemma_re_events_concat};
use crate::range_laws::{
    re_inv,
    completes,
    rd_of,
    events_valid,
    be_value,
    lemma_init_inv,
    lemma_inv_forward,
    lemma_events_split,
    lemma_events_back,
    lemma_normalize_sync,
    lemma_flush_completes,
};

verus! {

/// The range encoder after the operations of a parse.
pub open spec fn re_after(ops: Seq<Op>) -> Re {
    re_events(re_init(), enc_ops(ops).evs)
}

/// The decoder in step with the encoder after the operations of a parse.
pub open spec fn dec_after(ops: Seq<Op>, f: Seq<u8>) -> Dec {
    Dec { rd: rd_of(re_after(ops), f), probs: enc_ops(ops).probs, lz: enc_ops(ops).lz }
}

/// The start of a parse is a parse.
pub proof fn lemma_parse_take(ops: Seq<Op>, i: int, dictionary_size: u32)
    requires
        is_parse(ops, dictionary_size),
        0 <= i <= ops.len(),
    ensures
        is_parse(ops.take(i), dictionary_size),
    decreases ops.len() - i,
{
    if i < ops.len() {
        lemma_parse_take(ops, i + 1, dictionary_size);
        assert(ops.take(i + 1).drop_last() =~= ops.take(i));
    } else {
        assert(ops.take(i) =~= ops);
    }
}

/// A parse for one dictionary size is a parse for any larger one.
pub proof fn lemma_parse_larger(ops: Seq<Op>, small: u32, large: u32)
    requires
        is_parse(ops, small),
        small <= large,
    ensures
        is_parse(ops, large),
    decreases ops.len(),
{
    if ops.len() > 0 {
        lemma_parse_larger(ops.drop_last(), small, large);
    }
}

/// What a parse comes to is valid: the events, the probabilities, the coding
/// state, and the invariant of the range encoder.
pub proof fn lemma_enc_valid(ops: Seq<Op>, dictionary_size: u32)
    requires
        is_parse(ops, dictionary_size),
    ensures
        events_valid(enc_ops(ops).evs),
        valid_probs(enc_ops(ops).probs),
        enc_ops(ops).probs.len() == NUM_MODELS,
        enc_ops(ops).lz.wf(dictionary_size),
        enc_ops(ops).lz.context().wf(),
        re_inv(re_after(ops)),
        ops.len() <= enc_ops(ops).lz.data.len(),
    decreases ops.len(),
{
    lemma_init_inv();
    if ops.len() == 0 {
        assert(events_valid(enc_init().evs));
    } else {
        let p = enc_ops(ops.drop_last());
        let op = ops.last();
        lemma_enc_valid(ops.drop_last(), dictionary_size);
        lemma_op_valid(p.probs, p.lz.context(), op);
        lemma_valid_concat(p.evs, op_events(p.probs, p.lz.context(), op).0);
        lemma_apply(p.lz, op, dictionary_size);
    }
    lemma_inv_forward(re_init(), enc_ops(ops).evs);
}

/// The data that the start of a parse stands for is no longer than the data
/// of the whole.
pub proof fn lemma_enc_data(ops: Seq<Op>, i: int, dictionary_size: u32)
    requires
        is_parse(ops, dictionary_size),
        0 <= i <= ops.len(),
    ensures
        enc_ops(ops.take(i)).lz.data.len() <= enc_ops(ops).lz.data.len(),
    decreases ops.len() - i,
{
    if i < ops.len() {
        lemma_enc_data(ops, i + 1, dictionary_size);
        lemma_parse_take(ops, i + 1, dictionary_size);
        lemma_parse_take(ops, i, dictionary_size);
        assert(ops.take(i + 1).drop_last() =~= ops.take(i));
        lemma_enc_valid(ops.take(i), dictionary_size);
        lemma_apply(enc_ops(ops.take(i)).lz, ops[i], dictionary_size);
    } else {
        assert(ops.take(i) =~= ops);
    }
}

/// Bytes that end up in the interval after a parse were in the interval
/// after every start of it.
pub proof fn lemma_completes_take(ops: Seq<Op>, i: int, f: Seq<u8>, dictionary_size: u32)
    requires
        is_parse(ops, dictionary_size),
        0 <= i <= ops.len(),
        completes(re_after(ops), f),
    ensures
        completes(re_after(ops.take(i)), f),
    decreases ops.len() - i,
{
    if i < ops.len() {
        lemma_completes_take(ops, i + 1, f, dictionary_size);
        lemma_parse_take(ops, i + 1, dictionary_size);
        lemma_parse_take(ops, i, dictionary_size);
        assert(ops.take(i + 1).drop_last() =~= ops.take(i));
        let p = enc_ops(ops.take(i));
        lemma_enc_valid(ops.take(i), dictionary_size);
        lemma_op_valid(p.probs, p.lz.context(), ops[i]);
        lemma_init_inv();
        lemma_events_split(re_init(), p.evs, op_events(p.probs, p.lz.context(), ops[i]).0, f);
    } else {
        assert(ops.take(i) =~= ops);
    }
}

/// The decoder, started in step with the encoder, is in step with it after
/// as many steps as the encoder wrote operations.
pub proof fn lemma_walk_parse(ops: Seq<Op>, i: int, f: Seq<u8>, dictionary_size: u32)
    requires
        is_parse(ops, dictionary_size),
        0 <= i <= ops.len(),
        completes(re_after(ops), f),
        enc_ops(ops).lz.data.len() + MAX_MATCH_LEN <= u64::MAX,
    ensures
        walk(dec_after(Seq::empty(), f), dictionary_size, i as nat) == Walk::At(
            dec_after(ops.take(i), f),
        ),
    decreases i,
{
    if i == 0 {
        assert(ops.take(0) =~= Seq::<Op>::empty());
    } else {
        lemma_walk_parse(ops, i - 1, f, dictionary_size);
        let prev = ops.take(i - 1);
        let cur = ops.take(i);
        let op = ops[i - 1];
        assert(cur.drop_last() =~= prev);
        assert(cur.last() == op);
        lemma_parse_take(ops, i, dictionary_size);
        lemma_parse_take(ops, i - 1, dictionary_size);
        lemma_enc_valid(prev, dictionary_size);
        lemma_enc_data(ops, i - 1, dictionary_size);
        lemma_completes_take(ops, i, f, dictionary_size);
        let p = enc_ops(prev);
        let c = op_events(p.probs, p.lz.context(), op);
        lemma_init_inv();
        lemma_re_events_concat(re_init(), p.evs, c.0);
        lemma_op_sync(re_after(prev), f, p.probs, p.lz.context(), op);
        let d = dec_after(prev, f);
        assert(lzd_step(d, dictionary_size) == Step::Next(dec_after(cur, f), op));
    }
}

/// The decoder in step with the encoder after a parse decodes the marker
/// next, and then has read exactly what the encoder's flush put out.
pub proof fn lemma_walk_end(ops: Seq<Op>, rest: Seq<u8>, dictionary_size: u32)
    requires
        is_parse(ops, dictionary_size),
        enc_ops(ops).lz.data.len() + MAX_MATCH_LEN <= u64::MAX,
    ensures
        completes(re_init(), payload_bytes(ops) + rest),
        payload_end(dec_after(Seq::empty(), payload_bytes(ops) + rest), dictionary_size) is Ended,
        payload_end(
            dec_after(Seq::empty(), payload_bytes(ops) + rest),
            dictionary_size,
        )->Ended_0.lz == enc_ops(ops).lz,
        payload_end(
            dec_after(Seq::empty(), payload_bytes(ops) + rest),
            dictionary_size,
        )->Ended_0.rd.input == rest,
{
    let e = enc_ops(ops);
    let n = ops.len();
    let m = op_events(e.probs, e.lz.context(), marker());
    let re_n = re_after(ops);
    let re_end = re_events(re_n, m.0);
    let f = payload_bytes(ops) + rest;
    reveal(payload_bytes);
    lemma_init_inv();
    lemma_enc_valid(ops, dictionary_size);
    lemma_op_valid(e.probs, e.lz.context(), marker());
    lemma_re_events_concat(re_init(), e.evs, m.0);
    lemma_inv_forward(re_n, m.0);
    lemma_flush_completes(re_end, rest);
    lemma_normalize_sync(re_end, f);
    lemma_events_back(re_n, m.0, f);
    lemma_events_back(re_init(), e.evs, f);
    lemma_walk_parse(ops, n as int, f, dictionary_size);
    assert(ops.take(n as int) =~= ops);
    lemma_op_sync(re_n, f, e.probs, e.lz.context(), marker());
    let d = dec_after(ops, f);
    let end = Dec { rd: rd_of(re_normalize(re_end), f), probs: m.1, lz: e.lz };
    assert(lzd_step(d, dictionary_size) == Step::End(end));
    let d0 = dec_after(Seq::empty(), f);
    assert(walk(d0, dictionary_size, n + 1) == Walk::Ended(end));
    lemma_walk_stays(d0, dictionary_size, n + 1, walk_limit());
}

/// The value of the first five bytes of a payload that the encoder may end
/// up with: its first byte is 0, and the decoder primed from it is in step
/// with the encoder at its start.
pub proof fn lemma_load_sync(f: Seq<u8>)
    requires
        completes(re_init(), f),
    ensures
        rd_loadable(f),
        rd_load(f) == rd_of(re_init(), f),
{
    lemma_init_inv();
    let s0 = f.subrange(0, 0);
    let s1 = f.subrange(0, 1);
    let s2 = f.subrange(0, 2);
    let s3 = f.subrange(0, 3);
    let s4 = f.subrange(0, 4);
    let s5 = f.subrange(0, 5);
    assert(s1.drop_last() =~= s0);
    assert(s2.drop_last() =~= s1);
    assert(s3.drop_last() =~= s2);
    assert(s4.drop_last() =~= s3);
    assert(s5.drop_last() =~= s4);
    assert(be_value(s0) == 0);
    assert(be_value(s1) == f[0]);
    assert(be_value(s2) == be_value(s1) * 256 + f[1]);
    assert(be_value(s3) == be_value(s2) * 256 + f[2]);
    assert(be_value(s4) == be_value(s3) * 256 + f[3]);
    assert(be_value(s5) == be_value(s4) * 256 + f[4]);
    assert(rd_load(f) =~= rd_of(re_init(), f));
}

/// A member that a parse is coded to, with anything after it, decodes to
/// the data that the parse stands for, and is as long as it was coded.
pub proof fn lemma_member_round_trip(dictionary_byte: u8, ops: Seq<Op>, rest: Seq<u8>)
    requires
        valid_dictionary_size(coded_dictionary_size(dictionary_byte)),
        is_parse(ops, coded_dictionary_size(dictionary_byte) as u32),
        enc_ops(ops).lz.data.len() + MAX_MATCH_LEN <= u64::MAX,
        member_bytes(dictionary_byte, ops).len() <= u64::MAX,
    ensures
        decode_member(member_bytes(dictionary_byte, ops) + rest) == (Decoded::Member {
            data: enc_ops(ops).lz.data,
            size: member_bytes(dictionary_byte, ops).len(),
            rest,
        }),
        member_bytes(dictionary_byte, ops).len() >= HEADER_SIZE + TRAILER_SIZE,
{
    let dict = coded_dictionary_size(dictionary_byte) as u32;
    let data = enc_ops(ops).lz.data;
    let h = header_bytes(dictionary_byte);
    let p = payload_bytes(ops);
    let t = Trailer {
        data_crc: crc32(data),
        data_size: data.len() as u64,
        member_size: (HEADER_SIZE + p.len() + TRAILER_SIZE) as u64,
    };
    let tb = trailer_bytes(t);
    lemma_trailer_round_trip(t);
    lemma_header(dictionary_byte);
    lemma_payload_round_trip(ops, tb + rest, dict);
    assert((p + tb) + rest =~= p + (tb + rest));
    let e = payload_end(dec_init(p + tb + rest), dict)->Ended_0;
    lemma_decode_member_of(h, p, tb, rest, dict, e);
    assert(member_bytes(dictionary_byte, ops) == h + p + tb);
}

/// What `decode_member` comes to on a header, a payload that is decoded to
/// the marker, and a trailer that agrees.
pub proof fn lemma_decode_member_of(
    h: Seq<u8>,
    p: Seq<u8>,
    tb: Seq<u8>,
    rest: Seq<u8>,
    dictionary_size: u32,
    e: Dec,
)
    requires
        h.len() == HEADER_SIZE,
        parse_header(h) == Ok::<u32, HeaderFault>(dictionary_size),
        (p + tb + rest).len() >= LOAD_SIZE,
        (p + tb + rest)[0] == 0,
        rd_loadable(p + tb + rest),
        payload_end(dec_init(p + tb + rest), dictionary_size) == Walk::Ended(e),
        e.rd.input == tb + rest,
        tb.len() == TRAILER_SIZE,
        trailer_agrees(parse_trailer(tb), e.lz.data, HEADER_SIZE + p.len() + TRAILER_SIZE),
    ensures
        decode_member(h + p + tb + rest) == (Decoded::Member {
            data: e.lz.data,
            size: (h + p + tb).len(),
            rest,
        }),
        (h + p + tb).len() == HEADER_SIZE + p.len() + TRAILER_SIZE,
{
    let input = h + p + tb + rest;
    assert(input.subrange(0, HEADER_SIZE as int) =~= h);
    assert(input.skip(HEADER_SIZE as int) =~= p + tb + rest);
    assert(e.rd.input.subrange(0, TRAILER_SIZE as int) =~= tb);
    assert(e.rd.input.skip(TRAILER_SIZE as int) =~= rest);
}

/// The header for a valid coded size announces that size.
pub proof fn lemma_header(dictionary_byte: u8)
    requires
        valid_dictionary_size(coded_dictionary_size(dictionary_byte)),
    ensures
        header_bytes(dictionary_byte).len() == HEADER_SIZE,
        parse_header(header_bytes(dictionary_byte)) == Ok::<u32, HeaderFault>(
            coded_dictionary_size(dictionary_byte) as u32,
        ),
{
    let h = header_bytes(dictionary_byte);
    assert(h.subrange(0, 4) =~= magic());
}

/// A payload that a parse is coded to, with anything after it, primes the
/// decoder and is decoded to the marker: the data is that of the parse, and
/// what is left of the input is what came after the payload.
pub proof fn lemma_payload_round_trip(ops: Seq<Op>, rest: Seq<u8>, dictionary_size: u32)
    requires
        is_parse(ops, dictionary_size),
        enc_ops(ops).lz.data.len() + MAX_MATCH_LEN <= u64::MAX,
    ensures
        (payload_bytes(ops) + rest).len() >= LOAD_SIZE,
        (payload_bytes(ops) + rest)[0] == 0,
        rd_loadable(payload_bytes(ops) + rest),
        payload_end(dec_init(payload_bytes(ops) + rest), dictionary_size) is Ended,
        payload_end(dec_init(payload_bytes(ops) + rest), dictionary_size)->Ended_0.lz.data
            == enc_ops(ops).lz.data,
        payload_end(dec_init(payload_bytes(ops) + rest), dictionary_size)->Ended_0.rd.input
            == rest,
{
    let payload = payload_bytes(ops) + rest;
    lemma_walk_end(ops, rest, dictionary_size);
    lemma_load_sync(payload);
    assert(dec_init(payload) == dec_after(Seq::empty(), payload)) by {
        assert(enc_ops(Seq::<Op>::empty()) == enc_init());
        assert(re_after(Seq::empty()) == re_init());
    }
}

/// The members that a run of parses is coded to start with the member of
/// the first parse, and the data likewise.
pub proof fn lemma_members_front(dictionary_byte: u8, parses: Seq<Seq<Op>>)
    requires
        parses.len() > 0,
    ensures
        members_bytes(dictionary_byte, parses) == member_bytes(dictionary_byte, parses[0])
            + members_bytes(dictionary_byte, parses.skip(1)),
        members_data(parses) == enc_ops(parses[0]).lz.data + members_data(parses.skip(1)),
    decreases parses.len(),
{
    if parses.len() == 1 {
        assert(parses.drop_last() =~= Seq::<Seq<Op>>::empty());
        assert(parses.skip(1) =~= Seq::<Seq<Op>>::empty());
        assert(members_bytes(dictionary_byte, parses) =~= member_bytes(dictionary_byte, parses[0])
            + members_bytes(dictionary_byte, parses.skip(1)));
        assert(members_data(parses) =~= enc_ops(parses[0]).lz.data + members_data(
            parses.skip(1),
        ));
    } else {
        lemma_members_front(dictionary_byte, parses.drop_last());
        assert(parses.skip(1).drop_last() =~= parses.drop_last().skip(1));
        assert(parses.skip(1).last() == parses.last());
        assert(parses.drop_last()[0] == parses[0]);
        assert(members_bytes(dictionary_byte, parses) =~= member_bytes(dictionary_byte, parses[0])
            + members_bytes(dictionary_byte, parses.skip(1)));
        assert(members_data(parses) =~= enc_ops(parses[0]).lz.data + members_data(
            parses.skip(1),
        ));
    }
}

/// Round trip: the stream that a run of parses is coded to decodes to the
/// data that the parses stand for.
pub proof fn lemma_stream_round_trip(dictionary_byte: u8, parses: Seq<Seq<Op>>, first: bool)
    requires
        valid_dictionary_size(coded_dictionary_size(dictionary_byte)),
        all_parses(parses, coded_dictionary_size(dictionary_byte) as u32),
        sizes_fit(dictionary_byte, parses),
        first ==> parses.len() > 0,
    ensures
        decode_stream(members_bytes(dictionary_byte, parses), first) == Ok::<Seq<u8>, Errno>(
            members_data(parses),
        ),
    decreases parses.len(),
{
    if parses.len() == 0 {
        assert(members_bytes(dictionary_byte, parses) =~= Seq::<u8>::empty());
    } else {
        let m0 = member_bytes(dictionary_byte, parses[0]);
        let rest = members_bytes(dictionary_byte, parses.skip(1));
        lemma_members_front(dictionary_byte, parses);
        lemma_member_round_trip(dictionary_byte, parses[0], rest);
        assert(all_parses(parses.skip(1), coded_dictionary_size(dictionary_byte) as u32)) by {
            assert forall|i: int| 0 <= i < parses.skip(1).len() implies is_parse(
                #[trigger] parses.skip(1)[i],
                coded_dictionary_size(dictionary_byte) as u32,
            ) by {
                assert(parses.skip(1)[i] == parses[i + 1]);
            }
        }
        assert(sizes_fit(dictionary_byte, parses.skip(1))) by {
            assert forall|i: int| 0 <= i < parses.skip(1).len() implies enc_ops(
                #[trigger] parses.skip(1)[i],
            ).lz.data.len() + MAX_MATCH_LEN <= u64::MAX && member_bytes(
                dictionary_byte,
                parses.skip(1)[i],
            ).len() <= u64::MAX by {
                assert(parses.skip(1)[i] == parses[i + 1]);
            }
        }
        lemma_stream_round_trip(dictionary_byte, parses.skip(1), false);
    }
}

/// The trailer of the member that a parse is coded to.
pub open spec fn member_trailer(ops: Seq<Op>) -> Seq<u8> {
    let data = enc_ops(ops).lz.data;
    trailer_bytes(
        Trailer {
            data_crc: crc32(data),
            data_size: data.len() as u64,
            member_size: (HEADER_SIZE + payload_bytes(ops).len() + TRAILER_SIZE) as u64,
        },
    )
}

/// A member whose trailer was changed in any way, while its header and its
/// payload were not, is a data error, whatever follows it: a CRC, a data
/// size or a member size that is wrong is never passed over.
pub proof fn lemma_changed_trailer(
    dictionary_byte: u8,
    ops: Seq<Op>,
    changed: Seq<u8>,
    rest: Seq<u8>,
)
    requires
        valid_dictionary_size(coded_dictionary_size(dictionary_byte)),
        is_parse(ops, coded_dictionary_size(dictionary_byte) as u32),
        enc_ops(ops).lz.data.len() + MAX_MATCH_LEN <= u64::MAX,
        member_bytes(dictionary_byte, ops).len() <= u64::MAX,
        changed.len() == TRAILER_SIZE,
        changed != member_trailer(ops),
    ensures
        member_bytes(dictionary_byte, ops) == header_bytes(dictionary_byte) + payload_bytes(ops)
            + member_trailer(ops),
        decode_member(header_bytes(dictionary_byte) + payload_bytes(ops) + changed + rest)
            == Decoded::Fails(Errno::DataError),
        decode_stream(header_bytes(dictionary_byte) + payload_bytes(ops) + changed + rest, true)
            == Err::<Seq<u8>, Errno>(Errno::DataError),
{
    let dict = coded_dictionary_size(dictionary_byte) as u32;
    let data = enc_ops(ops).lz.data;
    let h = header_bytes(dictionary_byte);
    let p = payload_bytes(ops);
    let t = Trailer {
        data_crc: crc32(data),
        data_size: data.len() as u64,
        member_size: (HEADER_SIZE + p.len() + TRAILER_SIZE) as u64,
    };
    let tb = trailer_bytes(t);
    lemma_trailer_round_trip(t);
    lemma_header(dictionary_byte);
    lemma_payload_round_trip(ops, changed + rest, dict);
    assert((p + changed) + rest =~= p + (changed + rest));
    let input = h + p + changed + rest;
    let e = payload_end(dec_init(p + changed + rest), dict)->Ended_0;
    assert(input.subrange(0, HEADER_SIZE as int) =~= h);
    assert(input.skip(HEADER_SIZE as int) =~= p + changed + rest);
    assert(e.rd.input.subrange(0, TRAILER_SIZE as int) =~= changed);
    assert((h + p + tb).len() == HEADER_SIZE + p.len() + TRAILER_SIZE);
    if trailer_agrees(parse_trailer(changed), data, HEADER_SIZE + p.len() + TRAILER_SIZE) {
        assert(parse_trailer(changed) == t);
        lemma_parse_trailer_injective(changed, tb);
    }
}

/// Input that does not start with a valid header is a header error: a
/// magic that is wrong, a version other than 1, or a dictionary size out of
/// bounds.
pub proof fn lemma_header_rejected(input: Seq<u8>)
    requires
        input.len() >= HEADER_SIZE,
        input.subrange(0, 4) != magic() || input[4] != VERSION || !valid_dictionary_size(
            coded_dictionary_size(input[5]),
        ),
    ensures
        decode_member(input) == Decoded::Fails(Errno::HeaderError),
        decode_stream(input, true) == Err::<Seq<u8>, Errno>(Errno::HeaderError),
{
    let h = input.subrange(0, HEADER_SIZE as int);
    assert(h.subrange(0, 4) =~= input.subrange(0, 4));
}

} // verus!
