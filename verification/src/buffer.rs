//! Compression and decompression of data that is all in memory.

use vstd::prelude::*;
use crate::errno::Errno;
use crate::header::{coded_dictionary_size, lemma_dictionary_byte};
use crate::lz_encoder::{
    LzEncoderBase,
    LzmaOptions,
    enc_ops,
    is_parse,
    all_parses,
    sizes_fit,
    member_bytes,
    members_bytes,
    members_data,
    LOOKAHEAD,
    MAX_MEMBER_SIZE_LIMIT,
};
use crate::decoder::is_magic_prefix;
use crate::header::{parse_header, read_header, magic, HEADER_SIZE, VERSION};
use crate::lz_decoder::{LZ_decoder, Stage, Outcome};
use crate::lzma::{MAX_MATCH_LEN, MIN_DICTIONARY_SIZE, MAX_DICTIONARY_SIZE};
use crate::member::{
    Walk,
    walk,
    walk_limit,
    payload_end,
    dec_init,
    decode_member,
    decode_stream,
    run_steps,
    lemma_run_walk,
    lemma_walk_add,
    lemma_walk_stays,
};
use crate::member_laws::{lemma_parse_larger, lemma_stream_round_trip};
use crate::range_decoder::{RangeDecoder, rd_load, rd_loadable, LOAD_SIZE};

verus! {

/// A stream that holds all that was written to `eb`, once the member at hand
/// is complete and holds all its data, decodes to what was written.
pub proof fn lemma_encoder_round_trip(eb: LzEncoderBase)
    requires
        eb.wf(),
        eb.member_finished(),
        eb.encoded() == eb.input().len(),
    ensures
        decode_stream(eb.stream(), true) == Ok::<Seq<u8>, Errno>(eb.all_input()),
{
    eb.lemma_wf();
    let coded = eb.coded_size();
    let small = eb.dictionary_size();
    lemma_dictionary_byte(small);
    let large = coded_dictionary_size(coded) as u32;
    let parses = eb.history().push(eb.ops());
    let ms = eb.member_start() as int;
    let st = eb.stream();
    assert(parses.drop_last() =~= eb.history());
    assert(st =~= st.subrange(0, ms) + st.skip(ms));
    assert(eb.input().subrange(0, eb.encoded() as int) =~= eb.input());
    assert(members_bytes(coded, parses) == st);
    assert(members_data(parses) == eb.all_input());
    assert(all_parses(parses, large)) by {
        assert forall|i: int| 0 <= i < parses.len() implies is_parse(
            #[trigger] parses[i],
            large,
        ) by {
            if i < eb.history().len() {
                assert(parses[i] == eb.history()[i]);
                lemma_parse_larger(eb.history()[i], small, large);
            } else {
                lemma_parse_larger(eb.ops(), small, large);
            }
        }
    }
    assert(sizes_fit(coded, parses)) by {
        assert forall|i: int| 0 <= i < parses.len() implies enc_ops(
            #[trigger] parses[i],
        ).lz.data.len() + MAX_MATCH_LEN <= u64::MAX && member_bytes(coded, parses[i]).len()
            <= u64::MAX by {
            if i < eb.history().len() {
                assert(parses[i] == eb.history()[i]);
            }
        }
    }
    lemma_stream_round_trip(coded, parses, true);
}

/// What a round of encoding comes to.
#[derive(Clone, Copy, Debug, PartialEq, Eq, Structural)]
pub enum Round {
    /// All the data was encoded, and the last member is complete.
    Done,
    /// More data must be written before encoding can go on.
    NeedData,
    /// Encoding went on, and may go on further.
    More,
}

/// The data written for the member at hand and not encoded yet.
pub open spec fn remaining(eb: LzEncoderBase) -> int {
    eb.input().len() - eb.encoded()
}

/// One round of encoding: the next member is started if the one at hand is
/// complete, the data written is encoded as far as can be, and the output is
/// moved to the end of `out`.
pub fn encode_round(eb: &mut LzEncoderBase, out: &mut Vec<u8>) -> (r: Round)
    requires
        old(eb).wf(),
        old(out)@ == old(eb).stream(),
        old(eb).drained() == old(eb).stream().len(),
    ensures
        final(eb).wf(),
        final(out)@ == final(eb).stream(),
        final(eb).drained() == final(eb).stream().len(),
        final(eb).all_input() == old(eb).all_input(),
        final(eb).at_stream_end() == old(eb).at_stream_end(),
        final(eb).dictionary_size() == old(eb).dictionary_size(),
        r == Round::Done ==> final(eb).at_stream_end() && final(eb).member_finished()
            && remaining(*final(eb)) == 0,
        r == Round::NeedData ==> !final(eb).at_stream_end() && 0 <= remaining(*final(eb))
            < LOOKAHEAD,
        r == Round::More ==> 0 <= remaining(*final(eb)) < remaining(*old(eb)) || (remaining(
            *final(eb),
        ) == remaining(*old(eb)) && final(eb).member_finished() && !old(eb).member_finished()),
{
    proof {
        eb.lemma_wf();
    }
    if eb.is_member_finished() {
        if eb.available_bytes() == 0 {
            if eb.is_at_stream_end() {
                return Round::Done;
            }
            return Round::NeedData;
        }
        eb.restart_member(MAX_MEMBER_SIZE_LIMIT);
        eb.take_output(out);
    }
    let ghost e2 = *eb;
    eb.encode_member();
    let ghost e3 = *eb;
    eb.take_output(out);
    proof {
        eb.lemma_wf();
        e3.lemma_wf();
        assert(e3.stream() =~= e3.stream().subrange(0, e2.stream().len() as int) + e3.stream().skip(
            e2.stream().len() as int,
        ));
        crate::member_laws::lemma_enc_valid(e3.ops(), e3.dictionary_size());
        crate::lz_encoder::lemma_parse_len(e3.ops(), e3.dictionary_size());
    }
    if !eb.is_member_finished() && !eb.is_at_stream_end() && eb.available_bytes()
        < LOOKAHEAD {
        Round::NeedData
    } else {
        Round::More
    }
}

/// Compresses `data` to a stream of one member, or of more should one grow
/// too large. The stream decodes to `data`. Parameters out of bounds are a
/// bad argument; nothing else fails.
pub fn compress(data: &[u8], options: LzmaOptions) -> (r: Result<Vec<u8>, Errno>)
    ensures
        r is Ok <==> options.valid(),
        r matches Err(e) ==> e == Errno::BadArgument,
        r matches Ok(out) ==> decode_stream(out@, true) == Ok::<Seq<u8>, Errno>(data@),
{
    if !options.is_valid() {
        return Err(Errno::BadArgument);
    }
    let mut eb = LzEncoderBase::new(options, MAX_MEMBER_SIZE_LIMIT);
    let mut out: Vec<u8> = Vec::new();
    let total: usize = data.len();
    let mut fed: usize = 0;
    eb.take_output(&mut out);
    proof {
        assert(data@.subrange(0, 0) =~= Seq::<u8>::empty());
        assert(eb.all_input() =~= data@.subrange(0, 0));
    }
    loop
        invariant
            options.valid(),
            eb.wf(),
            fed <= total,
            total == data@.len(),
            eb.all_input() == data@.subrange(0, fed as int),
            out@ == eb.stream(),
            eb.drained() == eb.stream().len(),
            !eb.at_stream_end(),
            remaining(eb) < LOOKAHEAD,
        decreases total - fed,
    {
        let ghost fed0 = fed;
        if fed < total {
            proof {
                eb.lemma_write_room();
                eb.lemma_wf();
                lemma_data_len(eb);
            }
            let ghost e0 = eb;
            let n: usize = eb.write_data(data, fed);
            proof {
                assert(eb.all_input() =~= e0.all_input() + data@.subrange(fed as int, fed + n));
                assert(data@.subrange(0, fed as int) + data@.subrange(fed as int, fed + n)
                    =~= data@.subrange(0, fed + n));
            }
            fed = fed + n;
        }
        if fed == total {
            eb.finish();
        }
        loop
            invariant
                options.valid(),
                eb.wf(),
                fed <= total,
                total == data@.len(),
                eb.all_input() == data@.subrange(0, fed as int),
                out@ == eb.stream(),
                eb.drained() == eb.stream().len(),
                eb.at_stream_end() <==> fed == total,
                fed0 < total ==> fed > fed0,
            ensures
                !eb.at_stream_end(),
                remaining(eb) < LOOKAHEAD,
            decreases remaining(eb), if eb.member_finished() { 0int } else { 1int },
        {
            proof {
                eb.lemma_wf();
            }
            match encode_round(&mut eb, &mut out) {
                Round::Done => {
                    proof {
                        lemma_encoder_round_trip(eb);
                        assert(data@.subrange(0, total as int) =~= data@);
                    }
                    return Ok(out);
                },
                Round::NeedData => {
                    break ;
                },
                Round::More => {},
            }
        }
    }
}

/// The data written for the member at hand is part of all the data written.
pub proof fn lemma_data_len(eb: LzEncoderBase)
    requires
        eb.wf(),
    ensures
        eb.input().len() <= eb.all_input().len(),
{
}

/// The data decoded before, then what the rest of a stream decodes to.
pub open spec fn after(prefix: Seq<u8>, r: Result<Seq<u8>, Errno>) -> Result<Seq<u8>, Errno> {
    match r {
        Ok(d) => Ok(prefix + d),
        Err(e) => Err(e),
    }
}

/// What the first part of a member, up to the bytes that prime the range
/// decoder, comes to: the dictionary size, or why there is no member.
pub open spec fn member_head(input: Seq<u8>) -> Result<u32, Errno> {
    if input.len() < HEADER_SIZE {
        Err(
            if is_magic_prefix(input) {
                Errno::UnexpectedEof
            } else {
                Errno::HeaderError
            },
        )
    } else {
        match parse_header(input.subrange(0, HEADER_SIZE as int)) {
            Err(_) => Err(Errno::HeaderError),
            Ok(dictionary_size) => {
                let payload = input.skip(HEADER_SIZE as int);
                if payload.len() >= 1 && payload[0] != 0 {
                    Err(Errno::HeaderError)
                } else if payload.len() < LOAD_SIZE {
                    Err(Errno::UnexpectedEof)
                } else if !rd_loadable(payload) {
                    Err(Errno::DataError)
                } else {
                    Ok(dictionary_size)
                }
            },
        }
    }
}

/// Whether the input, shorter than a header, could be the start of one.
fn magic_prefix(rdec: &RangeDecoder) -> (b: bool)
    requires
        rdec.wf(),
        rdec@.input.len() < HEADER_SIZE,
    ensures
        b == is_magic_prefix(rdec@.input),
{
    let avail: usize = rdec.available_bytes();
    let m: [u8; 4] = [0x4C, 0x5A, 0x49, 0x50];
    assert(m@ =~= magic());
    let mut i: usize = 0;
    while i < avail && i < 4
        invariant
            rdec.wf(),
            avail == rdec@.input.len(),
            i <= 4,
            i <= avail,
            m@ == magic(),
            forall|j: int| 0 <= j < i ==> rdec@.input[j] == #[trigger] magic()[j],
        decreases 4 - i,
    {
        if rdec.peek(i) != m[i] {
            assert(rdec@.input[i as int] != magic()[i as int]);
            return false;
        }
        i = i + 1;
    }
    avail <= 4 || rdec.peek(4) == VERSION
}

/// Reads the header of a member and primes the range decoder.
fn start_member(rdec: &mut RangeDecoder) -> (r: Result<u32, Errno>)
    requires
        old(rdec).wf(),
        old(rdec).settled(),
    ensures
        final(rdec).wf(),
        final(rdec).settled(),
        final(rdec).fed() == old(rdec).fed(),
        final(rdec).capacity() == old(rdec).capacity(),
        final(rdec).at_stream_end() == old(rdec).at_stream_end(),
        r == member_head(old(rdec)@.input),
        r matches Ok(dictionary_size) ==> {
            &&& MIN_DICTIONARY_SIZE <= dictionary_size <= MAX_DICTIONARY_SIZE
            &&& final(rdec)@ == rd_load(old(rdec)@.input.skip(HEADER_SIZE as int))
            &&& final(rdec).position() == old(rdec).position() + HEADER_SIZE + LOAD_SIZE
        },
{
    proof {
        rdec.lemma_wf();
    }
    let avail: usize = rdec.available_bytes();
    if avail < HEADER_SIZE {
        return Err(
            if magic_prefix(rdec) {
                Errno::UnexpectedEof
            } else {
                Errno::HeaderError
            },
        );
    }
    let h: [u8; 6] = [
        rdec.peek(0),
        rdec.peek(1),
        rdec.peek(2),
        rdec.peek(3),
        rdec.peek(4),
        rdec.peek(5),
    ];
    assert(h@ =~= rdec@.input.subrange(0, HEADER_SIZE as int));
    match read_header(&h) {
        Err(_) => Err(Errno::HeaderError),
        Ok(dictionary_size) => {
            if avail > HEADER_SIZE && rdec.peek(HEADER_SIZE) != 0 {
                Err(Errno::HeaderError)
            } else if avail < HEADER_SIZE + LOAD_SIZE {
                Err(Errno::UnexpectedEof)
            } else {
                rdec.skip(HEADER_SIZE);
                let ok: bool = rdec.load();
                if !ok {
                    let mut none: Vec<u32> = Vec::new();
                    rdec.rollback(&mut none);
                    Err(Errno::DataError)
                } else {
                    rdec.checkpoint();
                    proof {
                        rdec.lemma_wf();
                    }
                    Ok(dictionary_size)
                }
            }
        },
    }
}

/// Decodes a payload to its marker, and moves the data to the end of `out`.
/// Fails with an unexpected end if the input runs out, and with a data
/// error if the payload is corrupt.
fn decode_payload(lzd: &mut LZ_decoder, rdec: &mut RangeDecoder, out: &mut Vec<u8>) -> (r: Result<
    (),
    Errno,
>)
    requires
        old(lzd).wf(),
        old(lzd).stage() == Stage::Decoding,
        old(lzd).lz().data.len() == 0,
        old(lzd).delivered() == 0,
        old(rdec).wf(),
        old(rdec).settled(),
    ensures
        final(lzd).wf(),
        final(rdec).wf(),
        final(rdec).settled(),
        final(rdec).fed() == old(rdec).fed(),
        final(rdec).capacity() == old(rdec).capacity(),
        final(rdec).position() >= old(rdec).position(),
        final(rdec).at_stream_end() == old(rdec).at_stream_end(),
        final(lzd).dictionary_size() == old(lzd).dictionary_size(),
        match r {
            Ok(_) => {
                &&& payload_end(old(lzd).dec(old(rdec)@), old(lzd).dictionary_size())
                    == Walk::Ended(final(lzd).dec(final(rdec)@))
                &&& final(lzd).stage() == Stage::TrailerPending
                &&& final(out)@ == old(out)@ + final(lzd).lz().data
            },
            Err(e) => {
                ||| e == Errno::UnexpectedEof && payload_end(
                    old(lzd).dec(old(rdec)@),
                    old(lzd).dictionary_size(),
                ) == Walk::Starved
                ||| e == Errno::DataError && payload_end(
                    old(lzd).dec(old(rdec)@),
                    old(lzd).dictionary_size(),
                ) == Walk::Corrupt
            },
        },
{
    let ghost d0 = lzd.dec(rdec@);
    let ghost dict = lzd.dictionary_size();
    let ghost mut k: nat = 0;
    proof {
        lzd.lemma_wf();
        assert(old(out)@ + lzd.lz().data =~= old(out)@);
    }
    loop
        invariant
            lzd.wf(),
            lzd.stage() == Stage::Decoding,
            rdec.wf(),
            rdec.settled(),
            rdec.fed() == old(rdec).fed(),
            rdec.capacity() == old(rdec).capacity(),
            rdec.position() >= old(rdec).position(),
            rdec.at_stream_end() == old(rdec).at_stream_end(),
            lzd.dictionary_size() == dict,
            dict == old(lzd).dictionary_size(),
            d0 == old(lzd).dec(old(rdec)@),
            d0.lz.wf(dict),
            lzd.delivered() == lzd.lz().data.len(),
            out@ == old(out)@ + lzd.lz().data,
            walk(d0, dict, k) == Walk::At(lzd.dec(rdec@)),
            lzd.lz().data.len() >= k,
        decreases u64::MAX - lzd.lz().data.len(),
    {
        let ghost cur = lzd.dec(rdec@);
        let ghost free = lzd.free_space();
        let ghost data0 = lzd.lz().data;
        proof {
            lzd.lemma_wf();
            lemma_run_walk(cur, dict, free);
        }
        let outcome: Outcome = lzd.decode_member(rdec);
        let ghost j = run_steps(cur, dict, free);
        proof {
            lzd.lemma_wf();
            lemma_walk_add(d0, dict, k, j);
            lemma_walk_add(d0, dict, k, j + 1);
        }
        let ghost pend = lzd.pending();
        lzd.drain_to(out);
        proof {
            assert(lzd.lz().data.subrange(0, data0.len() as int) == data0);
            assert(data0 + pend =~= lzd.lz().data);
            assert(out@ =~= old(out)@ + lzd.lz().data);
        }
        match outcome {
            Outcome::NeedSpace => {
                proof {
                    k = k + j;
                }
            },
            Outcome::NeedInput => {
                proof {
                    lemma_walk_stays(d0, dict, k + j + 1, walk_limit());
                }
                return Err(Errno::UnexpectedEof);
            },
            Outcome::Corrupt => {
                proof {
                    lemma_walk_stays(d0, dict, k + j + 1, walk_limit());
                }
                return Err(Errno::DataError);
            },
            Outcome::End => {
                proof {
                    lemma_walk_stays(d0, dict, k + j + 1, walk_limit());
                }
                return Ok(());
            },
        }
    }
}

/// Decompresses a stream of members. Yields what `decode_stream` says: the
/// data of all the members, or the error of the first that fails. A stream
/// as long as the address space is more than can be held.
pub fn decompress(input: &[u8]) -> (r: Result<Vec<u8>, Errno>)
    ensures
        input@.len() >= usize::MAX ==> r == Err::<Vec<u8>, Errno>(Errno::MemError),
        input@.len() < usize::MAX ==> match r {
            Ok(data) => decode_stream(input@, true) == Ok::<Seq<u8>, Errno>(data@),
            Err(e) => decode_stream(input@, true) == Err::<Seq<u8>, Errno>(e),
        },
{
    if input.len() == usize::MAX {
        return Err(Errno::MemError);
    }
    let mut rdec = RangeDecoder::with_capacity(input.len());
    proof {
        rdec.lemma_wf();
    }
    let n: usize = rdec.write_data(input, 0);
    rdec.finish();
    rdec.checkpoint();
    let mut out: Vec<u8> = Vec::new();
    let mut first: bool = true;
    proof {
        assert(input@.subrange(0, input@.len() as int) =~= input@);
        assert(rdec@.input =~= input@);
        lemma_after_empty(decode_stream(input@, true));
    }
    loop
        invariant
            rdec.wf(),
            rdec.settled(),
            input@.len() < usize::MAX,
            decode_stream(input@, true) == after(out@, decode_stream(rdec@.input, first)),
        decreases rdec@.input.len(),
    {
        proof {
            rdec.lemma_wf();
        }
        if rdec.available_bytes() == 0 && !first {
            proof {
                assert(out@ + Seq::<u8>::empty() =~= out@);
            }
            return Ok(out);
        }
        let ghost rem = rdec@.input;
        let ghost out0 = out@;
        let start: u64 = rdec.consumed_bytes();
        let dictionary_size: u32 = match start_member(&mut rdec) {
            Ok(d) => d,
            Err(e) => {
                return Err(e);
            },
        };
        let mut lzd = LZ_decoder::new(dictionary_size);
        let ghost d0 = lzd.dec(rdec@);
        proof {
            assert(d0 == dec_init(rem.skip(HEADER_SIZE as int)));
        }
        match decode_payload(&mut lzd, &mut rdec, &mut out) {
            Ok(_) => {},
            Err(e) => {
                return Err(e);
            },
        }
        proof {
            rdec.lemma_wf();
            lzd.lemma_wf();
        }
        let ghost e_input = rdec@.input;
        match lzd.verify_trailer(&mut rdec, start) {
            None => {
                return Err(Errno::UnexpectedEof);
            },
            Some(ok) => {
                if !ok {
                    return Err(Errno::DataError);
                }
            },
        }
        proof {
            rdec.lemma_wf();
            let data = lzd.lz().data;
            let more = decode_stream(rdec@.input, false);
            assert(decode_stream(rem, first) == after(data, more));
            lemma_after_after(out0, data, more);
        }
        first = false;
    }
}

/// Nothing, then a result, is the result.
pub proof fn lemma_after_empty(r: Result<Seq<u8>, Errno>)
    ensures
        after(Seq::empty(), r) == r,
{
    match r {
        Ok(d) => {
            assert(Seq::<u8>::empty() + d =~= d);
        },
        Err(e) => {},
    }
}

/// Two runs of data, then a result, is the runs one after the other, then
/// the result.
pub proof fn lemma_after_after(a: Seq<u8>, b: Seq<u8>, r: Result<Seq<u8>, Errno>)
    ensures
        after(a, after(b, r)) == after(a + b, r),
{
    match r {
        Ok(d) => {
            assert(a + (b + d) =~= (a + b) + d);
        },
        Err(e) => {},
    }
}

} // verus!
