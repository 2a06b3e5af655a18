//! Encoding of one member: the data is parsed into operations, one position
//! after another, and each operation is range coded as it is chosen. The
//! fast encoder chooses by the one match that a hash table finds; the
//! optimizing encoder plans ahead by prices, and each planned operation is
//! held against the data before it is coded.

use vstd::prelude::*;
use crate::bit_model::{valid_probs, new_probs, reset_probs, BIT_MODEL_INIT};
use crate::crc::{CrcTable, crc32, crc_update, lemma_crc_update_concat, CRC_INIT};
use crate::header::{
    Trailer,
    header_bytes,
    trailer_bytes,
    make_header,
    make_trailer,
    dictionary_byte,
    valid_dictionary_size,
    HEADER_SIZE,
    TRAILER_SIZE,
};
use crate::lzma::{
    Op,
    Context,
    Lz,
    Reps,
    lz_init,
    lz_copy,
    lemma_apply,
    next_state,
    NUM_MODELS,
    MIN_MATCH_LEN,
    MAX_MATCH_LEN,
    MIN_MATCH_LEN_LIMIT,
    MARKER_DISTANCE,
    MIN_DICTIONARY_SIZE,
    MAX_DICTIONARY_SIZE,
};
use crate::matchfinder::{MatchfinderBase, is_match, WINDOW_MARGIN};
use crate::op_encoder::{op_events, encode_op, coded, MAX_OP_BITS};
use crate::optimizer::LZ_encoder;
use crate::range_encoder::{
    Ev,
    RangeEncoder,
    re_init,
    re_events,
    re_flush,
    lemma_re_events_concat,
    RE_BUFFER_SIZE,
};

verus! {

/// Smallest limit that can be put on the size of a member.
pub const MIN_MEMBER_SIZE_LIMIT: u64 = 100;

/// Largest limit that can be put on the size of a member.
pub const MAX_MEMBER_SIZE_LIMIT: u64 = 0x7FFF_FFFF_FFFF_FFFF;

/// The size of the data of a member past which the member ends, so that
/// the size always fits the trailer.
pub const DATA_SIZE_LIMIT: u64 = 0xFFFF_FFFF_FFFF_FBFF;

/// Number of bytes that must lie ahead for encoding to go on while more may
/// come: as many as the optimizing encoder can look ahead over, and the
/// longest match after them. What is encoded then does not depend on how
/// the data was cut up when it was written.
pub const LOOKAHEAD: usize = 8465;

/// The dictionary size that, with the match length limit 16, selects the
/// fast encoder.
pub const FAST_DICTIONARY_SIZE: u32 = 65535;

/// The match length limit that, with the dictionary size 65535, selects the
/// fast encoder.
pub const FAST_MATCH_LEN_LIMIT: u32 = 16;

/// The parameters of an encoder.
#[derive(Clone, Copy, Debug)]
pub struct LzmaOptions {
    /// The dictionary size, from `2^12` to `2^29`.
    pub dictionary_size: u32,
    /// The longest match that is looked for, from 5 to 273.
    pub match_len_limit: u32,
}

impl LzmaOptions {
    /// Whether the parameters are within bounds.
    pub open spec fn valid(self) -> bool {
        &&& MIN_DICTIONARY_SIZE <= self.dictionary_size <= MAX_DICTIONARY_SIZE
        &&& MIN_MATCH_LEN_LIMIT <= self.match_len_limit <= MAX_MATCH_LEN
    }

    /// Whether the parameters are within bounds.
    pub fn is_valid(&self) -> (b: bool)
        ensures
            b == self.valid(),
    {
        MIN_DICTIONARY_SIZE <= self.dictionary_size && self.dictionary_size <= MAX_DICTIONARY_SIZE
            && MIN_MATCH_LEN_LIMIT <= self.match_len_limit && self.match_len_limit
            <= MAX_MATCH_LEN
    }
}

/// What encoding a run of operations comes to: the bits that were written,
/// the probabilities after them, and the data that the operations stand for.
#[verifier::ext_equal]
pub struct Enc {
    pub evs: Seq<Ev>,
    pub probs: Seq<u32>,
    pub lz: Lz,
}

/// Before the first operation of a member.
pub open spec fn enc_init() -> Enc {
    Enc {
        evs: Seq::empty(),
        probs: Seq::new(NUM_MODELS as nat, |i: int| BIT_MODEL_INIT),
        lz: lz_init(),
    }
}

/// After one more operation.
pub open spec fn enc_op(e: Enc, op: Op) -> Enc {
    let c = op_events(e.probs, e.lz.context(), op);
    Enc { evs: e.evs + c.0, probs: c.1, lz: e.lz.apply(op) }
}

/// After a run of operations from the start of a member.
pub open spec fn enc_ops(ops: Seq<Op>) -> Enc
    decreases ops.len(),
{
    if ops.len() == 0 {
        enc_init()
    } else {
        enc_op(enc_ops(ops.drop_last()), ops.last())
    }
}

/// Whether a run of operations from the start of a member is a parse: each
/// operation can follow those before it.
pub open spec fn is_parse(ops: Seq<Op>, dictionary_size: u32) -> bool
    decreases ops.len(),
{
    ops.len() == 0 || (is_parse(ops.drop_last(), dictionary_size) && enc_ops(
        ops.drop_last(),
    ).lz.admits(ops.last(), dictionary_size) && !ops.last().is_marker())
}

/// The marker that ends a payload.
pub open spec fn marker() -> Op {
    Op::Match { dis: MARKER_DISTANCE, len: MIN_MATCH_LEN }
}

/// The payload that a parse is coded to: its operations and the marker,
/// range coded.
#[verifier::opaque]
pub open spec fn payload_bytes(ops: Seq<Op>) -> Seq<u8> {
    let e = enc_ops(ops);
    re_flush(re_events(re_init(), e.evs + op_events(e.probs, e.lz.context(), marker()).0)).out
}

/// The member that a parse is coded to.
pub open spec fn member_bytes(dictionary_byte: u8, ops: Seq<Op>) -> Seq<u8> {
    let data = enc_ops(ops).lz.data;
    header_bytes(dictionary_byte) + payload_bytes(ops) + trailer_bytes(
        Trailer {
            data_crc: crc32(data),
            data_size: data.len() as u64,
            member_size: (HEADER_SIZE + payload_bytes(ops).len() + TRAILER_SIZE) as u64,
        },
    )
}

/// The members that a run of parses is coded to, one after another.
pub open spec fn members_bytes(dictionary_byte: u8, parses: Seq<Seq<Op>>) -> Seq<u8>
    decreases parses.len(),
{
    if parses.len() == 0 {
        Seq::empty()
    } else {
        members_bytes(dictionary_byte, parses.drop_last()) + member_bytes(
            dictionary_byte,
            parses.last(),
        )
    }
}

/// The data that a run of parses stands for.
pub open spec fn members_data(parses: Seq<Seq<Op>>) -> Seq<u8>
    decreases parses.len(),
{
    if parses.len() == 0 {
        Seq::empty()
    } else {
        members_data(parses.drop_last()) + enc_ops(parses.last()).lz.data
    }
}

/// Whether the data of each of a run of parses, and each member that they
/// are coded to, has a size that the trailer can hold.
pub open spec fn sizes_fit(dictionary_byte: u8, parses: Seq<Seq<Op>>) -> bool {
    forall|i: int|
        0 <= i < parses.len() ==> enc_ops(#[trigger] parses[i]).lz.data.len() + MAX_MATCH_LEN
            <= u64::MAX && member_bytes(dictionary_byte, parses[i]).len() <= u64::MAX
}

/// Whether each of a run of operation sequences is a parse.
pub open spec fn all_parses(parses: Seq<Seq<Op>>, dictionary_size: u32) -> bool {
    forall|i: int| 0 <= i < parses.len() ==> is_parse(#[trigger] parses[i], dictionary_size)
}

/// A parse stays a parse, and keeps its state well-formed, when an operation
/// that can follow it is added.
pub proof fn lemma_parse_push(ops: Seq<Op>, op: Op, dictionary_size: u32)
    requires
        is_parse(ops, dictionary_size),
        enc_ops(ops).lz.wf(dictionary_size),
        enc_ops(ops).lz.admits(op, dictionary_size),
        !op.is_marker(),
    ensures
        is_parse(ops.push(op), dictionary_size),
        enc_ops(ops.push(op)) == enc_op(enc_ops(ops), op),
        enc_ops(ops.push(op)).lz.wf(dictionary_size),
{
    assert(ops.push(op).drop_last() =~= ops);
    lemma_apply(enc_ops(ops).lz, op, dictionary_size);
}

/// Copying a match from the data before a position gives the data up to the
/// end of the match.
pub proof fn lemma_copy_match(data: Seq<u8>, pos: int, dis: int, len: nat)
    requires
        is_match(data, pos, dis, len as int),
    ensures
        lz_copy(data.subrange(0, pos), dis, len) == data.subrange(0, pos + len),
    decreases len,
{
    let prefix = data.subrange(0, pos);
    if len == 0 {
        assert(data.subrange(0, pos + 0) =~= prefix);
    } else {
        assert(data[pos + 0] == data[pos + 0 - dis - 1]);
        assert(prefix.push(prefix[prefix.len() - 1 - dis]) =~= data.subrange(0, pos + 1));
        assert(is_match(data, pos + 1, dis, len - 1)) by {
            assert forall|i: int| 0 <= i < len - 1 implies #[trigger] data[pos + 1 + i] == data[pos
                + 1 + i - dis - 1] by {
                assert(data[pos + (i + 1)] == data[pos + (i + 1) - dis - 1]);
            }
        }
        lemma_copy_match(data, pos + 1, dis, (len - 1) as nat);
    }
}

/// What a copy adds to the data repeats what lies at its distance.
pub proof fn lemma_copy_is_match(data: Seq<u8>, dis: int, len: nat)
    requires
        0 <= dis < data.len(),
    ensures
        is_match(lz_copy(data, dis, len), data.len() as int, dis, len as int),
    decreases len,
{
    crate::lzma::lemma_lz_copy(data, dis, len);
    if len > 0 {
        let d2 = data.push(data[data.len() - 1 - dis]);
        let r = lz_copy(data, dis, len);
        lemma_copy_is_match(d2, dis, (len - 1) as nat);
        crate::lzma::lemma_lz_copy(d2, dis, (len - 1) as nat);
        assert forall|i: int| 0 <= i < len implies #[trigger] r[data.len() + i] == r[data.len() + i
            - dis - 1] by {
            if i == 0 {
                assert(r.subrange(0, d2.len() as int)[data.len() as int] == r[data.len() as int]);
                assert(r.subrange(0, d2.len() as int)[data.len() - 1 - dis] == r[data.len() - 1
                    - dis]);
            } else {
                assert(r[d2.len() + (i - 1)] == r[d2.len() + (i - 1) - dis - 1]);
            }
        }
    }
}

/// Only a match is copied to the data up to its end: if copying from a
/// distance gives the data up to the end of the copy, the data repeats there.
pub proof fn lemma_copy_only_match(data: Seq<u8>, pos: int, dis: int, len: nat)
    requires
        0 <= dis < pos,
        pos + len <= data.len(),
        lz_copy(data.subrange(0, pos), dis, len) == data.subrange(0, pos + len),
    ensures
        is_match(data, pos, dis, len as int),
{
    let prefix = data.subrange(0, pos);
    let r = data.subrange(0, pos + len);
    lemma_copy_is_match(prefix, dis, len);
    assert forall|i: int| 0 <= i < len implies #[trigger] data[pos + i] == data[pos + i - dis
        - 1] by {
        assert(r[prefix.len() + i] == r[prefix.len() + i - dis - 1]);
    }
}

/// The encoder of one member after another. It chooses the operations
/// either fast, by the one match that a hash table finds, or by weighing
/// the ways ahead, with the optimizer that it then holds.
pub struct LzEncoderBase {
    mb: MatchfinderBase,
    optimizer: Option<LZ_encoder>,
    renc: RangeEncoder,
    probs: Vec<u32>,
    state: u32,
    reps: Reps,
    crc: u32,
    table: CrcTable,
    match_len_limit: u32,
    member_size_limit: u64,
    member_finished: bool,
    coded_size: u8,
    ops: Ghost<Seq<Op>>,
    member_start: Ghost<nat>,
    history: Ghost<Seq<Seq<Op>>>,
}

impl LzEncoderBase {
    /// The parse of the data encoded so far of the member at hand.
    pub closed spec fn ops(&self) -> Seq<Op> {
        self.ops@
    }

    /// All the bytes put out since the encoder was made.
    pub closed spec fn stream(&self) -> Seq<u8> {
        self.renc.stream()
    }

    /// How many of them were read.
    pub closed spec fn drained(&self) -> nat {
        self.renc.drained()
    }

    /// Where in the stream the member at hand starts.
    pub closed spec fn member_start(&self) -> nat {
        self.member_start@
    }

    /// The parses of the members before the one at hand.
    pub closed spec fn history(&self) -> Seq<Seq<Op>> {
        self.history@
    }

    /// All the data written since the encoder was made.
    pub open spec fn all_input(&self) -> Seq<u8> {
        members_data(self.history()) + self.input()
    }

    /// Whether the member at hand is complete.
    pub closed spec fn member_finished(&self) -> bool {
        self.member_finished
    }

    /// All the data written for the member at hand.
    pub closed spec fn input(&self) -> Seq<u8> {
        self.mb.data()
    }

    /// How much of it was encoded.
    pub closed spec fn encoded(&self) -> nat {
        self.mb.data_position()
    }

    /// Whether the data was declared complete.
    pub closed spec fn at_stream_end(&self) -> bool {
        self.mb.at_stream_end()
    }

    /// The dictionary size.
    pub closed spec fn dictionary_size(&self) -> u32 {
        self.mb.dictionary_size()
    }

    /// The byte of the header that stands for the dictionary size.
    pub closed spec fn coded_size(&self) -> u8 {
        self.coded_size
    }

    /// The limit on the size of the member at hand.
    pub closed spec fn member_size_limit(&self) -> u64 {
        self.member_size_limit
    }

    /// Number of bytes that can be written now.
    pub closed spec fn write_size(&self) -> nat {
        self.mb.free_space()
    }

    /// The bytes put out and not read yet.
    pub open spec fn pending(&self) -> Seq<u8> {
        self.stream().skip(self.drained() as int)
    }

    /// The bytes put out of the member at hand.
    pub open spec fn member_out(&self) -> Seq<u8> {
        self.stream().skip(self.member_start() as int)
    }

    /// The parts are well-formed, the operations chosen so far are a parse of
    /// the data encoded so far, and the bytes put out are what the parse is
    /// coded to.
    pub closed spec fn wf(&self) -> bool {
        let e = enc_ops(self.ops@);
        let dict = self.mb.dictionary_size();
        &&& self.mb.wf()
        &&& match self.optimizer {
            Some(o) => o.wf(
                dict,
                self.mb.data_position() as int,
                self.mb.ahead().len() as int,
            ),
            None => true,
        }
        &&& self.renc.wf()
        &&& self.table.wf()
        &&& valid_probs(self.probs@)
        &&& self.probs@.len() == NUM_MODELS
        &&& MIN_MATCH_LEN_LIMIT <= self.match_len_limit <= MAX_MATCH_LEN
        &&& MIN_MEMBER_SIZE_LIMIT <= self.member_size_limit <= MAX_MEMBER_SIZE_LIMIT
        &&& self.coded_size == dictionary_byte(dict)
        &&& is_parse(self.ops@, dict)
        &&& e.lz.wf(dict)
        &&& e.lz.state == self.state
        &&& e.lz.reps == self.reps
        &&& e.lz.data == self.mb.data().subrange(0, self.mb.data_position() as int)
        &&& self.crc == crc_update(CRC_INIT, e.lz.data)
        &&& all_parses(self.history@, dict)
        &&& sizes_fit(self.coded_size, self.history@)
        &&& self.mb.data_position() <= DATA_SIZE_LIMIT + MAX_MATCH_LEN
        &&& self.renc.stream().subrange(0, self.member_start@ as int) == members_bytes(
            self.coded_size,
            self.history@,
        )
        &&& self.member_start@ + HEADER_SIZE <= self.renc.stream().len()
        &&& self.renc.stream().subrange(
            self.member_start@ as int,
            self.member_start@ + HEADER_SIZE,
        ) == header_bytes(self.coded_size)
        &&& if self.member_finished {
            &&& self.renc.stream().skip(self.member_start@ as int) == member_bytes(
                self.coded_size,
                self.ops@,
            )
            &&& self.renc.member_pos() == self.renc.stream().len() - self.member_start@
            &&& self.renc@.ff_count == 0
        } else {
            &&& self.renc.payload_start() == self.member_start@ + HEADER_SIZE
            &&& self.renc@ == re_events(re_init(), e.evs)
            &&& self.probs@ == e.probs
            &&& self.renc.member_pos() == self.renc.stream().len() - self.member_start@
            &&& self.renc.member_pos() + self.renc@.ff_count <= self.member_size_limit
                + MAX_OP_BITS
        }
    }

    /// The invariant, in terms a caller can use.
    pub proof fn lemma_wf(&self)
        requires
            self.wf(),
        ensures
            is_parse(self.ops(), self.dictionary_size()),
            self.encoded() <= self.input().len(),
            enc_ops(self.ops()).lz.data == self.input().subrange(0, self.encoded() as int),
            self.drained() <= self.stream().len(),
            self.member_start() <= self.stream().len(),
            self.member_finished() ==> self.member_out() == member_bytes(
                self.coded_size(),
                self.ops(),
            ),
            self.coded_size() == dictionary_byte(self.dictionary_size()),
            valid_dictionary_size(self.dictionary_size() as int),
            all_parses(self.history(), self.dictionary_size()),
            sizes_fit(self.coded_size(), self.history()),
            self.encoded() + MAX_MATCH_LEN <= u64::MAX,
            self.member_out().len() <= u64::MAX,
            self.stream().subrange(0, self.member_start() as int) == members_bytes(
                self.coded_size(),
                self.history(),
            ),
            !self.member_finished() ==> self.member_out().len() >= HEADER_SIZE
                && self.member_out().subrange(0, HEADER_SIZE as int) == header_bytes(
                self.coded_size(),
            ),
    {
        self.mb.lemma_wf();
        self.renc.lemma_wf();
    }

    /// An encoder at the start of its first member, with nothing written.
    pub fn new(options: LzmaOptions, member_size_limit: u64) -> (e: LzEncoderBase)
        requires
            options.valid(),
            MIN_MEMBER_SIZE_LIMIT <= member_size_limit <= MAX_MEMBER_SIZE_LIMIT,
        ensures
            e.wf(),
            e.ops() == Seq::<Op>::empty(),
            e.stream() == header_bytes(dictionary_byte(options.dictionary_size)),
            e.drained() == 0,
            e.member_start() == 0,
            e.history() == Seq::<Seq<Op>>::empty(),
            !e.member_finished(),
            e.input() == Seq::<u8>::empty(),
            e.encoded() == 0,
            !e.at_stream_end(),
            e.dictionary_size() == options.dictionary_size,
            e.member_size_limit() == member_size_limit,
    {
        let header: [u8; 6] = make_header(options.dictionary_size);
        let mut renc = RangeEncoder::new();
        renc.put_bytes(header.as_slice());
        let fast: bool = options.dictionary_size == FAST_DICTIONARY_SIZE
            && options.match_len_limit == FAST_MATCH_LEN_LIMIT;
        let e = LzEncoderBase {
            mb: MatchfinderBase::new(options.dictionary_size),
            optimizer: if fast {
                None
            } else {
                Some(LZ_encoder::new(options.dictionary_size, options.match_len_limit))
            },
            renc,
            probs: new_probs(NUM_MODELS),
            state: 0,
            reps: Reps { rep0: 0, rep1: 0, rep2: 0, rep3: 0 },
            crc: CRC_INIT,
            table: CrcTable::new(),
            match_len_limit: options.match_len_limit,
            member_size_limit,
            member_finished: false,
            coded_size: header[5],
            ops: Ghost(Seq::empty()),
            member_start: Ghost(0),
            history: Ghost(Seq::empty()),
        };
        proof {
            assert(e.renc.stream().subrange(0, 0) =~= Seq::<u8>::empty());
            assert(e.probs@ =~= enc_init().probs);
            assert(e.mb.data().subrange(0, 0) =~= lz_init().data);
            assert(e.renc.stream() =~= header_bytes(e.coded_size));
            assert(e.renc.stream().subrange(0, HEADER_SIZE as int) =~= header_bytes(e.coded_size));
            assert(header@[5] == header_bytes(dictionary_byte(options.dictionary_size))[5]);
        }
        e
    }

    /// Whether the member at hand is complete.
    pub fn is_member_finished(&self) -> (b: bool)
        ensures
            b == self.member_finished(),
    {
        self.member_finished
    }

    /// Whether the data was declared complete.
    pub fn is_at_stream_end(&self) -> (b: bool)
        ensures
            b == self.at_stream_end(),
    {
        self.mb.is_at_stream_end()
    }

    /// How much of the data of the member at hand was encoded.
    pub fn data_position(&self) -> (n: u64)
        requires
            self.wf(),
        ensures
            n == self.encoded(),
    {
        self.mb.get_data_position()
    }

    /// Number of bytes written and not encoded yet.
    pub fn available_bytes(&self) -> (n: usize)
        requires
            self.wf(),
        ensures
            n == self.input().len() - self.encoded(),
    {
        proof {
            self.mb.lemma_wf();
        }
        self.mb.available_bytes()
    }

    /// Number of bytes put out of the member at hand, those that the range
    /// encoder holds back included.
    pub fn member_position(&self) -> (n: u64)
        requires
            self.wf(),
        ensures
            n >= self.member_out().len(),
            self.member_finished() ==> n == self.member_out().len(),
    {
        self.renc.member_position()
    }

    /// Takes back the declaration that the data is complete.
    pub fn resume(&mut self)
        requires
            old(self).wf(),
        ensures
            final(self).wf(),
            !final(self).at_stream_end(),
            final(self).input() == old(self).input(),
            final(self).ops() == old(self).ops(),
            final(self).stream() == old(self).stream(),
            final(self).drained() == old(self).drained(),
            final(self).member_start() == old(self).member_start(),
            final(self).history() == old(self).history(),
            final(self).member_finished() == old(self).member_finished(),
            final(self).encoded() == old(self).encoded(),
            final(self).dictionary_size() == old(self).dictionary_size(),
            final(self).coded_size() == old(self).coded_size(),
            final(self).member_size_limit() == old(self).member_size_limit(),
    {
        self.mb.resume();
    }

    /// The limit on the size of the member at hand.
    pub fn get_member_size_limit(&self) -> (n: u64)
        requires
            self.wf(),
        ensures
            n == self.member_size_limit(),
            MIN_MEMBER_SIZE_LIMIT <= n <= MAX_MEMBER_SIZE_LIMIT,
    {
        self.member_size_limit
    }

    /// Whether the output queue is short of its soft limit.
    pub fn is_room(&self) -> (b: bool)
        requires
            self.wf(),
        ensures
            b == self.has_room(),
    {
        self.renc.used_bytes() < RE_BUFFER_SIZE
    }

    /// Number of bytes put out and not read yet.
    pub fn used_bytes(&self) -> (n: usize)
        requires
            self.wf(),
        ensures
            n == self.pending().len(),
    {
        self.renc.used_bytes()
    }

    /// Number of bytes that can be written now.
    pub fn free_bytes(&self) -> (n: usize)
        requires
            self.wf(),
        ensures
            n == self.write_size(),
    {
        self.mb.free_bytes()
    }

    /// Writes as many bytes of `data[from..]` as there is room for, and
    /// returns how many were taken.
    pub fn write_data(&mut self, data: &[u8], from: usize) -> (n: usize)
        requires
            old(self).wf(),
            from <= data@.len(),
        ensures
            final(self).wf(),
            n == if data@.len() - from <= old(self).write_size() {
                data@.len() - from
            } else {
                old(self).write_size() as int
            },
            final(self).input() == old(self).input() + data@.subrange(from as int, from + n),
            final(self).same_but_input(*old(self)),
    {
        proof {
            self.mb.lemma_wf();
        }
        let n: usize = self.mb.write_data(data, from);
        proof {
            assert(self.mb.data().subrange(0, self.mb.data_position() as int) =~= old(
                self,
            ).mb.data().subrange(0, self.mb.data_position() as int));
        }
        n
    }

    /// Everything but the data written is as it was in `prev`.
    pub open spec fn same_but_input(&self, prev: LzEncoderBase) -> bool {
        &&& self.ops() == prev.ops()
        &&& self.stream() == prev.stream()
        &&& self.drained() == prev.drained()
        &&& self.member_start() == prev.member_start()
        &&& self.history() == prev.history()
        &&& self.member_finished() == prev.member_finished()
        &&& self.encoded() == prev.encoded()
        &&& self.at_stream_end() == prev.at_stream_end()
        &&& self.dictionary_size() == prev.dictionary_size()
        &&& self.coded_size() == prev.coded_size()
        &&& self.member_size_limit() == prev.member_size_limit()
    }

    /// Declares the data complete.
    pub fn finish(&mut self)
        requires
            old(self).wf(),
        ensures
            final(self).wf(),
            final(self).at_stream_end(),
            final(self).input() == old(self).input(),
            final(self).ops() == old(self).ops(),
            final(self).stream() == old(self).stream(),
            final(self).drained() == old(self).drained(),
            final(self).member_start() == old(self).member_start(),
            final(self).history() == old(self).history(),
            final(self).member_finished() == old(self).member_finished(),
            final(self).encoded() == old(self).encoded(),
            final(self).dictionary_size() == old(self).dictionary_size(),
            final(self).coded_size() == old(self).coded_size(),
            final(self).member_size_limit() == old(self).member_size_limit(),
    {
        self.mb.finish();
    }

    /// Moves as many of the pending bytes as fit into `out[from..]`, and
    /// returns how many were moved.
    pub fn read_data(&mut self, out: &mut [u8], from: usize) -> (n: usize)
        requires
            old(self).wf(),
            from <= old(out)@.len(),
        ensures
            final(self).wf(),
            final(self).input() == old(self).input(),
            final(self).ops() == old(self).ops(),
            final(self).stream() == old(self).stream(),
            final(self).member_start() == old(self).member_start(),
            final(self).history() == old(self).history(),
            final(self).member_finished() == old(self).member_finished(),
            final(self).encoded() == old(self).encoded(),
            final(self).at_stream_end() == old(self).at_stream_end(),
            final(self).dictionary_size() == old(self).dictionary_size(),
            final(self).coded_size() == old(self).coded_size(),
            final(self).member_size_limit() == old(self).member_size_limit(),
            n == if old(out)@.len() - from <= old(self).pending().len() {
                old(out)@.len() - from
            } else {
                old(self).pending().len() as int
            },
            final(self).drained() == old(self).drained() + n,
            final(out)@.len() == old(out)@.len(),
            final(out)@.subrange(from as int, from + n) == old(self).pending().subrange(
                0,
                n as int,
            ),
            final(out)@.subrange(0, from as int) == old(out)@.subrange(0, from as int),
            final(out)@.subrange(from + n, old(out)@.len() as int) == old(out)@.subrange(
                from + n,
                old(out)@.len() as int,
            ),
    {
        self.renc.read_data(out, from)
    }

    /// Moves all the pending bytes to the end of `out`.
    pub fn take_output(&mut self, out: &mut Vec<u8>)
        requires
            old(self).wf(),
        ensures
            final(self).wf(),
            final(self).same_coding(*old(self)),
            final(self).input() == old(self).input(),
            final(self).drained() == final(self).stream().len(),
            final(out)@ == old(out)@ + old(self).pending(),
    {
        self.renc.drain_to(out);
    }

    /// Everything but the data written and what was read of the output is
    /// as it was in `prev`.
    pub open spec fn same_coding(&self, prev: LzEncoderBase) -> bool {
        &&& self.ops() == prev.ops()
        &&& self.stream() == prev.stream()
        &&& self.member_start() == prev.member_start()
        &&& self.history() == prev.history()
        &&& self.member_finished() == prev.member_finished()
        &&& self.encoded() == prev.encoded()
        &&& self.at_stream_end() == prev.at_stream_end()
        &&& self.dictionary_size() == prev.dictionary_size()
        &&& self.coded_size() == prev.coded_size()
        &&& self.member_size_limit() == prev.member_size_limit()
    }

    /// After a stop for want of data, or before any was written, there is
    /// room to write: the window holds two dictionaries and more.
    pub proof fn lemma_write_room(&self)
        requires
            self.wf(),
        ensures
            self.write_size() + (self.input().len() - self.encoded()) >= self.dictionary_size()
                + WINDOW_MARGIN || self.write_size() + self.input().len() == u64::MAX,
    {
        self.mb.lemma_wf();
        self.mb.lemma_free_space();
    }

    /// What selects the models of the next operation.
    fn context(&self) -> (ctx: Context)
        requires
            self.wf(),
        ensures
            ctx == enc_ops(self.ops()).lz.context(),
            ctx.wf(),
    {
        proof {
            self.mb.lemma_wf();
        }
        let dp: u64 = self.mb.get_data_position();
        let ghost lz = enc_ops(self.ops@).lz;
        let ctx = Context {
            state: self.state,
            pos_state: (dp % 4) as u32,
            prev_byte: if dp > 0 {
                self.mb.peek_back(1)
            } else {
                0
            },
            match_byte: if self.state >= 7 {
                self.mb.peek_back(self.reps.rep0 + 1)
            } else {
                0
            },
        };
        proof {
            assert(lz.data.len() == dp);
            if dp > 0 {
                assert(lz.data.last() == self.mb.data()[dp - 1]);
            }
            if self.state >= 7 {
                assert(lz.data[lz.data.len() - 1 - self.reps.rep0] == self.mb.data()[dp - (
                self.reps.rep0 + 1)]);
            }
        }
        ctx
    }

    /// How many of the bytes ahead, `limit` at most, repeat those that lie
    /// `dis + 1` bytes before them; 0 if the distance reaches beyond the data
    /// or the dictionary.
    fn rep_match_len(&self, dis: u32, limit: usize) -> (len: usize)
        requires
            self.wf(),
            limit <= self.input().len() - self.encoded(),
        ensures
            len <= limit,
            len > 0 ==> dis < self.dictionary_size() && is_match(
                self.input(),
                self.encoded() as int,
                dis as int,
                len as int,
            ),
            dis < self.encoded() && dis < self.dictionary_size() ==> is_match(
                self.input(),
                self.encoded() as int,
                dis as int,
                len as int,
            ) && (len < limit ==> self.input()[self.encoded() + len] != self.input()[self.encoded()
                + len - dis - 1]),
            !(dis < self.encoded() && dis < self.dictionary_size()) ==> len == 0,
    {
        proof {
            self.mb.lemma_wf();
        }
        if (dis as u64) < self.mb.get_data_position() && dis < self.mb.get_dictionary_size() {
            self.mb.true_match_len(dis + 1, limit)
        } else {
            0
        }
    }

    /// Chooses the operation for the data ahead: the longest repeat from one
    /// of the four last distances if it is long enough, else the match that
    /// the hash table finds if it is, else a one-byte repeat or a literal.
    fn choose_op(&mut self, limit: usize) -> (op: Op)
        requires
            old(self).wf(),
            !old(self).member_finished(),
            1 <= limit <= old(self).input().len() - old(self).encoded(),
            limit <= MAX_MATCH_LEN,
        ensures
            final(self).wf(),
            final(self).same_but_input(*old(self)),
            final(self).input() == old(self).input(),
            final(self).renc == old(self).renc,
            op.wf(),
            !op.is_marker(),
            1 <= op.out_len() <= limit,
            enc_ops(old(self).ops()).lz.admits(op, old(self).dictionary_size()),
            enc_ops(old(self).ops()).lz.apply(op).data == old(self).input().subrange(
                0,
                (old(self).encoded() + op.out_len()) as int,
            ),
    {
        proof {
            self.mb.lemma_wf();
        }
        let ghost lz = enc_ops(self.ops@).lz;
        let ghost data = self.mb.data();
        let ghost dp = self.mb.data_position() as int;
        let (main_len, main_dis) = self.mb.longest_match(limit);
        let r0: usize = self.rep_match_len(self.reps.rep0, limit);
        let r1: usize = self.rep_match_len(self.reps.rep1, limit);
        let r2: usize = self.rep_match_len(self.reps.rep2, limit);
        let r3: usize = self.rep_match_len(self.reps.rep3, limit);
        let mut rep_len: usize = r0;
        let mut index: u32 = 0;
        if r1 > rep_len {
            rep_len = r1;
            index = 1;
        }
        if r2 > rep_len {
            rep_len = r2;
            index = 2;
        }
        if r3 > rep_len {
            rep_len = r3;
            index = 3;
        }
        proof {
            assert(lz.data =~= data.subrange(0, dp));
        }
        if rep_len > MIN_MATCH_LEN as usize && rep_len + 3 > main_len {
            let op = Op::Rep { index, len: rep_len as u32 };
            proof {
                lemma_copy_match(data, dp, lz.distance(op) as int, rep_len as nat);
            }
            op
        } else if main_len > MIN_MATCH_LEN as usize {
            let op = Op::Match { dis: main_dis, len: main_len as u32 };
            proof {
                lemma_copy_match(data, dp, main_dis as int, main_len as nat);
            }
            op
        } else if r0 > 0 {
            proof {
                lemma_copy_match(data, dp, self.reps.rep0 as int, 1);
                assert(is_match(data, dp, self.reps.rep0 as int, 1)) by {
                    assert(data[dp + 0] == data[dp + 0 - self.reps.rep0 - 1]);
                }
            }
            Op::ShortRep
        } else {
            let byte: u8 = self.mb.peek(0);
            proof {
                assert(lz.data.push(byte) =~= data.subrange(0, dp + 1));
            }
            Op::Literal { byte }
        }
    }

    /// Holds `op` against the data ahead: yields whether it is an operation
    /// that the coding state admits and that stands for the next bytes.
    fn holds(&self, op: Op, avail: usize) -> (b: bool)
        requires
            self.wf(),
            !self.member_finished(),
            1 <= avail == self.input().len() - self.encoded(),
        ensures
            b == {
                &&& op.wf()
                &&& !op.is_marker()
                &&& 1 <= op.out_len() <= avail
                &&& enc_ops(self.ops()).lz.admits(op, self.dictionary_size())
                &&& enc_ops(self.ops()).lz.apply(op).data == self.input().subrange(
                    0,
                    (self.encoded() + op.out_len()) as int,
                )
            },
    {
        proof {
            self.mb.lemma_wf();
        }
        let ghost lz = enc_ops(self.ops@).lz;
        let ghost data = self.mb.data();
        let ghost dp = self.mb.data_position() as int;
        proof {
            assert(lz.data =~= data.subrange(0, dp));
            if !(op is Literal) && op.wf() && op.out_len() <= avail && lz.admits(
                op,
                self.dictionary_size(),
            ) && lz.apply(op).data == data.subrange(0, dp + op.out_len()) {
                lemma_copy_only_match(data, dp, lz.distance(op) as int, op.out_len());
            }
        }
        match op {
            Op::Literal { byte } => {
                let b: bool = byte == self.mb.peek(0);
                proof {
                    if b {
                        assert(lz.data.push(byte) =~= data.subrange(0, dp + 1));
                    } else {
                        assert(lz.data.push(byte)[dp] != data.subrange(0, dp + 1)[dp]);
                    }
                }
                b
            },
            Op::ShortRep => {
                let b: bool = self.rep_match_len(self.reps.rep0, 1) == 1;
                proof {
                    if b {
                        lemma_copy_match(data, dp, self.reps.rep0 as int, 1);
                        assert(is_match(data, dp, self.reps.rep0 as int, 1));
                        assert(data[dp + 0] == data[dp + 0 - self.reps.rep0 - 1]);
                    } else if is_match(data, dp, self.reps.rep0 as int, 1) {
                        assert(data[dp + 0] == data[dp + 0 - self.reps.rep0 - 1]);
                    }
                }
                b
            },
            Op::Rep { index, len } => {
                if index >= 4 || len < MIN_MATCH_LEN || len > MAX_MATCH_LEN || len as usize
                    > avail {
                    return false;
                }
                let dis: u32 = if index == 0 {
                    self.reps.rep0
                } else if index == 1 {
                    self.reps.rep1
                } else if index == 2 {
                    self.reps.rep2
                } else {
                    self.reps.rep3
                };
                let found: usize = self.rep_match_len(dis, len as usize);
                let b: bool = found == len as usize;
                proof {
                    if b {
                        lemma_copy_match(data, dp, lz.distance(op) as int, len as nat);
                    } else if is_match(data, dp, dis as int, len as int) {
                        assert(data[dp + found] == data[dp + found - dis - 1]);
                    }
                }
                b
            },
            Op::Match { dis, len } => {
                if dis == MARKER_DISTANCE || len < MIN_MATCH_LEN || len > MAX_MATCH_LEN
                    || len as usize > avail {
                    return false;
                }
                let found: usize = self.rep_match_len(dis, len as usize);
                let b: bool = found == len as usize;
                proof {
                    if b {
                        lemma_copy_match(data, dp, dis as int, len as nat);
                    } else if is_match(data, dp, dis as int, len as int) {
                        assert(data[dp + found] == data[dp + found - dis - 1]);
                    }
                }
                b
            },
        }
    }

    /// The operation that the optimizer plans next, if it holds against the
    /// data. If it does not, the plan is given up, and the operation is a
    /// literal.
    fn planned_op(&mut self, avail: usize) -> (op: Op)
        requires
            old(self).wf(),
            !old(self).member_finished(),
            old(self).optimizer is Some,
            1 <= avail == old(self).input().len() - old(self).encoded(),
        ensures
            final(self).wf(),
            final(self).same_but_input(*old(self)),
            final(self).input() == old(self).input(),
            final(self).renc == old(self).renc,
            op.wf(),
            !op.is_marker(),
            1 <= op.out_len() <= avail,
            enc_ops(old(self).ops()).lz.admits(op, old(self).dictionary_size()),
            enc_ops(old(self).ops()).lz.apply(op).data == old(self).input().subrange(
                0,
                (old(self).encoded() + op.out_len()) as int,
            ),
    {
        proof {
            self.mb.lemma_wf();
        }
        let proposal: Op = match self.optimizer.take() {
            Some(mut o) => {
                let op: Op = o.next_op(&self.mb, &self.probs, self.state, self.reps);
                self.optimizer = Some(o);
                op
            },
            None => Op::ShortRep,
        };
        if self.holds(proposal, avail) {
            return proposal;
        }
        match self.optimizer.take() {
            Some(mut o) => {
                o.discard_plan();
                self.optimizer = Some(o);
            },
            None => {},
        }
        let byte: u8 = self.mb.peek(0);
        proof {
            let lz = enc_ops(self.ops@).lz;
            let data = self.mb.data();
            let dp = self.mb.data_position() as int;
            assert(lz.data =~= data.subrange(0, dp));
            assert(lz.data.push(byte) =~= data.subrange(0, dp + 1));
        }
        Op::Literal { byte }
    }

    /// Encodes `op`, which stands for the next bytes of the data.
    #[verifier::rlimit(60)]
    fn emit(&mut self, op: Op)
        requires
            old(self).wf(),
            !old(self).member_finished(),
            old(self).renc.member_pos() + old(self).renc@.ff_count <= old(self).member_size_limit,
            old(self).encoded() <= DATA_SIZE_LIMIT,
            op.wf(),
            !op.is_marker(),
            1 <= op.out_len() <= old(self).input().len() - old(self).encoded(),
            enc_ops(old(self).ops()).lz.admits(op, old(self).dictionary_size()),
            enc_ops(old(self).ops()).lz.apply(op).data == old(self).input().subrange(
                0,
                (old(self).encoded() + op.out_len()) as int,
            ),
        ensures
            final(self).wf(),
            !final(self).member_finished(),
            final(self).ops() == old(self).ops().push(op),
            final(self).encoded() == old(self).encoded() + op.out_len(),
            final(self).input() == old(self).input(),
            final(self).at_stream_end() == old(self).at_stream_end(),
            final(self).dictionary_size() == old(self).dictionary_size(),
            final(self).coded_size() == old(self).coded_size(),
            final(self).member_size_limit() == old(self).member_size_limit(),
            final(self).member_start() == old(self).member_start(),
            final(self).history() == old(self).history(),
            final(self).drained() == old(self).drained(),
            final(self).stream().len() >= old(self).stream().len(),
            final(self).stream().subrange(0, old(self).stream().len() as int) == old(self).stream(),
    {
        let ghost e0 = enc_ops(self.ops@);
        let ghost dict = self.mb.dictionary_size();
        let ghost r0 = self.renc;
        proof {
            self.mb.lemma_wf();
            self.renc.lemma_wf();
            lemma_parse_push(self.ops@, op, dict);
        }
        let ctx: Context = self.context();
        encode_op(&mut self.renc, &mut self.probs, ctx, op);
        let n: usize = match op {
            Op::Literal { byte } => 1,
            Op::ShortRep => 1,
            Op::Rep { index, len } => len as usize,
            Op::Match { dis, len } => len as usize,
        };
        self.crc = self.mb.crc_ahead(&self.table, self.crc, n);
        match self.optimizer.take() {
            Some(mut o) => {
                o.moved(&self.mb, n);
                o.count(n);
                self.optimizer = Some(o);
                self.mb.advance(n);
            },
            None => {
                self.mb.move_pos(n);
            },
        }
        let r: Reps = self.reps;
        match op {
            Op::Literal { byte } => {},
            Op::ShortRep => {},
            Op::Rep { index, len } => {
                if index == 1 {
                    self.reps = Reps { rep0: r.rep1, rep1: r.rep0, rep2: r.rep2, rep3: r.rep3 };
                } else if index == 2 {
                    self.reps = Reps { rep0: r.rep2, rep1: r.rep0, rep2: r.rep1, rep3: r.rep3 };
                } else if index != 0 {
                    self.reps = Reps { rep0: r.rep3, rep1: r.rep0, rep2: r.rep1, rep3: r.rep2 };
                }
            },
            Op::Match { dis, len } => {
                self.reps = Reps { rep0: dis, rep1: r.rep0, rep2: r.rep1, rep3: r.rep2 };
            },
        }
        self.state = next_state(self.state, op);
        self.ops = Ghost(self.ops@.push(op));
        proof {
            let e1 = enc_ops(self.ops@);
            let c = op_events(e0.probs, e0.lz.context(), op);
            assert(e1 == enc_op(e0, op));
            lemma_re_events_concat(re_init(), e0.evs, c.0);
            let data = self.mb.data();
            let dp0 = old(self).mb.data_position() as int;
            assert(e1.lz.data =~= e0.lz.data + data.subrange(dp0, dp0 + n));
            assert(old(self).mb.ahead().subrange(0, n as int) =~= data.subrange(dp0, dp0 + n));
            lemma_crc_update_concat(CRC_INIT, e0.lz.data, data.subrange(dp0, dp0 + n));
            let ms = self.member_start@ as int;
            assert(self.renc.stream().subrange(0, ms) =~= r0.stream().subrange(0, ms)) by {
                assert forall|j: int| 0 <= j < ms implies self.renc.stream()[j] == r0.stream()[j] by {
                    assert(self.renc.stream().subrange(0, r0.stream().len() as int)[j]
                        == self.renc.stream()[j]);
                }
            }
            assert(self.renc.stream().subrange(ms, ms + HEADER_SIZE) =~= r0.stream().subrange(
                ms,
                ms + HEADER_SIZE,
            )) by {
                assert forall|j: int| ms <= j < ms + HEADER_SIZE implies self.renc.stream()[j]
                    == r0.stream()[j] by {
                    assert(self.renc.stream().subrange(0, r0.stream().len() as int)[j]
                        == self.renc.stream()[j]);
                }
            }
        }
    }

    /// Ends the member: the marker is encoded, the range encoder flushed,
    /// and the trailer put out.
    #[verifier::rlimit(60)]
    fn full_flush(&mut self)
        requires
            old(self).wf(),
            !old(self).member_finished(),
        ensures
            final(self).wf(),
            final(self).member_finished(),
            final(self).ops() == old(self).ops(),
            final(self).encoded() == old(self).encoded(),
            final(self).input() == old(self).input(),
            final(self).at_stream_end() == old(self).at_stream_end(),
            final(self).dictionary_size() == old(self).dictionary_size(),
            final(self).coded_size() == old(self).coded_size(),
            final(self).member_size_limit() == old(self).member_size_limit(),
            final(self).member_start() == old(self).member_start(),
            final(self).history() == old(self).history(),
            final(self).drained() == old(self).drained(),
            final(self).stream().len() >= old(self).stream().len(),
            final(self).stream().subrange(0, old(self).stream().len() as int) == old(self).stream(),
    {
        let ghost e0 = enc_ops(self.ops@);
        let ghost r0 = self.renc;
        let ghost ms = self.member_start@ as int;
        proof {
            self.mb.lemma_wf();
            self.renc.lemma_wf();
        }
        let ctx: Context = self.context();
        let m: Op = Op::Match { dis: MARKER_DISTANCE, len: MIN_MATCH_LEN };
        encode_op(&mut self.renc, &mut self.probs, ctx, m);
        let ghost r1 = self.renc;
        self.renc.flush();
        let ghost r2 = self.renc;
        proof {
            RangeEncoder::lemma_extends_trans(r0, r1, r2, MAX_OP_BITS as int, 6);
            r1.lemma_wf();
            RangeEncoder::lemma_flushed(r1@);
            r2.lemma_wf();
            let c = op_events(e0.probs, e0.lz.context(), marker());
            lemma_re_events_concat(re_init(), e0.evs, c.0);
            reveal(payload_bytes);
            assert(r2@.out == payload_bytes(self.ops@));
        }
        let trailer = Trailer {
            data_crc: self.crc ^ 0xFFFF_FFFFu32,
            data_size: self.mb.get_data_position(),
            member_size: self.renc.member_position() + TRAILER_SIZE as u64,
        };
        let bytes: Vec<u8> = make_trailer(trailer);
        self.renc.put_bytes(bytes.as_slice());
        self.member_finished = true;
        proof {
            let s2 = r2.stream();
            let s3 = self.renc.stream();
            assert forall|j: int| ms <= j < ms + HEADER_SIZE implies s2[j] == r0.stream()[j] by {
                assert(s2.subrange(0, r0.stream().len() as int)[j] == s2[j]);
            }
            assert(s2.subrange(ms, ms + HEADER_SIZE) =~= r0.stream().subrange(ms, ms + HEADER_SIZE));
            assert(s2.skip(ms) =~= s2.subrange(ms, ms + HEADER_SIZE) + s2.skip(ms + HEADER_SIZE));
            assert(s3.skip(ms) =~= s2.skip(ms) + bytes@);
            assert(s3.subrange(ms, ms + HEADER_SIZE) =~= s2.subrange(ms, ms + HEADER_SIZE));
            assert(s3.subrange(0, ms) =~= r0.stream().subrange(0, ms)) by {
                assert forall|j: int| 0 <= j < ms implies s3[j] == r0.stream()[j] by {
                    assert(s2.subrange(0, r0.stream().len() as int)[j] == s2[j]);
                }
            }
            assert(s3.subrange(0, r0.stream().len() as int) =~= r0.stream()) by {
                assert(s3.subrange(0, s2.len() as int) =~= s2);
                assert forall|j: int| 0 <= j < r0.stream().len() implies s3[j] == r0.stream()[j] by {
                    assert(s2.subrange(0, r0.stream().len() as int)[j] == s2[j]);
                }
            }
        }
    }

    /// Whether the output queue has the room that encoding an operation
    /// asks for.
    pub open spec fn has_room(&self) -> bool {
        self.pending().len() < RE_BUFFER_SIZE
    }

    /// Encodes the data written as far as can be: until the room in the
    /// output queue runs short, the data runs short of the longest match
    /// while more may come, or the member ends. The member ends when its data
    /// is complete and all encoded, or when it has reached its size limit.
    pub fn encode_member(&mut self)
        requires
            old(self).wf(),
        ensures
            final(self).wf(),
            final(self).input() == old(self).input(),
            final(self).at_stream_end() == old(self).at_stream_end(),
            final(self).dictionary_size() == old(self).dictionary_size(),
            final(self).coded_size() == old(self).coded_size(),
            final(self).member_size_limit() == old(self).member_size_limit(),
            final(self).member_start() == old(self).member_start(),
            final(self).history() == old(self).history(),
            final(self).drained() == old(self).drained(),
            final(self).stream().len() >= old(self).stream().len(),
            final(self).stream().subrange(0, old(self).stream().len() as int) == old(self).stream(),
            final(self).encoded() >= old(self).encoded(),
            final(self).stream() == old(self).stream() || final(self).encoded() > old(
                self,
            ).encoded() || (final(self).member_finished() && !old(self).member_finished()),
            old(self).member_finished() ==> final(self).member_finished() && final(self).ops()
                == old(self).ops() && final(self).stream() == old(self).stream(),
            !final(self).member_finished() ==> !final(self).has_room() || (
                !final(self).at_stream_end()
                && final(self).input().len() - final(self).encoded() < LOOKAHEAD),
            final(self).member_finished() && !old(self).member_finished() ==> (
                final(self).at_stream_end()
                && final(self).encoded() == final(self).input().len())
                || final(self).ops().len() > 0,
    {
        if self.member_finished {
            assert(self.stream().subrange(0, self.stream().len() as int) =~= self.stream());
            return ;
        }
        proof {
            assert(self.stream().subrange(0, self.stream().len() as int) =~= self.stream());
        }
        loop
            invariant
                self.wf(),
                !self.member_finished(),
                !old(self).member_finished(),
                self.input() == old(self).input(),
                self.at_stream_end() == old(self).at_stream_end(),
                self.dictionary_size() == old(self).dictionary_size(),
                self.coded_size() == old(self).coded_size(),
                self.member_size_limit() == old(self).member_size_limit(),
                self.member_start() == old(self).member_start(),
                self.history() == old(self).history(),
                self.drained() == old(self).drained(),
                self.stream().len() >= old(self).stream().len(),
                self.stream().subrange(0, old(self).stream().len() as int) == old(self).stream(),
                self.encoded() >= old(self).encoded(),
                self.stream() == old(self).stream() || self.encoded() > old(self).encoded(),
            decreases self.input().len() - self.encoded(),
        {
            proof {
                self.mb.lemma_wf();
                self.renc.lemma_wf();
            }
            if self.renc.used_bytes() >= RE_BUFFER_SIZE {
                return ;
            }
            let ghost prev = *self;
            let at_limit: bool = self.ops_started() && (self.renc.member_position()
                >= self.member_size_limit - (TRAILER_SIZE as u64 + 16)
                || self.mb.get_data_position() > DATA_SIZE_LIMIT);
            if self.mb.data_finished() || at_limit {
                self.full_flush();
                proof {
                    Self::lemma_stream_trans(*old(self), prev, *self);
                }
                return ;
            }
            let avail: usize = self.mb.available_bytes();
            if avail == 0 || (avail < LOOKAHEAD && !self.mb.is_at_stream_end()) {
                return ;
            }
            let limit: usize = if avail < self.match_len_limit as usize {
                avail
            } else {
                self.match_len_limit as usize
            };
            let op: Op = if self.optimizer.is_some() {
                self.planned_op(avail)
            } else {
                self.choose_op(limit)
            };
            self.emit(op);
            proof {
                Self::lemma_stream_trans(*old(self), prev, *self);
            }
        }
    }

    /// Whether an operation was encoded in the member at hand.
    fn ops_started(&self) -> (b: bool)
        requires
            self.wf(),
        ensures
            b == (self.ops@.len() > 0),
    {
        proof {
            self.mb.lemma_wf();
            lemma_parse_len(self.ops@, self.mb.dictionary_size());
        }
        self.mb.get_data_position() > 0
    }

    /// A stream that grew at its end twice grew at its end.
    pub proof fn lemma_stream_trans(a: LzEncoderBase, b: LzEncoderBase, c: LzEncoderBase)
        requires
            b.stream().len() >= a.stream().len(),
            b.stream().subrange(0, a.stream().len() as int) == a.stream(),
            c.stream().len() >= b.stream().len(),
            c.stream().subrange(0, b.stream().len() as int) == b.stream(),
        ensures
            c.stream().subrange(0, a.stream().len() as int) == a.stream(),
    {
        let n = a.stream().len() as int;
        assert forall|j: int| 0 <= j < n implies c.stream()[j] == a.stream()[j] by {
            assert(c.stream().subrange(0, b.stream().len() as int)[j] == c.stream()[j]);
            assert(b.stream().subrange(0, n)[j] == b.stream()[j]);
        }
        assert(c.stream().subrange(0, n) =~= a.stream());
    }

    /// Starts the next member, with the data not encoded yet as its data.
    /// The member at hand must be complete and all the output read.
    pub fn restart_member(&mut self, member_size_limit: u64)
        requires
            old(self).wf(),
            old(self).member_finished(),
            MIN_MEMBER_SIZE_LIMIT <= member_size_limit <= MAX_MEMBER_SIZE_LIMIT,
        ensures
            final(self).wf(),
            !final(self).member_finished(),
            final(self).ops() == Seq::<Op>::empty(),
            final(self).input() == old(self).input().skip(old(self).encoded() as int),
            final(self).encoded() == 0,
            final(self).at_stream_end() == old(self).at_stream_end(),
            final(self).dictionary_size() == old(self).dictionary_size(),
            final(self).coded_size() == old(self).coded_size(),
            final(self).member_size_limit() == member_size_limit,
            final(self).member_start() == old(self).stream().len(),
            final(self).history() == old(self).history().push(old(self).ops()),
            final(self).all_input() == old(self).all_input(),
            final(self).drained() == old(self).drained(),
            final(self).stream() == old(self).stream() + header_bytes(old(self).coded_size()),
    {
        proof {
            self.mb.lemma_wf();
            self.renc.lemma_wf();
        }
        let dict: u32 = self.mb.get_dictionary_size();
        let header: [u8; 6] = make_header(dict);
        self.mb.reset();
        match self.optimizer.take() {
            Some(mut o) => {
                o.reset();
                self.optimizer = Some(o);
            },
            None => {},
        }
        self.renc.reset();
        let ghost s0 = self.renc.stream();
        self.renc.put_bytes(header.as_slice());
        reset_probs(&mut self.probs);
        self.state = 0;
        self.reps = Reps { rep0: 0, rep1: 0, rep2: 0, rep3: 0 };
        self.crc = CRC_INIT;
        self.member_size_limit = member_size_limit;
        self.member_finished = false;
        self.ops = Ghost(Seq::empty());
        self.member_start = Ghost(s0.len());
        self.history = Ghost(self.history@.push(old(self).ops@));
        proof {
            let h0 = old(self).history@;
            let ms0 = old(self).member_start@ as int;
            assert(self.history@.drop_last() =~= h0);
            assert(s0 =~= s0.subrange(0, ms0) + s0.skip(ms0));
            assert(self.renc.stream().subrange(0, s0.len() as int) =~= s0);
            let d = old(self).mb.data();
            let k = old(self).mb.data_position() as int;
            assert(d =~= d.subrange(0, k) + d.skip(k));
            assert(members_data(self.history@) + d.skip(k) =~= members_data(h0) + d);
            assert(self.probs@ =~= enc_init().probs);
            assert(self.mb.data().subrange(0, 0) =~= lz_init().data);
            assert(self.renc.stream().subrange(s0.len() as int, s0.len() + HEADER_SIZE)
                =~= header_bytes(self.coded_size));
        }
    }
}

/// A parse with no operations stands for no data, and any other for some.
pub proof fn lemma_parse_len(ops: Seq<Op>, dictionary_size: u32)
    requires
        is_parse(ops, dictionary_size),
        enc_ops(ops).lz.wf(dictionary_size),
    ensures
        ops.len() > 0 <==> enc_ops(ops).lz.data.len() > 0,
    decreases ops.len(),
{
    if ops.len() > 0 {
        let prev = enc_ops(ops.drop_last()).lz;
        match ops.last() {
            Op::Literal { byte } => {},
            _ => {
                crate::lzma::lemma_lz_copy(
                    prev.data,
                    prev.distance(ops.last()) as int,
                    ops.last().out_len(),
                );
            },
        }
    }
}

} // verus!
