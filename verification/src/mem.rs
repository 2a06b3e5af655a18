//! Raw low-level manipulation of lzip streams held in memory.

use vstd::prelude::*;
use crate::decoder::{DecoderState, LZ_Decoder, sat_add};
use crate::errno::Errno;

verus! {

/// How a call that succeeded left the stream.
#[derive(Clone, Copy, Debug, PartialEq, Eq, Structural)]
pub enum Status {
    /// Decompression went fine, nothing much to report.
    RunOk,
    /// The input or the output buffer was too small to go any further, but
    /// otherwise everything went normally.
    MemNeeded,
    /// The end of a member was reached, and its trailer agreed.
    StreamEnd,
}

/// Fatal errors met when decompressing: no progress could be made.
#[derive(Clone, Copy, Debug, PartialEq, Eq, Structural)]
pub enum Error {
    /// The sequence of operations called on the stream was invalid.
    Sequence,
    /// The data being decompressed was invalid.
    Data,
    /// The header of a member was missing or invalid.
    DataMagic,
    /// The parameters to this function were invalid.
    Param,
}

impl Error {
    /// The error that a latched code stands for; `None` for no error.
    pub open spec fn spec_from_errno(e: Errno) -> Option<Error> {
        match e {
            Errno::NoError => None,
            Errno::BadArgument => Some(Error::Param),
            Errno::MemError => Some(Error::Param),
            Errno::SequenceError => Some(Error::Sequence),
            Errno::HeaderError => Some(Error::DataMagic),
            Errno::UnexpectedEof => Some(Error::Data),
            Errno::DataError => Some(Error::Data),
            Errno::LibraryError => Some(Error::Sequence),
        }
    }

    /// The error that a latched code stands for; `None` for no error.
    pub fn from_errno(e: Errno) -> (r: Option<Error>)
        ensures
            r == Error::spec_from_errno(e),
    {
        match e {
            Errno::NoError => None,
            Errno::BadArgument => Some(Error::Param),
            Errno::MemError => Some(Error::Param),
            Errno::SequenceError => Some(Error::Sequence),
            Errno::HeaderError => Some(Error::DataMagic),
            Errno::UnexpectedEof => Some(Error::Data),
            Errno::DataError => Some(Error::Data),
            Errno::LibraryError => Some(Error::Sequence),
        }
    }

    /// The error that a latched code is reported as.
    pub fn of(e: Errno) -> (r: Error)
        ensures
            r == error_of(e),
    {
        match Error::from_errno(e) {
            Some(x) => x,
            None => Error::Sequence,
        }
    }

    /// A description of the error.
    pub fn description(&self) -> (s: &'static str)
        ensures
            s@ == match *self {
                Error::Sequence => "lzip: sequence of operations invalid"@,
                Error::Data => "lzip: invalid data"@,
                Error::DataMagic => "lzip: lz header missing"@,
                Error::Param => "lzip: invalid parameters"@,
            },
    {
        match self {
            Error::Sequence => "lzip: sequence of operations invalid",
            Error::Data => "lzip: invalid data",
            Error::DataMagic => "lzip: lz header missing",
            Error::Param => "lzip: invalid parameters",
        }
    }
}

/// The error that a latched code is reported as.
pub open spec fn error_of(e: Errno) -> Error {
    match Error::spec_from_errno(e) {
        Some(x) => x,
        None => Error::Sequence,
    }
}

/// What reading goes through to fill `size` bytes.
pub struct Pumped {
    /// The decoder afterwards.
    pub dec: DecoderState,
    /// The bytes read.
    pub data: Seq<u8>,
    /// Whether reading stopped because the decoder wants more input.
    pub stalled: bool,
}

/// Reads from a decoder until `size` bytes were read, the member at hand is
/// done with, nothing more can be decoded from the input at hand, or the
/// decoder fails. An error stays latched in the decoder.
pub open spec fn pump(s: DecoderState, size: nat) -> Pumped
    decreases size,
{
    if size == 0 {
        Pumped { dec: s, data: Seq::empty(), stalled: false }
    } else {
        let r = s.read(size);
        match r.1 {
            Err(e) => Pumped { dec: r.0, data: Seq::empty(), stalled: false },
            Ok(d) => {
                if r.0.member_finished() || d.len() >= size {
                    Pumped { dec: r.0, data: d, stalled: false }
                } else if d.len() == 0 {
                    Pumped { dec: r.0, data: d, stalled: true }
                } else {
                    let q = pump(r.0, (size - d.len()) as nat);
                    Pumped { dec: q.dec, data: d + q.data, stalled: q.stalled }
                }
            },
        }
    }
}

/// What a `Decompress` holds.
pub struct DecompressState {
    /// The decoder.
    pub dec: DecoderState,
    /// Number of bytes of input consumed; it stops at the largest 64-bit
    /// value.
    pub total_in: u64,
    /// Number of bytes of data produced; it stops at the largest 64-bit
    /// value.
    pub total_out: u64,
}

/// What one call of `decompress` comes to.
pub struct Progress {
    /// The stream afterwards.
    pub state: DecompressState,
    /// Number of bytes of the input consumed.
    pub consumed: nat,
    /// The data produced.
    pub data: Seq<u8>,
    /// What the call returns.
    pub result: Result<Status, Error>,
}

impl DecompressState {
    /// The state of a stream that was just made.
    pub open spec fn init() -> DecompressState {
        DecompressState { dec: DecoderState::init(), total_in: 0, total_out: 0 }
    }

    /// Whether the stream is one that `Decompress` can hold: its decoder was
    /// not told that the input is complete, is not looking for a header, and
    /// has failed exactly if an error is latched.
    pub open spec fn wf(self) -> bool {
        &&& !self.dec.at_stream_end
        &&& !self.dec.seeking
        &&& self.dec.fatal <==> self.dec.errno != Errno::NoError
    }

    /// One call with the given input and room for `size` bytes of data.
    ///
    /// With an error latched, the call fails with it, whatever the buffers,
    /// and nothing is consumed or produced. Once the member is done with,
    /// nothing more is consumed or produced either. Otherwise the decoder
    /// takes what it has room for of the input and decodes until the room
    /// for data is filled, the member is done with, it wants more input, or
    /// it fails. A decoder that wants more input keeps all it took;
    /// otherwise the bytes taken and not used are given back, so that exactly
    /// the bytes of the member count as consumed. The call fails exactly if
    /// an error is latched when it ends; the data decoded before the error
    /// is produced all the same, as far as there is room for it. A call that
    /// consumes and produces nothing reports that a buffer is too small.
    pub open spec fn step(self, input: Seq<u8>, size: nat) -> Progress {
        if self.dec.errno != Errno::NoError {
            Progress {
                state: self,
                consumed: 0,
                data: Seq::empty(),
                result: Err(error_of(self.dec.errno)),
            }
        } else if self.dec.member_finished() {
            Progress { state: self, consumed: 0, data: Seq::empty(), result: Ok(Status::StreamEnd) }
        } else {
            let w = self.dec.write(input);
            let taken: nat = match w.1 {
                Ok(n) => n,
                Err(_) => 0,
            };
            let p = pump(w.0, size);
            let back: nat = if p.stalled {
                0
            } else if p.dec.input.len() <= taken {
                p.dec.input.len()
            } else {
                taken
            };
            let consumed = (taken - back) as nat;
            let dec = p.dec.unwrite(back);
            Progress {
                state: DecompressState {
                    dec,
                    total_in: sat_add(self.total_in, consumed as int),
                    total_out: sat_add(self.total_out, p.data.len() as int),
                },
                consumed,
                data: p.data,
                result: if dec.errno != Errno::NoError {
                    Err(error_of(dec.errno))
                } else {
                    Ok(
                        if dec.member_finished() {
                            Status::StreamEnd
                        } else if consumed == 0 && p.data.len() == 0 {
                            Status::MemNeeded
                        } else {
                            Status::RunOk
                        },
                    )
                },
            }
        }
    }
}

/// An in-memory decompression stream, which inflates one member.
pub struct Decompress {
    dec: LZ_Decoder,
    total_in: u64,
    total_out: u64,
}

impl View for Decompress {
    type V = DecompressState;

    closed spec fn view(&self) -> DecompressState {
        DecompressState { dec: self.dec@, total_in: self.total_in, total_out: self.total_out }
    }
}

/// What `pump` found, with the number of bytes read.
struct Pump {
    read: usize,
    stalled: bool,
}

/// Reads from `dec` into `output` from the place `off` on.
fn read_at(dec: &mut LZ_Decoder, output: &mut [u8], off: usize) -> (r: Result<usize, Errno>)
    requires
        old(dec).wf(),
        off <= old(output)@.len(),
    ensures
        final(dec).wf(),
        final(dec)@ == old(dec)@.read((old(output)@.len() - off) as nat).0,
        final(output)@.len() == old(output)@.len(),
        match r {
            Ok(n) => {
                &&& off + n <= old(output)@.len()
                &&& old(dec)@.read((old(output)@.len() - off) as nat).1 == Ok::<Seq<u8>, Errno>(
                    final(output)@.subrange(off as int, off + n),
                )
                &&& final(output)@.subrange(0, off as int) == old(output)@.subrange(0, off as int)
                &&& final(output)@.subrange(off + n, old(output)@.len() as int) == old(
                    output,
                )@.subrange(off + n, old(output)@.len() as int)
            },
            Err(e) => {
                &&& old(dec)@.read((old(output)@.len() - off) as nat).1 == Err::<Seq<u8>, Errno>(e)
                &&& final(output)@ == old(output)@
            },
        },
{
    let ghost before = output@;
    let ghost size = output@.len();
    let (head, tail) = output.split_at_mut(off);
    let ghost room = tail@.len();
    let r = dec.read(tail);
    let ghost got = tail@;
    proof {
        match r {
            Ok(n) => {
                assert(output@.subrange(off as int, off + n) =~= got.subrange(0, n as int));
                assert(output@.subrange(0, off as int) =~= before.subrange(0, off as int));
                assert(output@.subrange(off + n, size as int) =~= got.subrange(
                    n as int,
                    room as int,
                ));
                assert(before.subrange(off + n, size as int) =~= before.subrange(
                    off as int,
                    size as int,
                ).subrange(n as int, room as int));
            },
            Err(e) => {
                assert(output@ =~= before);
            },
        }
    }
    r
}

/// Unfolds `pump` once.
proof fn lemma_pump(s: DecoderState, size: nat)
    requires
        size > 0,
    ensures
        pump(s, size) == match s.read(size).1 {
            Err(e) => Pumped { dec: s.read(size).0, data: Seq::empty(), stalled: false },
            Ok(d) => {
                if s.read(size).0.member_finished() || d.len() >= size {
                    Pumped { dec: s.read(size).0, data: d, stalled: false }
                } else if d.len() == 0 {
                    Pumped { dec: s.read(size).0, data: d, stalled: true }
                } else {
                    let q = pump(s.read(size).0, (size - d.len()) as nat);
                    Pumped { dec: q.dec, data: d + q.data, stalled: q.stalled }
                }
            },
        },
{
}

/// Where reading stands after `data` was read: what `pump` comes to from
/// there, with `data` before what it reads.
spec fn pump_on(dec: DecoderState, data: Seq<u8>, size: nat) -> Pumped {
    let q = pump(dec, size);
    Pumped { dec: q.dec, data: data + q.data, stalled: q.stalled }
}

/// Reads from `dec` into the front of `output` as `pump` says.
fn pump_into(dec: &mut LZ_Decoder, output: &mut [u8]) -> (r: Pump)
    requires
        old(dec).wf(),
    ensures
        final(dec).wf(),
        final(dec)@ == pump(old(dec)@, old(output)@.len()).dec,
        r.read == pump(old(dec)@, old(output)@.len()).data.len(),
        r.read <= old(output)@.len(),
        r.stalled == pump(old(dec)@, old(output)@.len()).stalled,
        final(output)@.len() == old(output)@.len(),
        final(output)@.subrange(0, r.read as int) == pump(old(dec)@, old(output)@.len()).data,
        final(output)@.subrange(r.read as int, old(output)@.len() as int) == old(output)@.subrange(
            r.read as int,
            old(output)@.len() as int,
        ),
{
    let size: usize = output.len();
    let ghost s0 = dec@;
    let mut off: usize = 0;
    let mut stalled: bool = false;
    let mut go: bool = true;
    proof {
        assert(output@.subrange(0, 0) =~= Seq::<u8>::empty());
        assert(Seq::<u8>::empty() + pump(s0, size as nat).data =~= pump(s0, size as nat).data);
    }
    while go && off < size
        invariant
            dec.wf(),
            off <= size,
            size == output@.len(),
            size == old(output)@.len(),
            s0 == old(dec)@,
            go ==> !stalled,
            output@.subrange(off as int, size as int) == old(output)@.subrange(
                off as int,
                size as int,
            ),
            pump(s0, size as nat) == if go {
                pump_on(dec@, output@.subrange(0, off as int), (size - off) as nat)
            } else {
                Pumped { dec: dec@, data: output@.subrange(0, off as int), stalled }
            },
        decreases size - off + if go { 1int } else { 0int },
    {
        let ghost before = output@;
        let ghost d0 = dec@;
        let ghost off0 = off;
        proof {
            lemma_pump(d0, (size - off) as nat);
        }
        let r = read_at(dec, output, off);
        match r {
            Err(e) => {
                go = false;
                proof {
                    assert(before.subrange(0, off as int) + Seq::<u8>::empty()
                        =~= before.subrange(0, off as int));
                }
            },
            Ok(n) => {
                off = off + n;
                let ghost d = output@.subrange(off0 as int, off as int);
                proof {
                    assert(output@.subrange(0, off as int) =~= before.subrange(0, off0 as int)
                        + d);
                    assert(output@.subrange(off as int, size as int) == old(output)@.subrange(
                        off as int,
                        size as int,
                    )) by {
                        assert(old(output)@.subrange(off as int, size as int)
                            =~= old(output)@.subrange(off0 as int, size as int).subrange(
                            n as int,
                            size - off0,
                        ));
                        assert(before.subrange(off as int, size as int) =~= before.subrange(
                            off0 as int,
                            size as int,
                        ).subrange(n as int, size - off0));
                    }
                }
                if dec.member_finished() || off >= size {
                    go = false;
                } else if n == 0 {
                    stalled = true;
                    go = false;
                } else {
                    proof {
                        let q = pump(dec@, (size - off) as nat);
                        assert((before.subrange(0, off0 as int) + d) + q.data
                            =~= before.subrange(0, off0 as int) + (d + q.data));
                    }
                }
            },
        }
    }
    proof {
        if go {
            assert(output@.subrange(0, off as int) + Seq::<u8>::empty() =~= output@.subrange(
                0,
                off as int,
            ));
        }
    }
    Pump { read: off, stalled }
}

impl Decompress {
    /// The decoder is well-formed, and the stream is one that a
    /// `Decompress` can hold.
    pub closed spec fn wf(&self) -> bool {
        &&& self.dec.wf()
        &&& self@.wf()
    }

    /// What holds of every stream: its decoder was not told that the input
    /// is complete, is not looking for a header, and has failed exactly if
    /// an error is latched.
    pub proof fn lemma_wf(&self)
        requires
            self.wf(),
        ensures
            self@.wf(),
    {
    }

    /// A new stream prepared for decompression. There is one decompression
    /// algorithm, so `small` changes nothing.
    pub fn new(small: bool) -> (d: Decompress)
        ensures
            d.wf(),
            d@ == DecompressState::init(),
    {
        Decompress { dec: LZ_Decoder::open(), total_in: 0, total_out: 0 }
    }

    /// Number of bytes of input consumed so far.
    pub fn total_in(&self) -> (n: u64)
        ensures
            n == self@.total_in,
    {
        self.total_in
    }

    /// Number of bytes of data produced so far.
    pub fn total_out(&self) -> (n: u64)
        ensures
            n == self@.total_out,
    {
        self.total_out
    }

    /// One step of decompression, as `step` says; yields what `decompress`
    /// returns, then how many bytes were consumed, then how many were
    /// produced. The data produced is in the front of `output`, and the rest
    /// of `output` is left as it was.
    pub fn advance(&mut self, input: &[u8], output: &mut [u8]) -> (r: (Result<Status, Error>, usize, usize))
        requires
            old(self).wf(),
        ensures
            final(self).wf(),
            final(self)@ == old(self)@.step(input@, old(output)@.len()).state,
            r.0 == old(self)@.step(input@, old(output)@.len()).result,
            r.1 == old(self)@.step(input@, old(output)@.len()).consumed,
            r.2 == old(self)@.step(input@, old(output)@.len()).data.len(),
            r.1 <= input@.len(),
            r.2 <= old(output)@.len(),
            r.0 is Err <==> final(self)@.dec.errno != Errno::NoError,
            r.0 is Err ==> r.0 == Err::<Status, Error>(error_of(final(self)@.dec.errno)),
            final(output)@.len() == old(output)@.len(),
            final(output)@.subrange(0, r.2 as int) == old(self)@.step(
                input@,
                old(output)@.len(),
            ).data,
            final(output)@.subrange(r.2 as int, old(output)@.len() as int) == old(output)@.subrange(
                r.2 as int,
                old(output)@.len() as int,
            ),
    {
        proof {
            assert(output@.subrange(0, 0) =~= Seq::<u8>::empty());
            lemma_step(self@, input@, output@.len());
        }
        match self.dec.errno() {
            Errno::NoError => {},
            e => {
                return (Err(Error::of(e)), 0, 0);
            },
        }
        if self.dec.member_finished() {
            return (Ok(Status::StreamEnd), 0, 0);
        }
        let ghost s0 = self.dec@;
        let taken: usize = match self.dec.write(input) {
            Ok(n) => n,
            Err(_) => 0,
        };
        let ghost w = self.dec@;
        let p = pump_into(&mut self.dec, output);
        proof {
            lemma_pump_keeps(w, output@.len());
        }
        let left: usize = self.dec.unread_size();
        let back: usize = if p.stalled {
            0
        } else if left <= taken {
            left
        } else {
            taken
        };
        self.dec.unwrite(back);
        let consumed: usize = taken - back;
        self.total_in = add_size(self.total_in, consumed);
        self.total_out = add_size(self.total_out, p.read);
        let result: Result<Status, Error> = match self.dec.errno() {
            Errno::NoError => Ok(
                if self.dec.member_finished() {
                    Status::StreamEnd
                } else if consumed == 0 && p.read == 0 {
                    Status::MemNeeded
                } else {
                    Status::RunOk
                },
            ),
            e => Err(Error::of(e)),
        };
        (result, consumed, p.read)
    }

    /// Decompresses a block of input into a block of output: one step, as
    /// `step` says. The data produced is in the front of `output`, and the
    /// rest of `output` is left as it was. How much was consumed and produced
    /// shows in `total_in` and `total_out`.
    pub fn decompress(&mut self, input: &[u8], output: &mut [u8]) -> (r: Result<Status, Error>)
        requires
            old(self).wf(),
        ensures
            final(self).wf(),
            final(self)@ == old(self)@.step(input@, old(output)@.len()).state,
            r == old(self)@.step(input@, old(output)@.len()).result,
            r is Err <==> final(self)@.dec.errno != Errno::NoError,
            r is Err ==> r == Err::<Status, Error>(error_of(final(self)@.dec.errno)),
            final(output)@.len() == old(output)@.len(),
            final(output)@.subrange(
                0,
                old(self)@.step(input@, old(output)@.len()).data.len() as int,
            ) == old(self)@.step(input@, old(output)@.len()).data,
            final(output)@.subrange(
                old(self)@.step(input@, old(output)@.len()).data.len() as int,
                old(output)@.len() as int,
            ) == old(output)@.subrange(
                old(self)@.step(input@, old(output)@.len()).data.len() as int,
                old(output)@.len() as int,
            ),
    {
        let r = self.advance(input, output);
        r.0
    }

    /// Decompresses a block of input to the end of `output`, which has room
    /// for `room` more bytes: one step, as `step` says.
    pub fn decompress_into(&mut self, input: &[u8], output: &mut Vec<u8>, room: usize) -> (r:
        Result<Status, Error>)
        requires
            old(self).wf(),
            old(output)@.len() + room <= usize::MAX,
        ensures
            final(self).wf(),
            final(self)@ == old(self)@.step(input@, room as nat).state,
            r == old(self)@.step(input@, room as nat).result,
            final(output)@ == old(output)@ + old(self)@.step(input@, room as nat).data,
    {
        let len: usize = output.len();
        output.resize(len + room, 0);
        let ghost filled = output@;
        let slice: &mut [u8] = output.as_mut_slice();
        let (head, tail) = slice.split_at_mut(len);
        let r = self.advance(input, tail);
        let ghost got = tail@;
        output.truncate(len + r.2);
        proof {
            assert(output@ =~= old(output)@ + got.subrange(0, r.2 as int));
        }
        r.0
    }

    /// Decompresses a block of input into an output vector. The vector does
    /// not grow: the space after its length up to its capacity is filled, and
    /// its length adjusted. This is one step, as `step` says, with the room
    /// that the vector has.
    pub fn decompress_vec(&mut self, input: &[u8], output: &mut Vec<u8>) -> (r: Result<
        Status,
        Error,
    >)
        requires
            old(self).wf(),
        ensures
            final(self).wf(),
            exists|room: nat| #[trigger]
                old(self)@.step(input@, room) == (Progress {
                    state: final(self)@,
                    consumed: old(self)@.step(input@, room).consumed,
                    data: final(output)@.skip(old(output)@.len() as int),
                    result: r,
                }),
            final(output)@.len() >= old(output)@.len(),
            final(output)@.subrange(0, old(output)@.len() as int) == old(output)@,
    {
        let room: usize = capacity(output) - output.len();
        let r = self.decompress_into(input, output, room);
        proof {
            let p = old(self)@.step(input@, room as nat);
            assert(output@.skip(old(output)@.len() as int) =~= p.data);
            assert(output@.subrange(0, old(output)@.len() as int) =~= old(output)@);
        }
        r
    }
}

/// The sum of a count and a size; it stops at the largest 64-bit value.
fn add_size(total: u64, n: usize) -> (r: u64)
    ensures
        r == sat_add(total, n as int),
{
    if n as u64 > u64::MAX - total {
        u64::MAX
    } else {
        total + n as u64
    }
}

/// `Vec::capacity`: the number of bytes that the vector can hold without
/// reallocating. All that is claimed of it is that it is not less than the
/// vector's length.
#[verifier::external_body]
fn capacity(v: &Vec<u8>) -> (c: usize)
    ensures
        c >= v@.len(),
{
    v.capacity()
}

/// Reading leaves a decoder that was not told that its input is complete,
/// that is not looking for a header, and that has failed exactly if an
/// error is latched, so.
pub proof fn lemma_pump_keeps(s: DecoderState, size: nat)
    requires
        !s.at_stream_end,
        !s.seeking,
        s.fatal <==> s.errno != Errno::NoError,
    ensures
        !pump(s, size).dec.at_stream_end,
        !pump(s, size).dec.seeking,
        pump(s, size).dec.fatal <==> pump(s, size).dec.errno != Errno::NoError,
    decreases size,
{
    if size > 0 {
        let r = s.read(size);
        lemma_read_keeps(s, size);
        match r.1 {
            Ok(d) => {
                if !(r.0.member_finished() || d.len() >= size) && d.len() > 0 {
                    lemma_pump_keeps(r.0, (size - d.len()) as nat);
                }
            },
            Err(_) => {},
        }
    }
}

/// One read leaves those as they were.
pub proof fn lemma_read_keeps(s: DecoderState, size: nat)
    ensures
        s.read(size).0.at_stream_end == s.at_stream_end,
        s.read(size).0.seeking == s.seeking,
        (s.fatal <==> s.errno != Errno::NoError) ==> (s.read(size).0.fatal <==> s.read(size).0.errno
            != Errno::NoError),
{
}

/// A step leaves a stream that a `Decompress` can hold one. Its result is
/// an error exactly if an error is latched when it ends, and then it is that
/// error; a stream with an error latched stays as it is.
pub proof fn lemma_step(s: DecompressState, input: Seq<u8>, size: nat)
    requires
        s.wf(),
    ensures
        s.step(input, size).state.wf(),
        s.step(input, size).result is Err <==> s.step(input, size).state.dec.errno
            != Errno::NoError,
        s.step(input, size).result is Err ==> s.step(input, size).result == Err::<Status, Error>(
            error_of(s.step(input, size).state.dec.errno),
        ),
        s.dec.errno != Errno::NoError ==> s.step(input, size).state == s && s.step(
            input,
            size,
        ).consumed == 0 && s.step(input, size).data.len() == 0,
{
    if s.dec.errno == Errno::NoError && !s.dec.member_finished() {
        lemma_pump_keeps(s.dec.write(input).0, size);
    }
}

} // verus!
