use lzip::buffer::{compress, decompress};
use lzip::bufread::Next;
use lzip::errno::Errno;
use lzip::lz_encoder::LzmaOptions;
use lzip::mem::{Decompress, Error, Status};

fn options(dictionary_size: u32, match_len_limit: u32) -> LzmaOptions {
    LzmaOptions { dictionary_size, match_len_limit }
}

fn counting(len: usize) -> Vec<u8> {
    (0..len).map(|i| i as u8).collect()
}

fn trailing() -> Vec<u8> {
    (0..123usize).map(|n| ((25 + n) % 256) as u8).collect()
}

fn text(len: usize) -> Vec<u8> {
    let words: [&[u8]; 5] = [b"range ", b"coder ", b"window ", b"match ", b"literal "];
    let mut x: u32 = 12345;
    let mut d = Vec::new();
    while d.len() < len {
        x = x.wrapping_mul(1103515245).wrapping_add(12345);
        d.extend_from_slice(words[((x >> 16) % 5) as usize]);
    }
    d.truncate(len);
    d
}

/// A source of bytes that hands out at most `chunk` bytes at a time, as a
/// buffered reader does.
struct Source {
    data: Vec<u8>,
    pos: usize,
    chunk: usize,
}

impl Source {
    fn fill_buf(&self) -> &[u8] {
        let end = (self.pos + self.chunk).min(self.data.len());
        &self.data[self.pos..end]
    }

    fn rest(&self) -> &[u8] {
        &self.data[self.pos..]
    }
}

/// Reads to the end through a decoder over a buffered source.
fn read_all(d: &mut lzip::bufread::LzDecoder<()>, src: &mut Source, room: usize) -> Result<Vec<u8>, String> {
    let mut out = Vec::new();
    let mut buf = vec![0u8; room];
    let mut turns = 0;
    loop {
        turns += 1;
        assert!(turns < 1_000_000, "the decoder makes no progress");
        if !d.wants_input() {
            return Ok(out);
        }
        let step = d.read_step(src.fill_buf(), &mut buf);
        src.pos += step.consumed;
        match step.next {
            Next::Return(0) => return Ok(out),
            Next::Return(n) => out.extend_from_slice(&buf[..n]),
            Next::Again => {},
            Next::Invalid(e) => return Err(e.description().to_string()),
            Next::UnexpectedEof => return Err("eof".to_string()),
        }
    }
}

/// The same for a decoder of all members.
fn read_all_multi(d: &mut lzip::bufread::MultiLzDecoder<()>, src: &mut Source, room: usize) -> Result<Vec<u8>, String> {
    let mut out = Vec::new();
    let mut buf = vec![0u8; room];
    let mut turns = 0;
    loop {
        turns += 1;
        assert!(turns < 1_000_000, "the decoder makes no progress");
        if !d.wants_input() {
            return Ok(out);
        }
        let step = d.read_step(src.fill_buf(), &mut buf);
        src.pos += step.consumed;
        match step.next {
            Next::Return(0) => return Ok(out),
            Next::Return(n) => out.extend_from_slice(&buf[..n]),
            Next::Again => {},
            Next::Invalid(e) => return Err(e.description().to_string()),
            Next::UnexpectedEof => return Err("eof".to_string()),
        }
    }
}

#[test]
fn compress_then_decompress() {
    for (len, dict, limit) in [(0usize, 1u32 << 12, 5u32), (1, 1 << 12, 273), (13, 1 << 20, 36), (5000, 1 << 12, 16), (70000, 1 << 16, 273)] {
        let data = text(len);
        let stream = compress(&data, options(dict, limit)).unwrap();
        assert_eq!(&stream[..5], &[0x4C, 0x5A, 0x49, 0x50, 1]);
        assert_eq!(decompress(&stream), Ok(data));
    }
}

#[test]
fn compress_makes_data_that_repeats_smaller() {
    let data = text(50000);
    let stream = compress(&data, options(1 << 16, 64)).unwrap();
    assert!(stream.len() < data.len() / 3);
    let zeros = vec![0u8; 100000];
    let stream = compress(&zeros, options(1 << 12, 273)).unwrap();
    assert!(stream.len() < 200);
    assert_eq!(decompress(&stream), Ok(zeros));
}

#[test]
fn compress_rejects_parameters_out_of_bounds() {
    assert_eq!(compress(b"x", options((1 << 12) - 1, 36)), Err(Errno::BadArgument));
    assert_eq!(compress(b"x", options((1 << 29) + 1, 36)), Err(Errno::BadArgument));
    assert_eq!(compress(b"x", options(1 << 12, 4)), Err(Errno::BadArgument));
    assert_eq!(compress(b"x", options(1 << 12, 274)), Err(Errno::BadArgument));
    assert!(compress(b"x", options(1 << 29, 5)).is_ok());
}

#[test]
fn decompress_takes_all_the_members() {
    let mut stream = compress(b"abc", options(1 << 12, 5)).unwrap();
    stream.extend_from_slice(&compress(b"def", options(1 << 20, 36)).unwrap());
    stream.extend_from_slice(&compress(b"", options(1 << 20, 36)).unwrap());
    assert_eq!(decompress(&stream), Ok(b"abcdef".to_vec()));
}

#[test]
fn decompress_reports_what_is_wrong() {
    let good = compress(&text(300), options(1 << 12, 20)).unwrap();
    assert_eq!(decompress(&[]), Err(Errno::UnexpectedEof));
    assert_eq!(decompress(&good[..3]), Err(Errno::UnexpectedEof));
    assert_eq!(decompress(b"LZIQ"), Err(Errno::HeaderError));
    assert_eq!(decompress(&good[..good.len() - 1]), Err(Errno::UnexpectedEof));
    assert_eq!(decompress(&good[..40]), Err(Errno::UnexpectedEof));
    let mut bad = good.clone();
    bad[4] = 2;
    assert_eq!(decompress(&bad), Err(Errno::HeaderError));
    let mut bad = good.clone();
    bad[5] = 0;
    assert_eq!(decompress(&bad), Err(Errno::HeaderError));
    let mut bad = good.clone();
    bad[6] = 1;
    assert_eq!(decompress(&bad), Err(Errno::HeaderError));
    let mut bad = good.clone();
    bad.extend_from_slice(b"junk");
    assert_eq!(decompress(&bad), Err(Errno::HeaderError));
    let mut bad = good.clone();
    bad.extend_from_slice(b"LZ");
    assert_eq!(decompress(&bad), Err(Errno::UnexpectedEof));
}

#[test]
fn every_byte_of_the_trailer_is_checked() {
    let good = compress(&text(1000), options(1 << 12, 20)).unwrap();
    let n = good.len();
    for i in n - 20..n {
        for bit in 0..8 {
            let mut bad = good.clone();
            bad[i] ^= 1 << bit;
            assert_eq!(decompress(&bad), Err(Errno::DataError), "byte {} bit {}", i, bit);
        }
    }
}

#[test]
fn a_changed_payload_never_decodes_to_other_data() {
    // The last bytes of a payload are what the range encoder flushed; a
    // change in them may leave every decoded bit as it was.
    let data = text(400);
    let good = compress(&data, options(1 << 12, 20)).unwrap();
    let n = good.len();
    let mut errors = 0;
    for i in 7..n - 20 {
        for bit in 0..8 {
            let mut bad = good.clone();
            bad[i] ^= 1 << bit;
            match decompress(&bad) {
                Ok(out) => {
                    assert_eq!(out, data, "byte {} bit {}", i, bit);
                    assert!(i >= n - 24, "byte {} bit {}", i, bit);
                },
                Err(e) => {
                    assert!(e == Errno::DataError || e == Errno::UnexpectedEof);
                    errors += 1;
                },
            }
        }
    }
    assert!(errors >= (n - 31) * 8);
}

#[test]
fn zeroing_the_last_trailer_byte() {
    // The last byte is the top byte of the member size, which is 0 in any
    // member under 2^56 bytes; the last byte that is not 0 is the lowest.
    let data = b"Hello, World!";
    let good = compress(data, options(1 << 20, 36)).unwrap();
    let n = good.len();
    assert_eq!(good[n - 1], 0);
    assert_eq!(good[n - 8] as usize, n);
    let mut bad = good.clone();
    bad[n - 8] = 0;
    assert_eq!(decompress(&bad), Err(Errno::DataError));
    let mut d = Decompress::new(false);
    let mut out = [0u8; 64];
    // The error is met after the data was decoded: the call fails, and the
    // data is in the output all the same.
    assert_eq!(d.decompress(&bad, &mut out), Err(Error::Data));
    assert_eq!(&out[..13], data);
    assert_eq!(d.total_out(), 13);
    assert_eq!(d.decompress(&[], &mut out), Err(Error::Data));
    assert_eq!(d.decompress(&bad, &mut []), Err(Error::Data));
    assert_eq!(d.total_out(), 13);
}

#[test]
fn a_latched_error_fails_every_call() {
    let mut stream = compress(b"some data", options(1 << 12, 30)).unwrap();
    stream[3] = b'Q';
    let mut d = Decompress::new(false);
    let mut out = [0u8; 8];
    assert_eq!(d.decompress(&stream, &mut out), Err(Error::DataMagic));
    let before = (d.total_in(), d.total_out());
    assert_eq!(d.decompress(&stream, &mut []), Err(Error::DataMagic));
    assert_eq!(d.decompress(&[], &mut out), Err(Error::DataMagic));
    assert_eq!(d.advance(&stream, &mut out), (Err(Error::DataMagic), 0, 0));
    let mut v: Vec<u8> = Vec::new();
    assert_eq!(d.decompress_vec(&stream, &mut v), Err(Error::DataMagic));
    assert_eq!(d.decompress_into(&stream, &mut v, 0), Err(Error::DataMagic));
    assert!(v.is_empty());
    assert_eq!((d.total_in(), d.total_out()), before);
    let mut r = lzip::bufread::LzDecoder::new(());
    assert_eq!(r.read_step(&stream, &mut out).next, Next::Invalid(Error::DataMagic));
    assert_eq!(r.read_step(&stream, &mut []).next, Next::Invalid(Error::DataMagic));
    assert_eq!(r.read_step(&[], &mut out).next, Next::Invalid(Error::DataMagic));
}

#[test]
fn a_wrong_magic_is_a_header_error_however_short_the_source() {
    for source in [&b"LZIQ"[..], &b"X"[..], &b"LZIP\x02"[..], &b"LZIP\x01\x00"[..], &b"LZIP\x01\x0C\x01"[..]] {
        let mut src = Source { data: source.to_vec(), pos: 0, chunk: 64 };
        let mut d = lzip::bufread::LzDecoder::new(());
        assert_eq!(read_all(&mut d, &mut src, 10), Err("lzip: lz header missing".to_string()));
        let mut d = Decompress::new(false);
        assert_eq!(d.decompress(source, &mut [0u8; 4]), Err(Error::DataMagic));
    }
    // The start of a header that is right so far is waited on.
    for source in [&b"L"[..], &b"LZIP"[..], &b"LZIP\x01\x0C\x00"[..]] {
        let mut src = Source { data: source.to_vec(), pos: 0, chunk: 64 };
        let mut d = lzip::bufread::LzDecoder::new(());
        assert_eq!(read_all(&mut d, &mut src, 10), Err("eof".to_string()));
    }
}

#[test]
fn a_changed_last_trailer_byte_fails_the_reader() {
    let data = text(5000);
    let good = compress(&data, options(1 << 12, 30)).unwrap();
    let n = good.len();
    for (at, value) in [(n - 1, 1u8), (n - 8, 0), (n - 20, good[n - 20] ^ 0x80), (n - 12, 1)] {
        let mut bad = good.clone();
        bad[at] = value;
        for chunk in [1usize, 17, 100000] {
            let mut src = Source { data: bad.clone(), pos: 0, chunk };
            let mut d = lzip::bufread::LzDecoder::new(());
            assert_eq!(read_all(&mut d, &mut src, 700), Err("lzip: invalid data".to_string()));
            let mut src = Source { data: bad.clone(), pos: 0, chunk };
            let mut d = lzip::bufread::MultiLzDecoder::new(());
            assert_eq!(read_all_multi(&mut d, &mut src, 700), Err("lzip: invalid data".to_string()));
        }
    }
}

#[test]
fn one_step_decodes_a_whole_member() {
    let data = text(3000);
    let stream = compress(&data, options(1 << 12, 30)).unwrap();
    let mut d = Decompress::new(false);
    let mut out = vec![0xAAu8; 4000];
    assert_eq!(d.decompress(&stream, &mut out), Ok(Status::StreamEnd));
    assert_eq!(&out[..3000], &data[..]);
    assert!(out[3000..].iter().all(|&b| b == 0xAA));
    assert_eq!(d.total_in(), stream.len() as u64);
    assert_eq!(d.total_out(), 3000);
    assert_eq!(d.decompress(&stream, &mut out), Ok(Status::StreamEnd));
    assert_eq!(d.total_in(), stream.len() as u64);
    assert_eq!(d.total_out(), 3000);
}

#[test]
fn steps_count_what_they_consume_and_produce() {
    let data = text(20000);
    let stream = compress(&data, options(1 << 12, 30)).unwrap();
    let mut d = Decompress::new(true);
    let mut out = Vec::new();
    let mut buf = [0u8; 700];
    let mut pos = 0usize;
    let mut turns = 0;
    loop {
        turns += 1;
        assert!(turns < 100000);
        let end = (pos + 50).min(stream.len());
        let (i0, o0) = (d.total_in(), d.total_out());
        let (r, consumed, produced) = d.advance(&stream[pos..end], &mut buf);
        assert_eq!(d.total_in() - i0, consumed as u64);
        assert_eq!(d.total_out() - o0, produced as u64);
        pos += consumed;
        out.extend_from_slice(&buf[..produced]);
        match r {
            Ok(Status::StreamEnd) => break,
            Ok(Status::MemNeeded) => panic!("no progress at {}", pos),
            Ok(Status::RunOk) => {},
            Err(e) => panic!("{}", e.description()),
        }
    }
    assert_eq!(out, data);
    assert_eq!(pos, stream.len());
}

#[test]
fn a_step_without_input_or_room_needs_memory() {
    let stream = compress(b"some data", options(1 << 12, 30)).unwrap();
    let mut d = Decompress::new(false);
    let mut none = [0u8; 0];
    let mut out = [0u8; 32];
    assert_eq!(d.decompress(&[], &mut out), Ok(Status::MemNeeded));
    assert_eq!(d.decompress(&stream, &mut none), Ok(Status::MemNeeded));
    assert_eq!(d.total_in(), 0);
    assert_eq!(d.advance(&stream, &mut out), (Ok(Status::StreamEnd), stream.len(), 9));
    assert_eq!(&out[..9], b"some data");
}

#[test]
fn errors_of_a_step() {
    let mut out = [0u8; 32];
    let mut d = Decompress::new(false);
    assert_eq!(d.decompress(b"not a member, surely", &mut out), Err(Error::DataMagic));
    let mut stream = compress(b"some data", options(1 << 12, 30)).unwrap();
    stream[10] ^= 0x40;
    let mut d = Decompress::new(false);
    assert_eq!(d.decompress(&stream, &mut out), Err(Error::Data));
    assert_eq!(d.decompress(&[], &mut out), Err(Error::Data));
    assert_eq!(Error::Data.description(), "lzip: invalid data");
    assert_eq!(Error::DataMagic.description(), "lzip: lz header missing");
    assert_eq!(Error::Sequence.description(), "lzip: sequence of operations invalid");
    assert_eq!(Error::Param.description(), "lzip: invalid parameters");
    assert_eq!(Error::from_errno(Errno::NoError), None);
    assert_eq!(Error::from_errno(Errno::BadArgument), Some(Error::Param));
    assert_eq!(Error::from_errno(Errno::SequenceError), Some(Error::Sequence));
    assert_eq!(Error::of(Errno::UnexpectedEof), Error::Data);
}

#[test]
fn a_vector_is_filled_up_to_its_capacity() {
    let data = text(500);
    let stream = compress(&data, options(1 << 12, 30)).unwrap();
    let mut d = Decompress::new(false);
    let mut out: Vec<u8> = Vec::with_capacity(200);
    out.extend_from_slice(b"head");
    let cap = out.capacity();
    let r = d.decompress_vec(&stream, &mut out);
    assert_eq!(r, Ok(Status::RunOk));
    assert_eq!(out.capacity(), cap);
    assert_eq!(out.len(), cap);
    assert_eq!(&out[..4], b"head");
    assert_eq!(&out[4..], &data[..cap - 4]);
    assert_eq!(d.total_out(), (cap - 4) as u64);
    let mut more: Vec<u8> = Vec::new();
    assert_eq!(d.decompress_into(&stream[d.total_in() as usize..], &mut more, 1000), Ok(Status::StreamEnd));
    assert_eq!(&more[..], &data[cap - 4..]);
    assert_eq!(d.total_in(), stream.len() as u64);
}

#[test]
fn trailing_bytes_stay_in_the_source() {
    let data = counting(1024);
    let member = compress(&data, options(1 << 16, 36)).unwrap();
    let mut stream = member.clone();
    stream.extend_from_slice(&trailing());
    for (chunk, room) in [(stream.len(), 4096usize), (stream.len(), 100), (7, 33), (1, 1), (8192, 1024)] {
        let mut src = Source { data: stream.clone(), pos: 0, chunk };
        let mut d = lzip::bufread::LzDecoder::new(());
        let out = read_all(&mut d, &mut src, room).unwrap();
        assert_eq!(out.len(), 1024);
        assert_eq!(out, data);
        assert_eq!(src.pos, member.len());
        assert_eq!(src.rest(), &trailing()[..]);
        assert_eq!(d.total_in(), member.len() as u64);
        assert_eq!(d.total_out(), 1024);
        let mut buf = [0u8; 16];
        assert_eq!(d.read_step(src.fill_buf(), &mut buf).next, Next::Return(0));
        assert_eq!(src.rest(), &trailing()[..]);
    }
}

#[test]
fn a_single_decoder_stops_where_the_next_member_starts() {
    let a = compress(b"abc", options(1 << 12, 5)).unwrap();
    let b = compress(b"def", options(1 << 12, 5)).unwrap();
    let mut stream = a.clone();
    stream.extend_from_slice(&b);
    let mut src = Source { data: stream.clone(), pos: 0, chunk: 1000 };
    let mut d = lzip::bufread::LzDecoder::new(());
    assert_eq!(read_all(&mut d, &mut src, 100), Ok(b"abc".to_vec()));
    assert_eq!(src.rest(), &b[..]);
    let mut src = Source { data: stream, pos: 0, chunk: 5 };
    let mut d = lzip::bufread::MultiLzDecoder::new(());
    assert_eq!(read_all_multi(&mut d, &mut src, 100), Ok(b"abcdef".to_vec()));
    assert_eq!(src.rest(), b"");
}

#[test]
fn a_source_that_ends_early_is_an_unexpected_end() {
    let stream = compress(&text(2000), options(1 << 12, 30)).unwrap();
    let mut src = Source { data: stream[..stream.len() - 5].to_vec(), pos: 0, chunk: 64 };
    let mut d = lzip::bufread::LzDecoder::new(());
    assert_eq!(read_all(&mut d, &mut src, 100000), Err("eof".to_string()));
    let mut src = Source { data: Vec::new(), pos: 0, chunk: 64 };
    let mut d = lzip::bufread::LzDecoder::new(());
    assert_eq!(read_all(&mut d, &mut src, 10), Err("eof".to_string()));
    let mut src = Source { data: b"LZIP\x01\x00 and so on".to_vec(), pos: 0, chunk: 64 };
    let mut d = lzip::bufread::MultiLzDecoder::new(());
    assert_eq!(read_all_multi(&mut d, &mut src, 10), Err("lzip: lz header missing".to_string()));
}

#[test]
fn the_source_can_be_had_back() {
    let mut d = lzip::bufread::LzDecoder::new(vec![1u8, 2, 3]);
    assert_eq!(d.get_ref(), &vec![1u8, 2, 3]);
    d.get_mut().push(4);
    assert_eq!(d.into_inner(), vec![1u8, 2, 3, 4]);
    let mut d = lzip::bufread::MultiLzDecoder::new(7u32);
    *d.get_mut() += 1;
    assert_eq!(*d.get_ref(), 8);
    assert_eq!(d.into_inner(), 8);
}

#[test]
fn versions_and_bounds() {
    assert_eq!(lzip::version::api_version(), 1013);
    assert_eq!(lzip::version::API_VERSION, 1013);
    assert_eq!(lzip::version::version(), "1.13");
    assert_eq!(lzip::version::min_dictionary_bits(), 12);
    assert_eq!(lzip::version::min_dictionary_size(), 4096);
    assert_eq!(lzip::version::max_dictionary_bits(), 29);
    assert_eq!(lzip::version::max_dictionary_size(), 512 << 20);
    assert_eq!(lzip::version::min_match_len_limit(), 5);
    assert_eq!(lzip::version::max_match_len_limit(), 273);
}
