use lzip::crc::CrcTable;
use lzip::decoder::LZ_Decoder;
use lzip::encoder::LZ_Encoder;
use lzip::errno::Errno;

/// Encodes `data` to one stream: writes all of it, declares it complete and
/// reads to the end, starting a new member whenever one is complete.
fn encode_all(data: &[u8], dict: u32, len_limit: u32, member_size: u64, chunk: usize) -> Vec<u8> {
    let mut e = LZ_Encoder::open(dict, len_limit, member_size).unwrap();
    let mut out: Vec<u8> = Vec::new();
    let mut buf = vec![0u8; chunk];
    let mut fed = 0usize;
    let mut finished = false;
    let mut idle = 0;
    loop {
        if fed < data.len() {
            fed += e.write(&data[fed..]).unwrap();
        }
        if fed == data.len() && !finished {
            e.finish();
            finished = true;
        }
        let n = e.read(&mut buf).unwrap();
        out.extend_from_slice(&buf[..n]);
        if e.is_finished() {
            return out;
        }
        if e.is_member_finished() {
            e.restart_member(member_size).unwrap();
        }
        idle = if n == 0 { idle + 1 } else { 0 };
        assert!(idle < 1000, "the encoder makes no progress");
    }
}

/// Decodes a whole stream.
fn decode_all(stream: &[u8], chunk: usize) -> Result<Vec<u8>, Errno> {
    let mut d = LZ_Decoder::open();
    let mut out: Vec<u8> = Vec::new();
    let mut buf = vec![0u8; chunk];
    let mut fed = 0usize;
    let mut finished = false;
    let mut idle = 0;
    loop {
        if fed < stream.len() {
            fed += d.write(&stream[fed..])?;
        }
        if fed == stream.len() && !finished {
            d.finish();
            finished = true;
        }
        let n = d.read(&mut buf)?;
        out.extend_from_slice(&buf[..n]);
        if n == 0 && finished && d.finished() {
            return Ok(out);
        }
        idle = if n == 0 { idle + 1 } else { 0 };
        assert!(idle < 1000, "the decoder makes no progress");
    }
}

fn sample(len: usize, seed: u32) -> Vec<u8> {
    let mut x = seed;
    let mut d = Vec::with_capacity(len);
    while d.len() < len {
        x = x.wrapping_mul(1664525).wrapping_add(1013904223);
        let kind = (x >> 24) % 4;
        let run = ((x >> 16) % 40 + 1) as usize;
        for i in 0..run {
            if d.len() == len {
                break;
            }
            let b = match kind {
                0 => (x >> 8) as u8,
                1 => b"lorem ipsum dolor sit amet "[i % 27],
                2 => {
                    if d.len() >= 100 {
                        d[d.len() - 100]
                    } else {
                        i as u8
                    }
                },
                _ => {
                    x = x.wrapping_mul(1664525).wrapping_add(1013904223);
                    (x >> 16) as u8
                },
            };
            d.push(b);
        }
    }
    d
}

#[test]
fn hello_world_round_trip() {
    let data = b"Hello, World!";
    let stream = encode_all(data, 1 << 20, 36, u64::MAX >> 1, 4096);
    assert_eq!(&stream[..6], &[0x4C, 0x5A, 0x49, 0x50, 1, 20]);
    let mut d = LZ_Decoder::open();
    assert_eq!(d.write(&stream), Ok(stream.len()));
    d.finish();
    let mut buf = [0u8; 64];
    assert_eq!(d.read(&mut buf), Ok(13));
    assert_eq!(&buf[..13], data);
    assert_eq!(d.data_crc(), CrcTable::new().checksum(data));
    assert_eq!(d.data_crc(), 0xEC4AC3D0);
    assert_eq!(d.data_position(), 13);
    assert_eq!(d.read(&mut buf), Ok(0));
    assert!(d.finished());
    assert_eq!(d.total_in_size(), stream.len() as u64);
}

#[test]
fn two_members_concatenated_decode_to_both() {
    let mut stream = encode_all(b"abc", 1 << 12, 5, 1 << 20, 100);
    stream.extend_from_slice(&encode_all(b"def", 1 << 16, 273, 1 << 20, 100));
    assert_eq!(decode_all(&stream, 2), Ok(b"abcdef".to_vec()));
}

#[test]
fn finishing_at_once_gives_an_empty_member() {
    let mut e = LZ_Encoder::open(1 << 16, 16, 1 << 30).unwrap();
    e.finish();
    let mut buf = [0u8; 100];
    let n = e.read(&mut buf).unwrap();
    assert_eq!(n, 36);
    assert!(e.is_finished());
    assert_eq!(&buf[n - 20..n], &[0u8, 0, 0, 0, 0, 0, 0, 0, 0, 0, 0, 0, 36, 0, 0, 0, 0, 0, 0, 0]);
    assert_eq!(decode_all(&buf[..n], 10), Ok(Vec::new()));
}

#[test]
fn a_single_zero_byte() {
    let stream = encode_all(&[0u8], 1 << 12, 5, 1 << 30, 100);
    let n = stream.len();
    assert_eq!(&stream[n - 20..n - 16], &[0x8D, 0xEF, 0x02, 0xD2]);
    assert_eq!(&stream[n - 16..n - 8], &[1u8, 0, 0, 0, 0, 0, 0, 0]);
    assert_eq!(decode_all(&stream, 10), Ok(vec![0u8]));
}

#[test]
fn encoding_twice_gives_the_same_bytes() {
    let data = sample(20000, 7);
    let a = encode_all(&data, 1 << 14, 20, 1 << 40, 777);
    let b = encode_all(&data, 1 << 14, 20, 1 << 40, 777);
    assert_eq!(a, b);
}

#[test]
fn round_trips_of_mixed_data() {
    for (len, seed) in [(1usize, 1u32), (2, 2), (300, 3), (5000, 4), (70000, 5), (200000, 6)] {
        let data = sample(len, seed);
        for (dict, limit) in [(1u32 << 12, 5u32), (1 << 16, 36), (1 << 20, 273)] {
            let stream = encode_all(&data, dict, limit, 1 << 40, 5000);
            assert_eq!(decode_all(&stream, 3000), Ok(data.clone()), "{} {} {}", len, dict, limit);
        }
    }
}

#[test]
fn long_runs_and_incompressible_data() {
    let zeros = vec![0u8; 100000];
    let stream = encode_all(&zeros, 1 << 12, 273, 1 << 40, 65536);
    assert!(stream.len() < 200);
    assert_eq!(decode_all(&stream, 65536), Ok(zeros));
    let mut x = 12345u32;
    let noise: Vec<u8> = (0..50000)
        .map(|_| {
            x ^= x << 13;
            x ^= x >> 17;
            x ^= x << 5;
            (x >> 11) as u8
        })
        .collect();
    let stream = encode_all(&noise, 1 << 16, 16, 1 << 40, 1000);
    assert_eq!(decode_all(&stream, 1000), Ok(noise));
}

#[test]
fn a_small_member_size_gives_many_members() {
    let data = sample(3000, 9);
    let stream = encode_all(&data, 1 << 12, 16, 100, 64);
    let members = stream.windows(4).filter(|w| w == b"LZIP").count();
    assert!(members > 10);
    assert_eq!(decode_all(&stream, 64), Ok(data));
}

#[test]
fn sync_flush_ends_the_member_and_writing_goes_on() {
    let mut e = LZ_Encoder::open(1 << 12, 16, 1 << 30).unwrap();
    let mut out: Vec<u8> = Vec::new();
    let mut buf = [0u8; 256];
    assert_eq!(e.write(b"first part, "), Ok(12));
    assert_eq!(e.sync_flush(), Ok(()));
    assert_eq!(e.write(b"ignored"), Ok(0));
    loop {
        let n = e.read(&mut buf).unwrap();
        if n == 0 {
            break;
        }
        out.extend_from_slice(&buf[..n]);
    }
    assert_eq!(decode_all(&out[..out.len() - 6], 16), Ok(b"first part, ".to_vec()));
    assert_eq!(e.write(b"second part"), Ok(11));
    e.finish();
    loop {
        let n = e.read(&mut buf).unwrap();
        if n == 0 {
            break;
        }
        out.extend_from_slice(&buf[..n]);
    }
    assert!(e.is_finished());
    assert_eq!(decode_all(&out, 16), Ok(b"first part, second part".to_vec()));
}

#[test]
fn parameters_out_of_bounds_are_bad_arguments() {
    assert_eq!(LZ_Encoder::open(4095, 36, 1 << 20).err(), Some(Errno::BadArgument));
    assert_eq!(LZ_Encoder::open((1 << 29) + 1, 36, 1 << 20).err(), Some(Errno::BadArgument));
    assert_eq!(LZ_Encoder::open(1 << 20, 4, 1 << 20).err(), Some(Errno::BadArgument));
    assert_eq!(LZ_Encoder::open(1 << 20, 274, 1 << 20).err(), Some(Errno::BadArgument));
    assert_eq!(LZ_Encoder::open(1 << 20, 36, 99).err(), Some(Errno::BadArgument));
    assert_eq!(LZ_Encoder::open(1 << 20, 36, 1 << 63).err(), Some(Errno::BadArgument));
    assert!(LZ_Encoder::open(1 << 12, 5, 100).is_ok());
    assert!(LZ_Encoder::open(1 << 29, 273, (1 << 63) - 1).is_ok());
}

#[test]
fn restarting_an_unfinished_member_is_a_sequence_error() {
    let mut e = LZ_Encoder::open(1 << 12, 16, 1 << 30).unwrap();
    assert_eq!(e.restart_member(1 << 30), Err(Errno::SequenceError));
    assert_eq!(e.get_errno(), Errno::SequenceError);
    e.finish();
    assert_eq!(e.write(b"late"), Err(Errno::SequenceError));
}

#[test]
fn the_trailer_holds_the_crc_and_the_member_size() {
    let stream = encode_all(b"Hello, World!", 1 << 20, 36, 1 << 40, 4096);
    assert_eq!(decode_all(&stream, 64), Ok(b"Hello, World!".to_vec()));
    let n = stream.len();
    assert_eq!(&stream[n - 20..n - 16], &[0xD0, 0xC3, 0x4A, 0xEC]);
    assert_eq!(stream[n - 8] as usize, n);
}
