use lzip::bt_matchfinder::{BtMatchfinder, Pair};
use lzip::buffer::{compress, decompress};
use lzip::encoder::LZ_Encoder;
use lzip::matchfinder::MatchfinderBase;
use lzip::lz_encoder::LzmaOptions;

fn options(dictionary_size: u32, match_len_limit: u32) -> LzmaOptions {
    LzmaOptions { dictionary_size, match_len_limit }
}

fn next(x: &mut u32) -> u32 {
    *x = x.wrapping_mul(1664525).wrapping_add(1013904223);
    *x >> 8
}

/// Words in an order that repeats itself now and then.
fn prose(len: usize, seed: u32) -> Vec<u8> {
    let words: [&[u8]; 12] = [
        b"the ", b"window ", b"slides ", b"over ", b"data ", b"and ", b"finds ", b"matches ",
        b"that ", b"repeat ", b"earlier ", b"bytes. ",
    ];
    let mut x = seed;
    let mut d: Vec<u8> = Vec::with_capacity(len + 16);
    while d.len() < len {
        let r = next(&mut x);
        if r % 11 == 0 && d.len() > 300 {
            let back = 1 + (next(&mut x) as usize) % 300;
            let n = 5 + (next(&mut x) as usize) % 60;
            for _ in 0..n {
                let b = d[d.len() - back];
                d.push(b);
            }
        } else {
            d.extend_from_slice(words[(r % 12) as usize]);
        }
    }
    d.truncate(len);
    d
}

fn noise(len: usize, seed: u32) -> Vec<u8> {
    let mut x = seed;
    (0..len).map(|_| (next(&mut x) >> 7) as u8).collect()
}

/// Encodes through the streaming encoder, writing `write_chunk` bytes at a
/// time and reading `read_chunk` bytes at a time.
fn encode_chunked(data: &[u8], dict: u32, limit: u32, write_chunk: usize, read_chunk: usize) -> Vec<u8> {
    let mut e = LZ_Encoder::open(dict, limit, 1 << 40).unwrap();
    let mut out: Vec<u8> = Vec::new();
    let mut buf = vec![0u8; read_chunk];
    let mut fed = 0usize;
    let mut finished = false;
    let mut idle = 0;
    loop {
        if fed < data.len() {
            let end = (fed + write_chunk).min(data.len());
            fed += e.write(&data[fed..end]).unwrap();
        }
        if fed == data.len() && !finished {
            e.finish();
            finished = true;
        }
        let n = e.read(&mut buf).unwrap();
        out.extend_from_slice(&buf[..n]);
        if e.is_finished() {
            return out;
        }
        idle = if n == 0 { idle + 1 } else { 0 };
        assert!(idle < 100000, "the encoder makes no progress");
    }
}

#[test]
fn the_optimizing_encoder_round_trips() {
    for (len, dict, limit, seed) in [
        (1usize, 1u32 << 12, 5u32, 1u32),
        (2, 1 << 12, 273, 2),
        (300, 1 << 12, 36, 3),
        (5000, 1 << 12, 5, 4),
        (40000, 1 << 12, 36, 5),
        (40000, 1 << 16, 273, 6),
        (150000, 1 << 13, 64, 7),
        (150000, 1 << 20, 16, 8),
    ] {
        let data = prose(len, seed);
        let stream = compress(&data, options(dict, limit)).unwrap();
        assert_eq!(decompress(&stream), Ok(data), "{} {} {}", len, dict, limit);
    }
}

#[test]
fn the_optimizing_encoder_round_trips_noise_and_runs() {
    let mut data = noise(30000, 9);
    data.extend_from_slice(&vec![7u8; 20000]);
    data.extend_from_slice(&noise(100, 10));
    data.extend_from_slice(&vec![0u8; 300]);
    for i in 0..20000usize {
        data.push(b"abcabcabd"[i % 9]);
    }
    for (dict, limit) in [(1u32 << 12, 5u32), (1 << 14, 36), (1 << 16, 273)] {
        let stream = compress(&data, options(dict, limit)).unwrap();
        assert_eq!(decompress(&stream), Ok(data.clone()), "{} {}", dict, limit);
    }
}

#[test]
fn a_long_stretch_of_trials_round_trips() {
    // Short matches everywhere, and none long enough to cut the look-ahead
    // short, so that the ways ahead fill the buffer of trials.
    let mut x = 77u32;
    let mut data: Vec<u8> = Vec::new();
    while data.len() < 60000 {
        let r = next(&mut x);
        if r % 3 == 0 && data.len() > 40 {
            let back = 1 + (next(&mut x) as usize) % 40;
            for _ in 0..3 {
                let b = data[data.len() - back];
                data.push(b);
            }
        } else {
            data.push((r >> 3) as u8 % 8 + b'a');
        }
    }
    let stream = compress(&data, options(1 << 16, 273)).unwrap();
    assert!(stream.len() < data.len() / 2);
    assert_eq!(decompress(&stream), Ok(data));
}

#[test]
fn the_optimizing_encoder_is_the_better_one() {
    let data = prose(120000, 11);
    let fast = compress(&data, options(65535, 16)).unwrap();
    let normal = compress(&data, options(65536, 16)).unwrap();
    let best = compress(&data, options(1 << 20, 273)).unwrap();
    assert_eq!(decompress(&fast), Ok(data.clone()));
    assert_eq!(decompress(&normal), Ok(data.clone()));
    assert_eq!(decompress(&best), Ok(data.clone()));
    assert!(normal.len() < fast.len(), "{} {}", normal.len(), fast.len());
    assert!(best.len() <= normal.len(), "{} {}", best.len(), normal.len());
    assert!(fast.len() < data.len() / 2);
}

#[test]
fn the_fast_encoder_is_chosen_by_its_parameters() {
    let data = prose(30000, 12);
    let fast = compress(&data, options(65535, 16)).unwrap();
    assert_eq!(fast[5], 16);
    assert_eq!(decompress(&fast), Ok(data.clone()));
    assert_eq!(encode_chunked(&data, 65535, 16, 1000, 100), fast);
}

#[test]
fn the_output_does_not_depend_on_how_the_data_is_written() {
    let data = prose(70000, 13);
    for (dict, limit) in [(1u32 << 16, 36u32), (65535, 16), (1 << 12, 273)] {
        let whole = compress(&data, options(dict, limit)).unwrap();
        assert_eq!(encode_chunked(&data, dict, limit, 1, 7), whole);
        assert_eq!(encode_chunked(&data, dict, limit, 999, 100000), whole);
        assert_eq!(encode_chunked(&data, dict, limit, 100000, 1), whole);
    }
}

#[test]
fn encoding_twice_with_the_optimizer_gives_the_same_bytes() {
    let data = prose(50000, 14);
    let a = compress(&data, options(1 << 18, 100)).unwrap();
    let b = compress(&data, options(1 << 18, 100)).unwrap();
    assert_eq!(a, b);
}

#[test]
fn a_large_dictionary_costs_no_more_than_the_data_needs() {
    let data = prose(3000, 15);
    let stream = compress(&data, options(1 << 29, 36)).unwrap();
    assert_eq!(stream[5], 29);
    assert_eq!(decompress(&stream), Ok(data));
}

#[test]
fn the_price_of_a_bit() {
    let pp = lzip::prices::ProbPrices::new();
    // An even chance costs one bit, in sixty-fourths.
    assert_eq!(pp.price0(1024), 64);
    assert_eq!(pp.price1(1024), 64);
    assert_eq!(pp.price_bit(1024, true), 64);
    // A quarter costs two bits, three quarters less than half a bit.
    assert_eq!(pp.price0(512), 128);
    assert_eq!(pp.price1(512), 32);
    assert_eq!(pp.price0(1536), 32);
    // The rarer, the dearer.
    assert!(pp.price0(31) > pp.price0(100));
    assert!(pp.price0(100) > pp.price0(1000));
    assert!(pp.price0(2017) < 8);
    assert_eq!(pp.price1(2017), pp.price0(31));
    assert_eq!(lzip::prices::add_price(u32::MAX, 5), u32::MAX);
    assert_eq!(lzip::prices::add_price(7, 5), 12);
}

#[test]
fn the_price_of_a_symbol_is_the_sum_of_its_bits() {
    let pp = lzip::prices::ProbPrices::new();
    let mut probs = vec![1024u32; 0x300];
    assert_eq!(pp.price_symbol(&probs, 0, 8, 5), 3 * 64);
    assert_eq!(pp.price_symbol(&probs, 0, 256, 0xA7), 8 * 64);
    assert_eq!(pp.price_symbol_reversed(&probs, 0, 16, 9), 4 * 64);
    assert_eq!(pp.price_matched(&probs, 0, 0x41, 0x42), 8 * 64);
    // The symbol 5 of three bits goes by the nodes 1, 3 and 6; 6 is left by 1.
    probs[1] = 512;
    probs[3] = 1536;
    probs[6] = 512;
    assert_eq!(pp.price_symbol(&probs, 0, 8, 5), 32 + 32 + 32);
    assert_eq!(pp.price_symbol(&probs, 0, 8, 2), 128 + 64 + 64);
    // Lowest bit first, 5 goes by the nodes 1, 3 and 6 as well.
    assert_eq!(pp.price_symbol_reversed(&probs, 0, 8, 5), 32 + 32 + 32);
    assert_eq!(pp.price_symbol_reversed(&probs, 0, 8, 4), 128 + 64 + 64);
}

#[test]
fn the_trees_find_the_matches() {
    let mut mb = MatchfinderBase::new(4096);
    let data = b"abcdefgh-abcdXfgh-abcdefgh-tail";
    assert_eq!(mb.write_data(data, 0), data.len());
    let mut bt = BtMatchfinder::new(4096, 36);
    let mut pairs: Vec<Pair> = Vec::new();
    let mut found: Vec<Vec<Pair>> = Vec::new();
    for off in 0..data.len() {
        let limit = (data.len() - off).min(36);
        bt.get_match_pairs(&mb, off, limit, true, &mut pairs);
        for p in &pairs {
            let d = p.dis as usize + 1;
            assert!(d <= off);
            assert!(p.len >= 2);
            assert_eq!(&data[off..off + p.len as usize], &data[off - d..off - d + p.len as usize]);
        }
        for w in pairs.windows(2) {
            assert!(w[0].len < w[1].len);
        }
        found.push(pairs.clone());
    }
    assert!(found[0].is_empty());
    // At the second "abcd", the first is nine bytes back and four bytes long.
    assert_eq!(found[9].last(), Some(&Pair { dis: 8, len: 4 }));
    // At the third, the first is eighteen back and nine long.
    assert_eq!(found[18].last(), Some(&Pair { dis: 17, len: 9 }));
    bt.get_match_pairs(&mb, 0, 0, false, &mut pairs);
    assert!(pairs.is_empty());
}
