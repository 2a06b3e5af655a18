use lzip::crc::CrcTable;
use lzip::decoder::LZ_Decoder;
use lzip::errno::Errno;

const HELLO: [u8; 50] = [
    76, 90, 73, 80, 1, 20, 0, 36, 25, 73, 152, 111, 22, 2, 137, 10, 152, 231, 63, 168, 195, 149, 72,
    77, 255, 255, 117, 240, 0, 0, 208, 195, 74, 236, 13, 0, 0, 0, 0, 0, 0, 0, 50, 0, 0, 0, 0, 0, 0,
    0,
];

const EMPTY: [u8; 36] = [
    76, 90, 73, 80, 1, 20, 0, 131, 255, 251, 255, 255, 192, 0, 0, 0, 0, 0, 0, 0, 0, 0, 0, 0, 0, 0,
    0, 0, 36, 0, 0, 0, 0, 0, 0, 0,
];

const ZERO: [u8; 37] = [
    76, 90, 73, 80, 1, 20, 0, 0, 65, 254, 247, 255, 255, 224, 0, 128, 0, 141, 239, 2, 210, 1, 0, 0,
    0, 0, 0, 0, 0, 37, 0, 0, 0, 0, 0, 0, 0,
];

const MIXED: [u8; 521] = [
    76, 90, 73, 80, 1, 12, 0, 1, 130, 224, 86, 137, 194, 241, 240, 229, 223, 245, 225, 208, 49,
    174, 17, 0, 90, 8, 138, 14, 37, 27, 241, 94, 14, 153, 86, 115, 146, 22, 229, 93, 197, 2, 86,
    161, 160, 1, 74, 130, 90, 128, 47, 217, 11, 113, 140, 93, 127, 88, 149, 132, 183, 29, 254, 155,
    224, 12, 153, 239, 4, 132, 9, 207, 148, 96, 23, 249, 192, 60, 181, 119, 29, 108, 208, 115, 177,
    212, 209, 8, 212, 161, 227, 22, 218, 38, 198, 153, 195, 47, 74, 42, 70, 144, 102, 30, 52, 50,
    69, 253, 155, 83, 149, 100, 191, 204, 13, 74, 136, 227, 108, 46, 103, 237, 192, 24, 245, 239,
    113, 7, 78, 191, 100, 89, 33, 42, 49, 188, 174, 18, 133, 236, 105, 72, 220, 224, 251, 250, 98,
    133, 24, 39, 192, 31, 48, 137, 207, 145, 24, 127, 25, 247, 7, 179, 33, 47, 179, 20, 158, 163, 4,
    198, 154, 191, 49, 245, 226, 52, 216, 183, 237, 173, 43, 65, 80, 121, 50, 134, 249, 139, 35,
    137, 228, 132, 136, 6, 7, 209, 180, 189, 166, 176, 143, 235, 88, 33, 239, 24, 68, 169, 199, 72,
    141, 136, 219, 159, 156, 187, 139, 1, 162, 164, 245, 158, 63, 36, 23, 164, 238, 207, 126, 227,
    109, 255, 77, 112, 27, 7, 14, 243, 242, 4, 83, 139, 230, 192, 16, 178, 224, 65, 236, 188, 106,
    182, 249, 15, 80, 81, 95, 193, 118, 26, 154, 66, 237, 77, 59, 102, 120, 37, 126, 32, 92, 238,
    167, 120, 130, 198, 114, 111, 194, 242, 251, 60, 246, 60, 31, 166, 22, 252, 250, 110, 249, 208,
    240, 229, 235, 36, 76, 44, 158, 78, 232, 252, 252, 142, 222, 117, 219, 16, 172, 40, 160, 67,
    106, 69, 121, 120, 202, 8, 42, 54, 41, 198, 197, 250, 156, 104, 183, 164, 120, 232, 87, 211,
    148, 96, 99, 132, 218, 183, 59, 48, 160, 1, 162, 217, 230, 35, 223, 207, 20, 191, 142, 77, 83,
    237, 134, 126, 54, 118, 47, 177, 26, 48, 32, 13, 100, 203, 58, 187, 20, 160, 117, 106, 71, 237,
    54, 221, 88, 41, 178, 104, 160, 195, 236, 227, 137, 123, 20, 35, 175, 229, 15, 234, 202, 69, 25,
    115, 229, 78, 56, 191, 31, 127, 108, 172, 23, 187, 150, 176, 111, 244, 160, 195, 112, 93, 185,
    76, 222, 100, 147, 82, 158, 21, 183, 189, 23, 133, 1, 114, 198, 94, 210, 254, 94, 136, 166,
    205, 21, 56, 80, 244, 61, 167, 48, 209, 116, 24, 80, 118, 118, 9, 130, 111, 28, 204, 175, 88,
    250, 186, 155, 248, 81, 181, 147, 17, 236, 158, 97, 79, 23, 158, 140, 138, 78, 30, 50, 186, 197,
    28, 16, 230, 219, 229, 127, 179, 158, 64, 126, 41, 9, 0, 59, 183, 118, 242, 208, 255, 255, 177,
    236, 192, 0, 163, 77, 55, 106, 22, 9, 0, 0, 0, 0, 0, 0, 9, 2, 0, 0, 0, 0, 0, 0,
];

fn mixed_data() -> Vec<u8> {
    let mut d: Vec<u8> = Vec::new();
    for i in 0..300u32 {
        d.push(((i * 7 + 3) % 251) as u8);
    }
    for _ in 0..20 {
        d.extend_from_slice(b"abcabcabcabcabcabcabc");
    }
    for i in 0..256u32 {
        d.push(i as u8);
    }
    for _ in 0..30 {
        d.extend_from_slice(b"the quick brown fox jumps over the lazy dog. ");
    }
    d
}

/// Writes all of `stream`, declares the input complete and reads to the end.
fn decode_all(stream: &[u8], chunk: usize) -> (Vec<u8>, Result<(), Errno>, LZ_Decoder) {
    let mut d = LZ_Decoder::open();
    let mut out: Vec<u8> = Vec::new();
    let mut buf = vec![0u8; chunk];
    let mut fed = 0usize;
    let mut finished = false;
    let mut idle = 0;
    loop {
        if fed < stream.len() {
            match d.write(&stream[fed..]) {
                Ok(n) => fed += n,
                Err(e) => return (out, Err(e), d),
            }
        }
        if fed == stream.len() && !finished {
            d.finish();
            finished = true;
        }
        match d.read(&mut buf) {
            Ok(0) => {
                if finished && d.finished() {
                    return (out, Ok(()), d);
                }
                idle += 1;
                assert!(idle < 1000, "the decoder makes no progress");
            },
            Ok(n) => {
                idle = 0;
                out.extend_from_slice(&buf[..n]);
            },
            Err(e) => return (out, Err(e), d),
        }
    }
}

#[test]
fn decodes_a_member_made_by_another_encoder() {
    let (out, r, d) = decode_all(&HELLO, 4096);
    assert_eq!(r, Ok(()));
    assert_eq!(out, b"Hello, World!".to_vec());
    assert!(d.finished());
    assert_eq!(d.total_in_size(), 50);
    assert_eq!(d.total_out_size(), 13);
    assert_eq!(d.dictionary_size(), 1 << 20);
    assert_eq!(d.member_version(), 1);
}

#[test]
fn decodes_an_empty_member() {
    let (out, r, d) = decode_all(&EMPTY, 16);
    assert_eq!(r, Ok(()));
    assert_eq!(out, Vec::<u8>::new());
    assert_eq!(d.total_in_size(), 36);
}

#[test]
fn decodes_a_single_zero_byte() {
    let (out, r, _) = decode_all(&ZERO, 16);
    assert_eq!(r, Ok(()));
    assert_eq!(out, vec![0u8]);
    assert_eq!(CrcTable::new().checksum(&out), 0xD202EF8D);
}

#[test]
fn decodes_literals_matches_and_repeats() {
    let (out, r, d) = decode_all(&MIXED, 100);
    assert_eq!(r, Ok(()));
    assert_eq!(out, mixed_data());
    assert_eq!(d.total_in_size(), 521);
    assert_eq!(CrcTable::new().checksum(&out), 1782009251);
}

#[test]
fn decodes_byte_by_byte() {
    let mut d = LZ_Decoder::open();
    let mut out: Vec<u8> = Vec::new();
    let mut buf = [0u8; 7];
    for i in 0..MIXED.len() {
        assert_eq!(d.write(&MIXED[i..i + 1]), Ok(1));
        loop {
            let n = d.read(&mut buf).unwrap();
            if n == 0 {
                break;
            }
            out.extend_from_slice(&buf[..n]);
        }
    }
    d.finish();
    loop {
        let n = d.read(&mut buf).unwrap();
        if n == 0 {
            break;
        }
        out.extend_from_slice(&buf[..n]);
    }
    assert!(d.finished());
    assert_eq!(out, mixed_data());
}

#[test]
fn decodes_concatenated_members() {
    let mut stream = HELLO.to_vec();
    stream.extend_from_slice(&ZERO);
    stream.extend_from_slice(&EMPTY);
    stream.extend_from_slice(&HELLO);
    let (out, r, d) = decode_all(&stream, 5);
    assert_eq!(r, Ok(()));
    assert_eq!(out, b"Hello, World!\0Hello, World!".to_vec());
    assert_eq!(d.total_in_size(), 173);
    assert_eq!(d.total_out_size(), 27);
}

#[test]
fn a_changed_last_trailer_byte_is_a_data_error() {
    let mut stream = HELLO.to_vec();
    stream[49] = 1;
    let (out, r, d) = decode_all(&stream, 4096);
    assert_eq!(r, Err(Errno::DataError));
    assert_eq!(out, b"Hello, World!".to_vec());
    assert_eq!(d.errno(), Errno::DataError);
}

#[test]
fn a_wrong_crc_is_a_data_error() {
    let mut stream = HELLO.to_vec();
    stream[30] ^= 0x10;
    let (_, r, _) = decode_all(&stream, 4096);
    assert_eq!(r, Err(Errno::DataError));
}

#[test]
fn a_dictionary_byte_of_zero_is_a_header_error() {
    let mut stream = HELLO.to_vec();
    stream[5] = 0;
    let (out, r, _) = decode_all(&stream, 4096);
    assert_eq!(r, Err(Errno::HeaderError));
    assert!(out.is_empty());
}

#[test]
fn a_wrong_magic_or_version_is_a_header_error() {
    let mut stream = HELLO.to_vec();
    stream[0] = b'X';
    assert_eq!(decode_all(&stream, 64).1, Err(Errno::HeaderError));
    let mut stream = HELLO.to_vec();
    stream[4] = 2;
    assert_eq!(decode_all(&stream, 64).1, Err(Errno::HeaderError));
}

#[test]
fn truncated_input_is_an_unexpected_end() {
    for cut in [3usize, 8, 20, 35, 49] {
        let (_, r, _) = decode_all(&HELLO[..cut], 64);
        assert_eq!(r, Err(Errno::UnexpectedEof), "cut at {}", cut);
    }
}

#[test]
fn writing_after_finish_is_a_sequence_error() {
    let mut d = LZ_Decoder::open();
    d.finish();
    assert_eq!(d.write(&HELLO), Err(Errno::SequenceError));
    assert_eq!(d.errno(), Errno::SequenceError);
}

#[test]
fn sync_to_member_skips_to_the_next_header() {
    let mut stream = HELLO.to_vec();
    stream[10] ^= 0xFF;
    stream[20] ^= 0xFF;
    stream.extend_from_slice(&ZERO);
    let mut d = LZ_Decoder::open();
    assert_eq!(d.write(&stream), Ok(stream.len()));
    d.finish();
    let mut buf = [0u8; 64];
    let mut failed = false;
    for _ in 0..4 {
        match d.read(&mut buf) {
            Ok(_) => {},
            Err(_) => {
                failed = true;
                break;
            },
        }
    }
    assert!(failed);
    d.sync_to_member();
    assert_eq!(d.errno(), Errno::NoError);
    assert_eq!(d.read(&mut buf), Ok(1));
    assert_eq!(buf[0], 0);
    assert_eq!(d.read(&mut buf), Ok(0));
    assert!(d.finished());
}
