use banzai::bwt::induced_order;
use banzai::crc32::checksum;
use banzai::encode;
use std::io::Read;
use xxhash_rust::xxh3::xxh3_64;

fn decode(stream: &[u8]) -> Vec<u8> {
    let mut decoder = bzip2::read::BzDecoder::new(stream);
    let mut out = Vec::new();
    decoder.read_to_end(&mut out).unwrap();
    out
}

fn noise(len: usize, seed: u64, spread: u64) -> Vec<u8> {
    let mut state = seed;
    let mut out = Vec::with_capacity(len);
    for _ in 0..len {
        state = state.wrapping_mul(6364136223846793005).wrapping_add(1442695040888963407);
        out.push(((state >> 33) % spread) as u8);
    }
    out
}

fn round_trip(data: Vec<u8>, level: usize) {
    let in_hash = xxh3_64(&data);
    let len = data.len();
    let (stream, consumed) = encode(data, level);
    assert_eq!(consumed, len);
    let out = decode(&stream);
    assert_eq!(out.len(), len);
    assert_eq!(xxh3_64(&out), in_hash);
}

#[test]
fn empty_input_gives_the_least_stream() {
    let (stream, consumed) = encode(Vec::new(), 9);
    assert_eq!(consumed, 0);
    assert_eq!(
        stream,
        vec![0x42, 0x5A, 0x68, 0x39, 0x17, 0x72, 0x45, 0x38, 0x50, 0x90, 0, 0, 0, 0]
    );
    assert_eq!(decode(&stream), Vec::<u8>::new());
}

#[test]
fn single_byte_round_trip() {
    round_trip(vec![b'x'], 1);
    let (stream, _) = encode(vec![b'x'], 1);
    assert_eq!(&stream[..4], b"BZh1");
    assert_eq!(&stream[4..10], &[0x31, 0x41, 0x59, 0x26, 0x53, 0x59]);
}

#[test]
fn text_round_trip_at_every_level() {
    let text = b"SIX.MIXED.PIXIES.SIFT.SIXTY.PIXIE.DUST.BOXES".to_vec();
    for level in 1..=9 {
        round_trip(text.clone(), level);
    }
}

#[test]
fn one_byte_repeated_round_trip() {
    round_trip(vec![b'j'; 500], 1);
    round_trip(vec![0u8; 70_000], 1);
    round_trip(vec![255u8; 3], 2);
}

#[test]
fn noise_round_trip() {
    round_trip(noise(10_000, 1, 256), 1);
    round_trip(noise(10_000, 2, 4), 1);
    round_trip(noise(30_000, 3, 2), 5);
    round_trip(noise(777, 4, 200), 9);
}

#[test]
fn several_blocks_round_trip() {
    round_trip(noise(250_000, 5, 256), 1);
}

#[test]
fn periodic_round_trip() {
    let mut data = Vec::new();
    for _ in 0..2000 {
        data.extend_from_slice(b"abcabd");
    }
    round_trip(data, 1);
    round_trip(b"abababababab".to_vec(), 1);
}

#[test]
fn input_at_the_block_boundary() {
    let data = noise(99_999, 6, 256);
    let rle = banzai::rle::rle_one(data.clone(), 1);
    assert_eq!(rle.consumed, 99_999);
    assert!(rle.raw.is_none());
    round_trip(data, 1);
    let data = noise(100_000, 7, 256);
    let rle = banzai::rle::rle_one(data.clone(), 1);
    assert!(rle.consumed < 100_000);
    assert_eq!(rle.raw.map(|r| r.len()), Some(100_000 - rle.consumed));
    round_trip(data, 1);
}

#[test]
fn checksum_of_known_strings() {
    assert_eq!(checksum(&Vec::new()), 0);
    assert_eq!(checksum(&b"123456789".to_vec()), 0xFC89_1918);
}

#[test]
fn induced_sorting_passes_its_check() {
    for (len, seed, spread) in [(2usize, 1u64, 2u64), (50, 2, 2), (500, 3, 3), (5000, 4, 256), (20_000, 5, 7)] {
        let data = noise(len, seed, spread);
        let mut doubled = data.clone();
        doubled.extend_from_slice(&data);
        let order = induced_order(&doubled, len);
        assert!(order.is_some());
        assert_eq!(order.unwrap().len(), len);
    }
    let same = vec![7u8; 1000];
    assert!(induced_order(&same, 500).is_some());
    let text = b"SIX.MIXED.PIXIES.SIFT.SIXTY.PIXIE.DUST.BOXESSIX.MIXED.PIXIES.SIFT.SIXTY.PIXIE.DUST.BOXES".to_vec();
    assert!(induced_order(&text, 44).is_some());
}

#[test]
fn a_megabyte_round_trip() {
    let mut data = Vec::with_capacity(1_000_000);
    let words: [&[u8]; 6] = [b"the ", b"quick ", b"brown ", b"fox ", b"jumps ", b"\n"];
    let picks = noise(400_000, 8, 6);
    for p in picks {
        data.extend_from_slice(words[p as usize]);
        if data.len() >= 1_000_000 {
            break;
        }
    }
    data.truncate(1_000_000);
    round_trip(data, 9);
}

#[test]
fn every_byte_value_round_trip() {
    let mut data: Vec<u8> = (0..=255u8).collect();
    data.extend((0..=255u8).rev());
    data.extend(vec![255u8; 600]);
    round_trip(data.clone(), 1);
    let (stream, _) = encode(data, 1);
    assert_eq!(&stream[..4], b"BZh1");
}

#[test]
fn the_footer_holds_the_folded_checksums() {
    let data = noise(150_000, 12, 256);
    let first = banzai::rle::rle_one(data.clone(), 1);
    let rest = first.raw.clone().unwrap();
    let second = banzai::rle::rle_one(rest, 1);
    assert!(second.raw.is_none());
    let want = banzai::crc32::fold(banzai::crc32::fold(0, first.chk), second.chk);
    let (stream, consumed) = encode(data, 1);
    assert_eq!(consumed, 150_000);
    /* the footer may stand at any bit: look for its mark and read on */
    let mark: u64 = 0x1772_4538_5090;
    let mut bits: Vec<u8> = Vec::new();
    for byte in &stream {
        for k in (0..8).rev() {
            bits.push((byte >> k) & 1);
        }
    }
    let mut found = None;
    for start in (0..bits.len().saturating_sub(80)).rev() {
        let mut v: u64 = 0;
        for k in 0..48 {
            v = (v << 1) | bits[start + k] as u64;
        }
        if v == mark {
            let mut crc: u32 = 0;
            for k in 48..80 {
                crc = (crc << 1) | bits[start + k] as u32;
            }
            found = Some(crc);
            break;
        }
    }
    assert_eq!(found, Some(want));
}

#[test]
fn a_long_run_widens_the_window() {
    let data = vec![7u8; 6_000_000];
    let cut = banzai::frame::cut_block(&data, 0, 1);
    assert_eq!(cut.consumed, 255 * 19_999 + 3);
    assert_eq!(cut.output.len(), 99_998);
    let whole = banzai::rle::rle_one(data.clone(), 1);
    assert_eq!(whole.consumed, cut.consumed);
    assert_eq!(whole.output, cut.output);
    assert_eq!(whole.chk, cut.chk);
    let next = banzai::frame::cut_block(&data, cut.consumed, 1);
    assert_eq!(next.consumed, 6_000_000 - cut.consumed);
    round_trip(data, 1);
}

#[test]
fn blocks_cut_off_a_window_are_the_blocks_of_the_input() {
    let data = noise(450_000, 21, 256);
    let mut start = 0;
    let mut rest = data.clone();
    while start < data.len() {
        let cut = banzai::frame::cut_block(&data, start, 2);
        let whole = banzai::rle::rle_one(rest.clone(), 2);
        assert_eq!(cut.consumed, whole.consumed);
        assert_eq!(cut.output, whole.output);
        assert_eq!(cut.chk, whole.chk);
        start += cut.consumed;
        rest = whole.raw.unwrap_or_default();
    }
    assert_eq!(start, 450_000);
}
