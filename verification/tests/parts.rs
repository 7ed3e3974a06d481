use banzai::bwt::{bwt, has_byte, induced_order, sorted_order};
use banzai::crc32::fold;
use banzai::frame::{write_block_header, write_stream_footer, write_stream_header, write_sym_map};
use banzai::huffman::{assign_codes, write_selectors, write_table};
use banzai::mtf::mtf_and_rle;
use banzai::out::OutputStream;
use banzai::queue::{Entry, FrequencyQueue, Priority};
use banzai::rle::rle_one;
use banzai::suffix::{check_sorted, sort_suffixes, suffix_lt};
use banzai::tables::{build_initial_tables, num_tables_for, refine, select_tables, table_shares};
use banzai::tree::{build_table_from_freqs, build_tree};

fn pseudo(len: usize, seed: u64, spread: u64) -> Vec<u8> {
    let mut state = seed;
    let mut out = Vec::with_capacity(len);
    for _ in 0..len {
        state = state.wrapping_mul(6364136223846793005).wrapping_add(1442695040888963407);
        out.push(((state >> 33) % spread) as u8);
    }
    out
}

/// The sorted rotations by the book: of equal rotations the later first.
fn rotations_by_the_book(data: &[u8]) -> Vec<i32> {
    let n = data.len();
    let mut order: Vec<usize> = (0..n).collect();
    order.sort_by(|&a, &b| {
        for k in 0..n {
            let x = data[(a + k) % n];
            let y = data[(b + k) % n];
            if x != y {
                return x.cmp(&y);
            }
        }
        b.cmp(&a)
    });
    order.into_iter().map(|i| i as i32).collect()
}

#[test]
fn bits_are_packed_most_significant_first() {
    let mut output = OutputStream::new();
    output.write_bits(0xFF, 3);
    output.write_bits_u32(0x1234_5678, 32);
    output.write_bits_u32(0xABCDE, 20);
    output.write_bits_u32(0xFFFF_FFFF, 0);
    output.write_bits(0, 0);
    output.write_bytes(&[]);
    let out = output.close();
    /* 111 00010010 00110100 01010110 01111000 10101011 11001101 1110 and one zero */
    assert_eq!(out, vec![0xE2, 0x46, 0x8A, 0xCF, 0x15, 0x79, 0xBC]);
}

#[test]
fn an_empty_sink_closes_empty() {
    assert_eq!(OutputStream::new().close(), Vec::<u8>::new());
    let mut output = OutputStream::new();
    output.write_bytes(&[1, 2, 3]);
    assert_eq!(output.close(), vec![1, 2, 3]);
}

#[test]
fn the_stream_checksum_turns_and_adds() {
    assert_eq!(fold(0, 0xDEAD_BEEF), 0xDEAD_BEEF);
    assert_eq!(fold(0x8000_0000, 0), 1);
    assert_eq!(fold(0x4000_0001, 0xF), 0x8000_0002 ^ 0xF);
}

#[test]
fn run_lengths_at_the_cap() {
    let rle = rle_one(vec![b'z'; 3], 1);
    assert_eq!(rle.output, b"zzz".to_vec());
    assert_eq!(rle.chk, banzai::crc32::checksum(&vec![b'z'; 3]));
    let rle = rle_one(vec![b'z'; 256], 1);
    assert_eq!(rle.output, b"zzzz\xfbz".to_vec());
    let rle = rle_one(Vec::new(), 1);
    assert_eq!(rle.consumed, 0);
    assert_eq!(rle.chk, 0);
    assert!(rle.output.is_empty());
    assert!(rle.raw.is_none());
}

#[test]
fn a_block_takes_what_fits() {
    /* 255 equal bytes take five bytes of room, and a block of level 1 holds
    99_999: after 19_999 runs four bytes are left, which is room for three
    equal bytes but not for a fourth and its count */
    let rle = rle_one(vec![7u8; 255 * 20_000 + 1], 1);
    assert_eq!(rle.output.len(), 99_998);
    assert_eq!(rle.consumed, 255 * 19_999 + 3);
    assert_eq!(rle.raw.map(|r| r.len()), Some(255 * 20_000 + 1 - rle.consumed));
    let data = pseudo(200_000, 11, 256);
    let rle = rle_one(data, 1);
    assert!(rle.output.len() <= 99_999);
    assert!(rle.output.len() >= 99_998);
}

#[test]
fn transform_of_short_blocks() {
    let out = bwt(Vec::new());
    assert!(out.bwt.is_empty());
    assert_eq!(out.ptr, usize::MAX);
    assert!(out.has_byte.iter().all(|b| !b));

    let out = bwt(vec![b'a']);
    assert_eq!(out.bwt, vec![b'a']);
    assert_eq!(out.ptr, 0);
    assert!(out.has_byte[b'a' as usize]);

    let out = bwt(b"ab".to_vec());
    assert_eq!(out.bwt, b"ba".to_vec());
    assert_eq!(out.ptr, 0);

    let out = bwt(b"banana".to_vec());
    assert_eq!(out.bwt, b"nnbaaa".to_vec());
    assert_eq!(out.ptr, 3);
}

#[test]
fn transform_agrees_with_sorted_rotations() {
    for (len, seed, spread) in [(1usize, 1u64, 2u64), (2, 2, 2), (7, 3, 2), (64, 4, 3), (300, 5, 256), (1000, 6, 2)] {
        let data = pseudo(len, seed, spread);
        let order = rotations_by_the_book(&data);
        let out = bwt(data.clone());
        let column: Vec<u8> = order.iter().map(|&i| data[(i as usize + len - 1) % len]).collect();
        assert_eq!(out.bwt, column);
        assert_eq!(order[out.ptr], 0);
        assert_eq!(out.has_byte, has_byte(&data));
    }
    let periodic = b"abcabcabcabc".to_vec();
    let order = rotations_by_the_book(&periodic);
    let out = bwt(periodic);
    assert_eq!(order[out.ptr], 0);
    assert_eq!(out.ptr, 3);
}

#[test]
fn the_three_sorts_agree() {
    let data = pseudo(200, 9, 4);
    let mut doubled = data.clone();
    doubled.extend_from_slice(&data);
    let by_the_book = rotations_by_the_book(&data);
    assert_eq!(induced_order(&doubled, 200), Some(by_the_book.clone()));
    assert_eq!(sort_suffixes(&doubled, 200), by_the_book);
    assert_eq!(sorted_order(&doubled, 200), by_the_book);
    let whole = induced_order(&doubled, 400).unwrap();
    assert!(check_sorted(&doubled, &whole));
    let mut wrong = whole.clone();
    wrong.swap(10, 11);
    assert!(!check_sorted(&doubled, &wrong));
    let mut twice = whole.clone();
    twice[5] = twice[6];
    assert!(!check_sorted(&doubled, &twice));
    assert!(!check_sorted(&doubled, &whole[1..].to_vec()));
}

#[test]
fn suffixes_compare_by_their_first_difference() {
    let x = b"abab".to_vec();
    assert!(suffix_lt(&x, 2, 0));
    assert!(!suffix_lt(&x, 0, 2));
    assert!(suffix_lt(&x, 0, 1));
    assert!(suffix_lt(&x, 4, 3));
    assert!(!suffix_lt(&x, 3, 4));
    assert!(!suffix_lt(&x, 1, 1));
}

#[test]
fn one_byte_repeated_becomes_run_digits() {
    let mut marks = vec![false; 256];
    marks[5] = true;
    let mtf = mtf_and_rle(vec![5u8; 3], marks.clone());
    assert_eq!(mtf.output, vec![0, 0, 2]);
    assert_eq!(mtf.num_syms, 3);
    assert_eq!(mtf.freqs.len(), 258);
    assert_eq!(mtf.freqs[0], 2);
    assert_eq!(mtf.freqs[1], 0);
    assert_eq!(mtf.freqs[2], 1);
    /* a run of 1 is A, of 2 is B, of 3 is AA, of 4 is BA, of 5 is AB, of 6 is BB, of 7 is AAA */
    for (run, digits) in [(1usize, vec![0u16]), (2, vec![1]), (4, vec![1, 0]), (5, vec![0, 1]), (6, vec![1, 1]), (7, vec![0, 0, 0])] {
        let mtf = mtf_and_rle(vec![5u8; run], marks.clone());
        let mut want = digits.clone();
        want.push(2);
        assert_eq!(mtf.output, want);
    }
}

#[test]
fn places_in_the_recency_list() {
    let data = b"bbac".to_vec();
    let mtf = mtf_and_rle(data.clone(), has_byte(&data));
    /* names a=0 b=1 c=2; b stands at 1, then at 0, a at 1, c at 2 */
    assert_eq!(mtf.output, vec![2, 0, 2, 3, 4]);
    assert_eq!(mtf.num_syms, 5);
    assert_eq!(*mtf.output.last().unwrap() as usize, mtf.num_syms - 1);
    let empty = mtf_and_rle(Vec::new(), has_byte(&data));
    assert_eq!(empty.output, vec![4]);
}

#[test]
fn the_queue_gives_the_least_first() {
    let freqs: Vec<usize> = vec![30, 0, 9, 4, 4, 99];
    let mut queue = FrequencyQueue::new(6, &freqs, 1);
    assert_eq!(queue.len(), 6);
    let mut seen = Vec::new();
    while queue.len() > 0 {
        let e = queue.extract();
        seen.push((e.pri.freq, e.node));
    }
    let freqs_only: Vec<usize> = seen.iter().map(|p| p.0).collect();
    assert_eq!(freqs_only, vec![1, 5, 5, 10, 31, 100]);
    let mut queue = FrequencyQueue::new(0, &freqs, 1);
    queue.insert(Entry { node: 1, pri: Priority { freq: 3, depth: 2 } });
    queue.insert(Entry { node: 2, pri: Priority { freq: 3, depth: 1 } });
    queue.insert(Entry { node: 3, pri: Priority { freq: 2, depth: 9 } });
    assert_eq!(queue.extract().node, 3);
    assert_eq!(queue.extract().node, 2);
    assert_eq!(queue.extract().node, 1);
    let halved = FrequencyQueue::new(1, &vec![9], 2).extract();
    assert_eq!(halved.pri.freq, 5);
    let joined = Priority { freq: 3, depth: 2 }.join(Priority { freq: 4, depth: 5 });
    assert_eq!((joined.freq, joined.depth), (7, 6));
    assert!(Priority { freq: 3, depth: 2 }.is_less(&Priority { freq: 3, depth: 3 }));
    assert!(!Priority { freq: 3, depth: 2 }.is_less(&Priority { freq: 3, depth: 2 }));
}

#[test]
fn code_lengths_of_small_tables() {
    assert_eq!(build_table_from_freqs(3, &vec![10, 1, 1]), vec![1, 2, 2]);
    assert_eq!(build_table_from_freqs(2, &vec![0, 1_000_000]), vec![1, 1]);
    assert_eq!(build_table_from_freqs(4, &vec![1, 1, 1, 1]), vec![2, 2, 2, 2]);
    let tree = build_tree(3, &vec![10, 1, 1], 1);
    let (lengths, max_len) = tree.coding_lengths();
    assert_eq!(lengths, vec![1, 2, 2]);
    assert_eq!(max_len, 2);
}

#[test]
fn code_lengths_stay_under_the_cap() {
    /* frequencies that grow like the Fibonacci numbers make the deepest trees */
    let mut freqs: Vec<usize> = vec![1, 1];
    while freqs.len() < 30 {
        let n = freqs.len();
        freqs.push(freqs[n - 1] + freqs[n - 2]);
    }
    let table = build_table_from_freqs(30, &freqs);
    assert_eq!(table.len(), 30);
    assert!(table.iter().all(|&l| 1 <= l && l <= 17));
    let weight: u64 = table.iter().map(|&l| 1u64 << (17 - l)).sum();
    assert_eq!(weight, 1 << 17);
    assert!(*table.iter().max().unwrap() >= 5);
    let words = assign_codes(&table);
    for s in 0..30 {
        assert!((words[s] as u64) < (1u64 << table[s]));
        for t in 0..30 {
            if s != t && table[s] <= table[t] {
                assert_ne!(words[t] >> (table[t] - table[s]), words[s]);
            }
        }
    }
}

#[test]
fn canonical_codewords() {
    assert_eq!(assign_codes(&vec![2, 1, 3, 3]), vec![2, 0, 6, 7]);
    assert_eq!(assign_codes(&vec![1, 1]), vec![0, 1]);
    assert_eq!(assign_codes(&vec![3, 3, 3, 3, 3, 2, 4, 4]), vec![2, 3, 4, 5, 6, 0, 14, 15]);
}

#[test]
fn tables_start_on_even_shares() {
    assert_eq!(num_tables_for(3), 2);
    assert_eq!(num_tables_for(199), 2);
    assert_eq!(num_tables_for(200), 3);
    assert_eq!(num_tables_for(258), 3);
    assert_eq!(num_tables_for(600), 4);
    assert_eq!(num_tables_for(1200), 5);
    assert_eq!(num_tables_for(2400), 6);
    let tables = build_initial_tables(4, &vec![4, 4, 4, 4], 16, 2);
    assert_eq!(tables, vec![vec![15, 15, 0, 0], vec![0, 0, 15, 15]]);
    /* an odd table between others gives up its last symbol */
    let tables = build_initial_tables(6, &vec![2, 2, 2, 2, 2, 2], 12, 3);
    assert_eq!(
        tables,
        vec![vec![15, 15, 0, 0, 0, 0], vec![0, 0, 15, 0, 0, 0], vec![0, 0, 0, 15, 15, 15]]
    );
    /* once the symbols are used up a table starts out empty */
    let tables = build_initial_tables(3, &vec![0, 9, 1], 10, 3);
    assert_eq!(tables, vec![vec![15, 15, 0], vec![0, 0, 15], vec![0, 0, 0]]);
}

#[test]
fn segments_go_to_the_cheapest_table() {
    let tables = vec![vec![1u8, 5, 5], vec![5u8, 1, 5], vec![5u8, 5, 5]];
    let mut input: Vec<u16> = vec![0; 50];
    input.extend(vec![1u16; 50]);
    input.extend(vec![2u16; 7]);
    let sels = select_tables(&tables, &input);
    assert_eq!(sels, vec![0, 1, 0]);
    let share = table_shares(&sels, &input, 0);
    assert_eq!(share.len(), 258);
    assert_eq!(&share[..3], &[50, 0, 7]);
    assert_eq!(&table_shares(&sels, &input, 1)[..3], &[0, 50, 0]);
    let (rebuilt, chosen) = refine(&tables, &input, 3);
    assert_eq!(chosen, sels);
    assert_eq!(rebuilt[0], vec![1, 2, 2]);
    assert_eq!(rebuilt[1], vec![2, 1, 2]);
    assert_eq!(rebuilt[2], build_table_from_freqs(3, &vec![0, 0, 0]));
}

#[test]
fn selectors_are_written_in_unary() {
    let mut output = OutputStream::new();
    write_selectors(&mut output, &vec![0, 1, 1, 0], 2);
    /* 0 10 0 10 */
    assert_eq!(output.close(), vec![0x48]);
    let mut output = OutputStream::new();
    write_selectors(&mut output, &vec![5, 5, 0], 6);
    /* 111110 0 10 */
    assert_eq!(output.close(), vec![0xF9, 0x00]);
}

#[test]
fn tables_are_written_as_steps() {
    let mut output = OutputStream::new();
    write_table(&mut output, &vec![2, 2, 3, 1]);
    /* 00010 0 0 100 11110 */
    assert_eq!(output.close(), vec![0x11, 0x3C]);
}

#[test]
fn headers_and_footer() {
    let mut output = OutputStream::new();
    write_stream_header(&mut output, 7);
    write_block_header(&mut output, 0x0102_0304, 0x00AB_CDEF);
    let out = output.close();
    assert_eq!(&out[..4], b"BZh7");
    assert_eq!(&out[4..10], &[0x31, 0x41, 0x59, 0x26, 0x53, 0x59]);
    assert_eq!(&out[10..14], &[1, 2, 3, 4]);
    /* a zero bit, then 24 bits */
    assert_eq!(&out[14..], &[0x55, 0xE6, 0xF7, 0x80]);
    let mut output = OutputStream::new();
    write_stream_footer(&mut output, 0xCAFE_F00D);
    assert_eq!(output.close(), vec![0x17, 0x72, 0x45, 0x38, 0x50, 0x90, 0xCA, 0xFE, 0xF0, 0x0D]);
}

#[test]
fn the_symbol_map_names_sectors_then_bytes() {
    let mut marks = vec![false; 256];
    marks[0x00] = true;
    marks[0x41] = true;
    let mut output = OutputStream::new();
    write_sym_map(&mut output, &marks);
    assert_eq!(output.close(), vec![0x88, 0x00, 0x80, 0x00, 0x40, 0x00]);
    let mut output = OutputStream::new();
    write_sym_map(&mut output, &vec![true; 256]);
    assert_eq!(output.close(), vec![0xFF; 34]);
}
