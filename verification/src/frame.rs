//! The stream: a header, the blocks one after another, and a footer with the
//! checksum of them all.

use crate::bwt::{bwt, is_rotation_order, last_column, marks, rotation_order, Bwt};
use crate::crc32::{crc32, fold, stream_crc};
use crate::decode::{decode, lemma_round_trip};
use crate::huffman::{block_bits, encode as encode_symbols};
use crate::mtf::{mtf_and_rle, names_below, names_of, occurrences, places, symbols, Mtf, NUM_FREQS};
use crate::out::{bits_of, byte_bits, padding, zero_bits, OutputStream};
use crate::rle::{block_room, is_block_len, lemma_step, rle1, rle_one, Rle};
use vstd::prelude::*;

verus! {

/// The header of a stream of level `level`: the letters `BZh` and the level
/// as a digit.
pub open spec fn stream_header_bits(level: int) -> Seq<bool> {
    byte_bits(seq![0x42u8, 0x5Au8, 0x68u8, (0x30 + level) as u8])
}

/// The header of a block: its mark, its checksum, a zero bit, and the row
/// of the block among its sorted rotations in 24 bits.
pub open spec fn block_header_bits(crc: u32, ptr: int) -> Seq<bool> {
    byte_bits(seq![0x31u8, 0x41u8, 0x59u8, 0x26u8, 0x53u8, 0x59u8]) + bits_of(crc, 32) + seq![
        false,
    ] + bits_of(ptr as u32, 24)
}

/// Whether byte value `b` of sector `a` occurs.
pub open spec fn in_sector(has_byte: Seq<bool>, a: int, b: int) -> bool {
    has_byte[16 * a + b]
}

/// Whether any of the sixteen byte values of sector `a` occurs.
pub open spec fn sector_used(has_byte: Seq<bool>, a: int) -> bool {
    exists|b: int| 0 <= b < 16 && #[trigger] in_sector(has_byte, a, b)
}

/// For each of the first `upto` sectors that is used, one bit for each of
/// its byte values.
pub open spec fn sector_bits(has_byte: Seq<bool>, upto: int) -> Seq<bool>
    decreases upto,
{
    if upto <= 0 {
        Seq::empty()
    } else {
        sector_bits(has_byte, upto - 1) + if sector_used(has_byte, upto - 1) {
            Seq::new(16, |b: int| has_byte[16 * (upto - 1) + b])
        } else {
            Seq::empty()
        }
    }
}

/// The symbol map: one bit for each of the sixteen sectors, then the used
/// sectors.
pub open spec fn sym_map_bits(has_byte: Seq<bool>) -> Seq<bool> {
    Seq::new(16, |a: int| sector_used(has_byte, a)) + sector_bits(has_byte, 16)
}

/// The footer of a stream: its mark and the checksum of the stream.
pub open spec fn stream_footer_bits(crc: u32) -> Seq<bool> {
    byte_bits(seq![0x17u8, 0x72u8, 0x45u8, 0x38u8, 0x50u8, 0x90u8]) + bits_of(crc, 32)
}

/// How often each symbol occurs.
pub open spec fn counts(output: Seq<u16>) -> Seq<usize> {
    Seq::new(NUM_FREQS as nat, |s: int| occurrences(output, s) as usize)
}

/// The row in which the rotation by zero stands.
pub open spec fn primary_index(order: Seq<i32>) -> int {
    choose|k: int| 0 <= k < order.len() && order[k] == 0
}

/// The symbols of a block whose run-length coding is `coded`.
pub open spec fn block_symbols(coded: Seq<u8>) -> Seq<u16> {
    let column = last_column(coded, rotation_order(coded));
    let k = names_below(marks(coded), 256);
    symbols(places(names_of(marks(coded), column), k), k)
}

/// A block of input in the stream.
pub open spec fn block_in_stream(block: Seq<u8>) -> Seq<bool> {
    let coded = rle1(block);
    let syms = block_symbols(coded);
    block_header_bits(crc32(block), primary_index(rotation_order(coded))) + sym_map_bits(
        marks(coded),
    ) + block_bits(syms, names_below(marks(coded), 256) + 2, counts(syms))
}

/// The number of bytes that go into the first block.
pub open spec fn block_len(raw: Seq<u8>, level: int) -> int {
    choose|c: int| is_block_len(raw, block_room(level), c)
}

/// The input cut into blocks.
pub open spec fn split(raw: Seq<u8>, level: int) -> Seq<Seq<u8>>
    decreases raw.len(),
{
    let c = block_len(raw, level);
    if raw.len() == 0 || c <= 0 || c > raw.len() {
        Seq::empty()
    } else {
        seq![raw.take(c)] + split(raw.skip(c), level)
    }
}

/// The blocks in the stream, one after another.
pub open spec fn blocks_in_stream(blocks: Seq<Seq<u8>>) -> Seq<bool>
    decreases blocks.len(),
{
    if blocks.len() == 0 {
        Seq::empty()
    } else {
        blocks_in_stream(blocks.drop_last()) + block_in_stream(blocks.last())
    }
}

/// The checksum of each block.
pub open spec fn checksums(blocks: Seq<Seq<u8>>) -> Seq<u32> {
    Seq::new(blocks.len(), |i: int| crc32(blocks[i]))
}

/// The stream for `input` at level `level`, before it is filled up to whole
/// bytes.
pub open spec fn stream_bits(input: Seq<u8>, level: int) -> Seq<bool> {
    let blocks = split(input, level);
    stream_header_bits(level) + blocks_in_stream(blocks) + stream_footer_bits(
        stream_crc(checksums(blocks)),
    )
}

/// Writes the header of a stream.
pub fn write_stream_header(output: &mut OutputStream, level: usize)
    requires
        old(output).wf(),
        1 <= level <= 9,
    ensures
        final(output).wf(),
        final(output).bits() == old(output).bits() + stream_header_bits(level as int),
{
    let level_byte: u8 = (0x30 + level) as u8;
    let header: [u8; 4] = [0x42, 0x5A, 0x68, level_byte];
    assert(header@ =~= seq![0x42u8, 0x5Au8, 0x68u8, (0x30 + level) as u8]);
    output.write_bytes(header.as_slice());
}

/// Writes the header of a block.
pub fn write_block_header(output: &mut OutputStream, crc: u32, ptr: usize)
    requires
        old(output).wf(),
        ptr <= 0xFF_FFFF,
    ensures
        final(output).wf(),
        final(output).bits() == old(output).bits() + block_header_bits(crc, ptr as int),
{
    let magic: [u8; 6] = [0x31, 0x41, 0x59, 0x26, 0x53, 0x59];
    assert(magic@ =~= seq![0x31u8, 0x41u8, 0x59u8, 0x26u8, 0x53u8, 0x59u8]);
    output.write_bytes(magic.as_slice());
    output.write_bits_u32(crc, 32);
    output.write_bits(0, 1);
    proof {
        assert((0u32 >> 0u32) & 1 == 0) by (bit_vector);
        assert(bits_of(0, 1) =~= seq![false]);
    }
    output.write_bits_u32(ptr as u32, 24);
    assert(output.bits() =~= old(output).bits() + block_header_bits(crc, ptr as int));
}

/// Whether any byte value of sector `a` occurs.
fn is_sector_used(has_byte: &Vec<bool>, a: usize) -> (used: bool)
    requires
        has_byte@.len() == 256,
        a < 16,
    ensures
        used == sector_used(has_byte@, a as int),
{
    let mut b: usize = 0;
    while b < 16
        invariant
            b <= 16,
            a < 16,
            has_byte@.len() == 256,
            forall|c: int| 0 <= c < b ==> !#[trigger] in_sector(has_byte@, a as int, c),
        decreases 16 - b,
    {
        if has_byte[16 * a + b] {
            assert(in_sector(has_byte@, a as int, b as int));
            return true;
        }
        b += 1;
    }
    false
}

/// Writes one bit.
fn write_flag(output: &mut OutputStream, flag: bool)
    requires
        old(output).wf(),
    ensures
        final(output).wf(),
        final(output).bits() == old(output).bits().push(flag),
{
    proof {
        assert((0u32 >> 0u32) & 1 == 0 && (1u32 >> 0u32) & 1 == 1) by (bit_vector);
        assert(bits_of(0, 1) =~= seq![false]);
        assert(bits_of(1, 1) =~= seq![true]);
    }
    if flag {
        output.write_bits(1, 1);
    } else {
        output.write_bits(0, 1);
    }
    assert(output.bits() =~= old(output).bits().push(flag));
}

/// Writes the symbol map.
pub fn write_sym_map(output: &mut OutputStream, has_byte: &Vec<bool>)
    requires
        old(output).wf(),
        has_byte@.len() == 256,
    ensures
        final(output).wf(),
        final(output).bits() == old(output).bits() + sym_map_bits(has_byte@),
{
    let ghost start = output.bits();
    let ghost map = Seq::new(16, |a: int| sector_used(has_byte@, a));
    let mut a: usize = 0;
    assert(output.bits() =~= start + map.take(0));
    while a < 16
        invariant
            a <= 16,
            has_byte@.len() == 256,
            output.wf(),
            map == Seq::new(16, |a: int| sector_used(has_byte@, a)),
            output.bits() == start + map.take(a as int),
        decreases 16 - a,
    {
        let used: bool = is_sector_used(has_byte, a);
        write_flag(output, used);
        assert(output.bits() =~= start + map.take(a + 1));
        a += 1;
    }
    assert(map.take(16) =~= map);
    let ghost mid = output.bits();
    let mut a: usize = 0;
    assert(output.bits() =~= mid + sector_bits(has_byte@, 0));
    while a < 16
        invariant
            a <= 16,
            has_byte@.len() == 256,
            output.wf(),
            output.bits() == mid + sector_bits(has_byte@, a as int),
        decreases 16 - a,
    {
        if is_sector_used(has_byte, a) {
            let ghost before = output.bits();
            let ghost sector = Seq::new(16, |b: int| has_byte@[16 * a + b]);
            let mut b: usize = 0;
            assert(output.bits() =~= before + sector.take(0));
            while b < 16
                invariant
                    b <= 16,
                    a < 16,
                    has_byte@.len() == 256,
                    output.wf(),
                    sector == Seq::new(16, |b: int| has_byte@[16 * a + b]),
                    output.bits() == before + sector.take(b as int),
                decreases 16 - b,
            {
                write_flag(output, has_byte[16 * a + b]);
                assert(output.bits() =~= before + sector.take(b + 1));
                b += 1;
            }
            assert(sector.take(16) =~= sector);
        }
        assert(output.bits() =~= mid + sector_bits(has_byte@, a + 1));
        a += 1;
    }
    assert(output.bits() =~= old(output).bits() + sym_map_bits(has_byte@));
}

/// Writes the footer of a stream.
pub fn write_stream_footer(output: &mut OutputStream, crc: u32)
    requires
        old(output).wf(),
    ensures
        final(output).wf(),
        final(output).bits() == old(output).bits() + stream_footer_bits(crc),
{
    let magic: [u8; 6] = [0x17, 0x72, 0x45, 0x38, 0x50, 0x90];
    assert(magic@ =~= seq![0x17u8, 0x72u8, 0x45u8, 0x38u8, 0x50u8, 0x90u8]);
    output.write_bytes(magic.as_slice());
    output.write_bits_u32(crc, 32);
    assert(output.bits() =~= old(output).bits() + stream_footer_bits(crc));
}

/// A block in the stream, given its run-length coding and its checksum.
pub open spec fn coded_block_bits(coded: Seq<u8>, crc: u32) -> Seq<bool> {
    let syms = block_symbols(coded);
    block_header_bits(crc, primary_index(rotation_order(coded))) + sym_map_bits(marks(coded))
        + block_bits(syms, names_below(marks(coded), 256) + 2, counts(syms))
}

/// The greatest length of a run-length coded block.
pub const MAX_BLOCK: usize = 899_999;

/// The rotation by zero stands in one row only.
pub proof fn lemma_primary_index(data: Seq<u8>, order: Seq<i32>, ptr: int)
    requires
        is_rotation_order(data, order),
        0 <= ptr < order.len(),
        order[ptr] == 0,
    ensures
        primary_index(order) == ptr,
{
    let p = primary_index(order);
    crate::suffix::lemma_irreflexive(crate::bwt::doubled(data), 0);
    if p < ptr {
        assert(crate::suffix::suffix_less(
            crate::bwt::doubled(data),
            order[p] as int,
            order[ptr] as int,
        ));
    } else if ptr < p {
        assert(crate::suffix::suffix_less(
            crate::bwt::doubled(data),
            order[ptr] as int,
            order[p] as int,
        ));
    }
}

/// Transforms a run-length coded block and writes it with its header.
pub fn write_block(output: &mut OutputStream, coded: Vec<u8>, crc: u32)
    requires
        old(output).wf(),
        0 < coded@.len() <= MAX_BLOCK,
    ensures
        final(output).wf(),
        final(output).bits() == old(output).bits() + coded_block_bits(coded@, crc),
{
    let ghost data = coded@;
    let bwt_out: Bwt = bwt(coded);
    proof {
        lemma_primary_index(data, rotation_order(data), bwt_out.ptr as int);
        assert(data.contains(data[0]));
        assert(marks(data)[data[0] as int]);
    }
    write_block_header(output, crc, bwt_out.ptr);
    write_sym_map(output, &bwt_out.has_byte);
    let mtf_out: Mtf = mtf_and_rle(bwt_out.bwt, bwt_out.has_byte);
    proof {
        assert(mtf_out.freqs@ =~= counts(mtf_out.output@));
    }
    encode_symbols(output, mtf_out);
    proof {
        assert(output.bits() =~= old(output).bits() + coded_block_bits(data, crc));
    }
}

/// The length of the first block is what the coder takes.
pub proof fn lemma_block_len(raw: Seq<u8>, level: int, c: int)
    requires
        is_block_len(raw, block_room(level), c),
    ensures
        block_len(raw, level) == c,
{
    let d = block_len(raw, level);
    if d < c {
        assert(rle1(raw.take(c)).len() > block_room(level));
    } else if c < d {
        assert(rle1(raw.take(d)).len() > block_room(level));
    }
}

/// A block that is not empty has a coding that is not empty.
pub proof fn lemma_coded_nonempty(s: Seq<u8>)
    requires
        s.len() > 0,
    ensures
        rle1(s).len() > 0,
{
    lemma_step(s, 0);
    crate::rle::lemma_grows(s, 1, s.len() as int);
    assert(s.take(s.len() as int) =~= s);
    assert(s.take(0) =~= Seq::<u8>::empty());
}

/// A block that is cut off a window on the input is the block that is cut
/// off the input, if the window is not used up or reaches to the end.
pub proof fn lemma_window(rest: Seq<u8>, width: int, room: int, c: int)
    requires
        0 <= width <= rest.len(),
        is_block_len(rest.take(width), room, c),
        c < width || width == rest.len(),
    ensures
        is_block_len(rest, room, c),
        rest.take(width).take(c) == rest.take(c),
{
    let window = rest.take(width);
    assert(window.take(c) =~= rest.take(c));
    assert forall|k: int| c < k <= rest.len() implies (#[trigger] rle1(rest.take(k))).len()
        > room by {
        if k <= width {
            assert(window.take(k) =~= rest.take(k));
            assert(rle1(window.take(k)).len() > room);
        } else {
            assert(window.take(c + 1) =~= rest.take(c + 1));
            assert(rle1(window.take(c + 1)).len() > room);
            crate::rle::lemma_grows(rest, c + 1, k);
        }
    }
}

/// Cuts the block of level `level` that begins at `start` off the input.
/// The coder sees the input through a window, which is widened as long as
/// the block uses it up; what the coder leaves over of the window is
/// dropped.
pub fn cut_block(input: &Vec<u8>, start: usize, level: usize) -> (rle: Rle)
    requires
        1 <= level <= 9,
        start < input@.len(),
    ensures
        rle.consumed > 0,
        is_block_len(input@.skip(start as int), block_room(level as int), rle.consumed as int),
        rle.output@ == rle1(input@.skip(start as int).take(rle.consumed as int)),
        rle.chk == crc32(input@.skip(start as int).take(rle.consumed as int)),
{
    let total: usize = input.len();
    let room: usize = 100_000 * level - 1;
    let ghost rest = input@.skip(start as int);
    let mut width: usize = if total - start < 2 * room + 256 {
        total - start
    } else {
        2 * room + 256
    };
    let window: Vec<u8> = vstd::slice::slice_to_vec(
        vstd::slice::slice_subrange(input.as_slice(), start, start + width),
    );
    assert(window@ =~= rest.take(width as int));
    let mut rle_out = rle_one(window, level);
    while rle_out.consumed == width && width < total - start
        invariant
            1 <= level <= 9,
            room == block_room(level as int),
            total == input@.len(),
            start < total,
            rest == input@.skip(start as int),
            1 <= width <= total - start,
            rle_out.output@ == rle1(rest.take(width as int).take(rle_out.consumed as int)),
            is_block_len(rest.take(width as int), room as int, rle_out.consumed as int),
            rle_out.consumed > 0,
            rle_out.chk == crc32(rest.take(width as int).take(rle_out.consumed as int)),
        decreases total - start - width,
    {
        width = if total - start - width < width {
            total - start
        } else {
            2 * width
        };
        let wider: Vec<u8> = vstd::slice::slice_to_vec(
            vstd::slice::slice_subrange(input.as_slice(), start, start + width),
        );
        assert(wider@ =~= rest.take(width as int));
        rle_out = rle_one(wider, level);
    }
    proof {
        lemma_window(rest, width as int, room as int, rle_out.consumed as int);
    }
    rle_out
}

/// Compresses `input` into a stream of level `level`, in which a block holds
/// up to `100_000 * level` bytes, and returns the stream and the number of
/// bytes taken in, which is all of them. The stream stands for the input.
pub fn encode(input: Vec<u8>, level: usize) -> (r: (Vec<u8>, usize))
    requires
        1 <= level <= 9,
    ensures
        byte_bits(r.0@) == stream_bits(input@, level as int) + zero_bits(
            padding(stream_bits(input@, level as int).len() as int),
        ),
        r.1 == input@.len(),
        decode(r.0@) == Some(input@),
{
    let ghost all = input@;
    let total: usize = input.len();
    let mut output = OutputStream::new();
    write_stream_header(&mut output, level);
    let mut crc: u32 = 0;
    let mut consumed: usize = 0;
    let ghost mut done: Seq<Seq<u8>> = Seq::empty();
    proof {
        assert(checksums(done) =~= Seq::<u32>::empty());
        assert(all.skip(0) =~= all);
        assert(done + split(all.skip(0), level as int) =~= split(all, level as int));
        assert(output.bits() =~= stream_header_bits(level as int) + blocks_in_stream(done));
    }
    while consumed < total
        invariant
            1 <= level <= 9,
            total == all.len(),
            all == input@,
            consumed <= total,
            output.wf(),
            output.bits() == stream_header_bits(level as int) + blocks_in_stream(done),
            crc == stream_crc(checksums(done)),
            split(all, level as int) == done + split(all.skip(consumed as int), level as int),
        decreases total - consumed,
    {
        let ghost rest = all.skip(consumed as int);
        let rle_out = cut_block(&input, consumed, level);
        let ghost c = rle_out.consumed as int;
        let ghost block = rest.take(c);
        let ghost left = rest.skip(c);
        proof {
            lemma_block_len(rest, level as int, c);
            lemma_coded_nonempty(block);
            assert(split(rest, level as int) == seq![block] + split(left, level as int));
            assert(left =~= all.skip(consumed + c));
            assert(done.push(block).drop_last() =~= done);
            assert(checksums(done.push(block)).drop_last() =~= checksums(done));
            assert(done + split(rest, level as int) =~= done.push(block) + split(
                left,
                level as int,
            ));
        }
        crc = fold(crc, rle_out.chk);
        write_block(&mut output, rle_out.output, rle_out.chk);
        consumed += rle_out.consumed;
        proof {
            done = done.push(block);
            assert(output.bits() =~= stream_header_bits(level as int) + blocks_in_stream(done));
        }
    }
    proof {
        assert(all.skip(total as int) =~= Seq::<u8>::empty());
        assert(split(all.skip(total as int), level as int) =~= Seq::<Seq<u8>>::empty());
        assert(done + Seq::<Seq<u8>>::empty() =~= done);
    }
    write_stream_footer(&mut output, crc);
    proof {
        assert(output.bits() =~= stream_bits(all, level as int));
    }
    let bytes = output.close();
    proof {
        lemma_round_trip(all, level as int, bytes@);
    }
    (bytes, consumed)
}

} // verus!
