//! The bzip2 block checksum: CRC-32 with polynomial 0x04C11DB7, fed most
//! significant bit first, starting from all ones and complemented at the end.

use vstd::prelude::*;

verus! {

/// The generator polynomial, without its leading term.
pub const POLY: u32 = 0x04C1_1DB7;

/// One shift of the register: the top bit leaves, and the polynomial is
/// added if it was set.
pub open spec fn shift_one(reg: u32) -> u32 {
    if reg & 0x8000_0000 != 0 {
        (reg << 1) ^ POLY
    } else {
        reg << 1
    }
}

/// `n` shifts of the register.
pub open spec fn shift_n(reg: u32, n: nat) -> u32
    decreases n,
{
    if n == 0 {
        reg
    } else {
        shift_n(shift_one(reg), (n - 1) as nat)
    }
}

/// The register after a byte was fed in.
pub open spec fn feed(reg: u32, b: u8) -> u32 {
    shift_n(reg ^ ((b as u32) << 24), 8)
}

/// The register after a byte string was fed in.
pub open spec fn register(bytes: Seq<u8>) -> u32
    decreases bytes.len(),
{
    if bytes.len() == 0 {
        0xFFFF_FFFF
    } else {
        feed(register(bytes.drop_last()), bytes.last())
    }
}

/// The checksum of a byte string.
pub open spec fn crc32(bytes: Seq<u8>) -> u32 {
    register(bytes) ^ 0xFFFF_FFFF
}

/// Entry `i` of the lookup table: what eight shifts make of byte `i` at the
/// top of an empty register.
pub open spec fn table_entry(i: int) -> u32 {
    shift_n(((i as u32) << 24), 8)
}

proof fn lemma_shift_one_linear(x: u32, y: u32)
    ensures
        shift_one(x ^ y) == shift_one(x) ^ shift_one(y),
{
    let p: u32 = POLY;
    assert((if (x ^ y) & 0x8000_0000 != 0 {
        ((x ^ y) << 1) ^ p
    } else {
        (x ^ y) << 1
    }) == (if x & 0x8000_0000 != 0 {
        (x << 1) ^ p
    } else {
        x << 1
    }) ^ (if y & 0x8000_0000 != 0 {
        (y << 1) ^ p
    } else {
        y << 1
    })) by (bit_vector);
}

proof fn lemma_shift_n_linear(x: u32, y: u32, n: nat)
    ensures
        shift_n(x ^ y, n) == shift_n(x, n) ^ shift_n(y, n),
    decreases n,
{
    if n > 0 {
        lemma_shift_one_linear(x, y);
        lemma_shift_n_linear(shift_one(x), shift_one(y), (n - 1) as nat);
    }
}

/// A register whose top `n` bits are clear is only moved by `n` shifts.
proof fn lemma_shift_n_clear(v: u32, n: nat)
    requires
        n <= 8,
        v >> ((32 - n) as u32) == 0,
    ensures
        shift_n(v, n) == v << (n as u32),
    decreases n,
{
    let k: u32 = n as u32;
    if n == 0 {
        assert(v << 0u32 == v) by (bit_vector);
    } else {
        let k1: u32 = (n - 1) as u32;
        let up: u32 = (32 - n) as u32;
        let up1: u32 = (32 - (n - 1)) as u32;
        assert(v & 0x8000_0000 == 0 && (v << 1u32) >> up1 == 0 && (v << 1u32) << k1 == v << k)
            by (bit_vector)
            requires
                1 <= k <= 8,
                k1 == k - 1,
                up == 32 - k,
                up1 == 33 - k,
                v >> up == 0,
        ;
        lemma_shift_n_clear(v << 1u32, (n - 1) as nat);
    }
}

/// Feeding a byte is one table lookup: the register's top byte, combined
/// with the byte fed, picks the entry, which is added to the rest of the
/// register moved up.
proof fn lemma_feed_by_table(reg: u32, b: u8)
    ensures
        ((reg >> 24) ^ (b as u32)) < 256,
        feed(reg, b) == table_entry(((reg >> 24) ^ (b as u32)) as int) ^ (reg << 8),
{
    let b32 = b as u32;
    let idx: u32 = (reg >> 24) ^ b32;
    let hi: u32 = idx << 24;
    let lo: u32 = reg & 0x00FF_FFFF;
    assert(idx < 256 && reg ^ (b32 << 24) == hi ^ lo && lo >> 24u32 == 0 && lo << 8u32 == reg << 8)
        by (bit_vector)
        requires
            b32 < 256,
            idx == (reg >> 24) ^ b32,
            hi == idx << 24,
            lo == reg & 0x00FF_FFFF,
    ;
    lemma_shift_n_linear(hi, lo, 8);
    lemma_shift_n_clear(lo, 8);
}

/// The lookup table.
fn build_table() -> (table: Vec<u32>)
    ensures
        table@.len() == 256,
        forall|i: int| 0 <= i < 256 ==> #[trigger] table@[i] == table_entry(i),
{
    let mut table: Vec<u32> = Vec::new();
    let mut i: u32 = 0;
    while i < 256
        invariant
            i <= 256,
            table@.len() == i,
            forall|j: int| 0 <= j < i ==> #[trigger] table@[j] == table_entry(j),
        decreases 256 - i,
    {
        let mut reg: u32 = i << 24;
        let mut k: u32 = 0;
        while k < 8
            invariant
                k <= 8,
                shift_n(reg, (8 - k) as nat) == table_entry(i as int),
            decreases 8 - k,
        {
            reg = if reg & 0x8000_0000 != 0 {
                (reg << 1) ^ POLY
            } else {
                reg << 1
            };
            k += 1;
        }
        table.push(reg);
        i += 1;
    }
    table
}

/// The checksum of `bytes`.
pub fn checksum(bytes: &Vec<u8>) -> (crc: u32)
    ensures
        crc == crc32(bytes@),
{
    let table = build_table();
    let mut reg: u32 = 0xFFFF_FFFF;
    let n: usize = bytes.len();
    let mut i: usize = 0;
    assert(bytes@.take(0) =~= Seq::<u8>::empty());
    while i < n
        invariant
            i <= n,
            n == bytes@.len(),
            table@.len() == 256,
            forall|j: int| 0 <= j < 256 ==> #[trigger] table@[j] == table_entry(j),
            reg == register(bytes@.take(i as int)),
        decreases n - i,
    {
        let b: u8 = bytes[i];
        proof {
            lemma_feed_by_table(reg, b);
            assert(bytes@.take(i + 1).drop_last() =~= bytes@.take(i as int));
        }
        let idx: u32 = (reg >> 24) ^ (b as u32);
        reg = table[idx as usize] ^ (reg << 8);
        i += 1;
    }
    assert(bytes@.take(n as int) =~= bytes@);
    reg ^ 0xFFFF_FFFF
}

/// The checksum of a stream up to and including a block with checksum
/// `block_crc`, the stream before the block having `stream_crc`: the old
/// value turned left by one bit, with the block's added.
pub open spec fn folded(stream_crc: u32, block_crc: u32) -> u32 {
    block_crc ^ ((stream_crc << 1) | (stream_crc >> 31))
}

/// The checksum of a stream whose blocks have the checksums `crcs`.
pub open spec fn stream_crc(crcs: Seq<u32>) -> u32
    decreases crcs.len(),
{
    if crcs.len() == 0 {
        0
    } else {
        folded(stream_crc(crcs.drop_last()), crcs.last())
    }
}

/// Folds a block's checksum into the stream's.
pub fn fold(stream_crc: u32, block_crc: u32) -> (crc: u32)
    ensures
        crc == folded(stream_crc, block_crc),
{
    block_crc ^ ((stream_crc << 1) | (stream_crc >> 31))
}

} // verus!
