//! What a stream stands for, and why compressing loses nothing: the stream
//! is read field by field, as the format lays it out, and every stage of a
//! block is undone; read in this way, the stream that `encode` makes of an
//! input stands for that input.

use crate::bwt::{doubled, is_rotation_order, last_column, marks, rotation_order};
use crate::codes::{codeword, lemma_prefix_free};
use crate::crc32::{crc32, folded, stream_crc};
use crate::frame::{
    block_header_bits, block_in_stream, block_len, block_symbols, blocks_in_stream, checksums,
    coded_block_bits, counts, in_sector, primary_index, sector_bits, sector_used, split,
    stream_bits, stream_footer_bits, stream_header_bits, sym_map_bits, MAX_BLOCK,
};
use crate::huffman::{
    all_table_bits, as_ints, body_bits, coded_bits, delta_bits, deltas, final_selectors,
    final_tables, selector_bits, table_bits, unary,
};
use crate::kraft::{codable, lemma_code_lengths, lemma_code_lengths_range};
use crate::mtf::{
    lemma_mtf_decodes, lemma_names_below_bounds, lemma_names_below_mono,
    lemma_place_bounds, lemma_places_decode, lemma_recency_complete, lemma_run_code,
    lemma_settled, moved, names_below, names_of, place, places, recency_after,
    symbols, unmtf, zeros_at_end,
};
use crate::out::{bit, bits_of, byte_bits, lemma_bits_split, padding, zero_bits};
use crate::queue::{MAX_FREQ, MAX_SYMS};
use crate::rle::{
    block_room, is_block_len, lemma_grows, lemma_rle1_decodes, lemma_step, rle1, unrle1,
};
use crate::suffix::{
    is_sorted_order, lemma_total, lemma_transitive, lists, suffix_less,
};
use crate::tables::{
    best, initial_tables, rebuilt, rebuilt_table, refined, segment_count, segment_end, selector,
    selectors, share, shares, symbols_below, table_count, SEGMENT_WIDTH,
};
use crate::tree::code_lengths;
use crate::unbwt::{count, lemma_count_prefix, lemma_unbwt, unbwt};
use vstd::prelude::*;

verus! {

/// The parts, one after another.
pub open spec fn flat(parts: Seq<Seq<bool>>) -> Seq<bool>
    decreases parts.len(),
{
    if parts.len() == 0 {
        Seq::empty()
    } else {
        flat(parts.drop_last()) + parts.last()
    }
}

/// The parts, one after another, are the first and then the rest.
pub proof fn lemma_flat_front(parts: Seq<Seq<bool>>)
    requires
        parts.len() > 0,
    ensures
        flat(parts) == parts[0] + flat(parts.skip(1)),
    decreases parts.len(),
{
    if parts.len() == 1 {
        assert(parts.drop_last() =~= Seq::<Seq<bool>>::empty());
        assert(parts.skip(1) =~= Seq::<Seq<bool>>::empty());
        assert(flat(parts) =~= parts[0] + flat(parts.skip(1)));
    } else {
        lemma_flat_front(parts.drop_last());
        assert(parts.skip(1).drop_last() =~= parts.drop_last().skip(1));
        assert(flat(parts) =~= parts[0] + flat(parts.skip(1)));
    }
}

/// The parts from `i` on are part `i` and then those from `i + 1` on.
pub proof fn lemma_flat_from(parts: Seq<Seq<bool>>, i: int)
    requires
        0 <= i < parts.len(),
    ensures
        flat(parts.skip(i)) == parts[i] + flat(parts.skip(i + 1)),
{
    lemma_flat_front(parts.skip(i));
    assert(parts.skip(i).skip(1) =~= parts.skip(i + 1));
}

/// The number that the first `k` bits stand for, most significant first.
pub open spec fn number(bits: Seq<bool>, k: int) -> int
    decreases k,
{
    if k <= 0 {
        0
    } else {
        2 * number(bits, k - 1) + if bits[k - 1] {
            1int
        } else {
            0int
        }
    }
}

/// A number depends on its bits only.
pub proof fn lemma_number_local(a: Seq<bool>, b: Seq<bool>, k: int)
    requires
        0 <= k <= a.len(),
        k <= b.len(),
        forall|j: int| 0 <= j < k ==> a[j] == b[j],
    ensures
        number(a, k) == number(b, k),
    decreases k,
{
    if k > 0 {
        lemma_number_local(a, b, k - 1);
    }
}

/// The bits of a number of up to 32 bits stand for the number.
pub proof fn lemma_number_of_word(v: u32, k: int, rest: Seq<bool>)
    requires
        0 <= k <= 32,
        k < 32 ==> v < two_to_wide(k),
    ensures
        number(bits_of(v, k) + rest, k) == v,
    decreases k,
{
    if k > 0 {
        let half: u32 = v >> 1u32;
        lemma_bits_split(v, k - 1, 1);
        let whole = bits_of(v, k);
        assert(whole[k - 1] == bit(v, 0));
        assert(2 * half <= v && v <= 2 * half + 1 && ((v >> 0u32) & 1 == 1 <==> v == 2 * half + 1))
            by (bit_vector)
            requires
                half == v >> 1u32,
        ;
        assert(half <= 0x7FFF_FFFF) by (bit_vector)
            requires
                half == v >> 1u32,
        ;
        if k == 32 {
            reveal_with_fuel(two_to_wide, 33);
            assert(two_to_wide(31) == 0x8000_0000);
        }
        lemma_number_of_word(half, k - 1, Seq::empty());
        lemma_number_local(whole + rest, bits_of(half, k - 1) + Seq::<bool>::empty(), k - 1);
    }
}

/// Two to the power `e`, for the widths of the fields.
pub open spec fn two_to_wide(e: int) -> int
    decreases e,
{
    if e <= 0 {
        1
    } else {
        2 * two_to_wide(e - 1)
    }
}

/// How many ones begin the bits, if a zero follows them.
pub open spec fn ones(bits: Seq<bool>) -> Option<int>
    decreases bits.len(),
{
    if bits.len() == 0 {
        None
    } else if !bits[0] {
        Some(0)
    } else {
        match ones(bits.skip(1)) {
            None => None,
            Some(r) => Some(r + 1),
        }
    }
}

/// So many ones and a zero are read as their number.
pub proof fn lemma_ones(r: int, rest: Seq<bool>)
    requires
        0 <= r,
    ensures
        ones(unary(r) + rest) == Some(r),
        (unary(r) + rest).skip(r + 1) == rest,
    decreases r,
{
    let bits = unary(r) + rest;
    assert(bits.skip(r + 1) =~= rest);
    if r > 0 {
        assert(bits[0]);
        assert(bits.skip(1) =~= unary(r - 1) + rest);
        lemma_ones(r - 1, rest);
    } else {
        assert(!bits[0]);
    }
}

/// The length that the steps at the front of the bits lead to from length
/// `from`, and the bits behind the steps: `10` is a step up, `11` a step
/// down, `0` the end.
pub open spec fn stepped(bits: Seq<bool>, from: int) -> Option<(int, Seq<bool>)>
    decreases bits.len(),
{
    if bits.len() == 0 {
        None
    } else if !bits[0] {
        Some((from, bits.skip(1)))
    } else if bits.len() < 2 {
        None
    } else if !bits[1] {
        stepped(bits.skip(2), from + 1)
    } else {
        stepped(bits.skip(2), from - 1)
    }
}

/// The steps from one length to another are read as leading there.
pub proof fn lemma_stepped(from: int, to: int, rest: Seq<bool>)
    ensures
        stepped(delta_bits(from, to) + rest, from) == Some((to, rest)),
    decreases
            if from < to {
                to - from
            } else {
                from - to
            },
{
    let bits = delta_bits(from, to) + rest;
    if from < to {
        assert(bits[0] && !bits[1]);
        assert(bits.skip(2) =~= delta_bits(from + 1, to) + rest);
        lemma_stepped(from + 1, to, rest);
    } else if from > to {
        assert(bits[0] && bits[1]);
        assert(bits.skip(2) =~= delta_bits(from - 1, to) + rest);
        lemma_stepped(from - 1, to, rest);
    } else {
        assert(!bits[0]);
        assert(bits.skip(1) =~= rest);
    }
}

/// The marks of the byte values of the sectors from `a` on, read from the
/// bits, and the bits behind them: a sector whose flag is set has sixteen
/// bits, the others have no byte value marked.
pub open spec fn read_sectors(flags: Seq<bool>, bits: Seq<bool>, a: int) -> Option<
    (Seq<bool>, Seq<bool>),
>
    decreases 16 - a,
{
    if a >= 16 {
        Some((Seq::empty(), bits))
    } else if flags[a] {
        if bits.len() < 16 {
            None
        } else {
            match read_sectors(flags, bits.skip(16), a + 1) {
                None => None,
                Some(r) => Some((bits.take(16) + r.0, r.1)),
            }
        }
    } else {
        match read_sectors(flags, bits, a + 1) {
            None => None,
            Some(r) => Some((Seq::new(16, |b: int| false) + r.0, r.1)),
        }
    }
}

/// The symbol map at the front of the bits, and the bits behind it.
pub open spec fn read_map(bits: Seq<bool>) -> Option<(Seq<bool>, Seq<bool>)> {
    if bits.len() < 16 {
        None
    } else {
        read_sectors(bits.take(16), bits.skip(16), 0)
    }
}

/// The bits of each sector in the symbol map.
pub open spec fn sector_parts(has_byte: Seq<bool>) -> Seq<Seq<bool>> {
    Seq::new(
        16,
        |a: int|
            if sector_used(has_byte, a) {
                Seq::new(16, |b: int| has_byte[16 * a + b])
            } else {
                Seq::empty()
            },
    )
}

proof fn lemma_sector_bits(has_byte: Seq<bool>, upto: int)
    requires
        0 <= upto <= 16,
    ensures
        sector_bits(has_byte, upto) == flat(sector_parts(has_byte).take(upto)),
    decreases upto,
{
    let parts = sector_parts(has_byte);
    if upto > 0 {
        lemma_sector_bits(has_byte, upto - 1);
        assert(parts.take(upto).drop_last() =~= parts.take(upto - 1));
    } else {
        assert(parts.take(0) =~= Seq::<Seq<bool>>::empty());
    }
}

proof fn lemma_read_sectors(has_byte: Seq<bool>, rest: Seq<bool>, a: int)
    requires
        has_byte.len() == 256,
        0 <= a <= 16,
    ensures
        read_sectors(
            Seq::new(16, |a: int| sector_used(has_byte, a)),
            flat(sector_parts(has_byte).skip(a)) + rest,
            a,
        ) == Some((has_byte.skip(16 * a), rest)),
    decreases 16 - a,
{
    let flags = Seq::new(16, |a: int| sector_used(has_byte, a));
    let parts = sector_parts(has_byte);
    let bits = flat(parts.skip(a)) + rest;
    if a < 16 {
        lemma_flat_from(parts, a);
        lemma_read_sectors(has_byte, rest, a + 1);
        let tail = flat(parts.skip(a + 1)) + rest;
        if sector_used(has_byte, a) {
            assert(bits =~= parts[a] + tail);
            assert(bits.skip(16) =~= tail);
            assert(bits.take(16) =~= parts[a]);
            assert(parts[a] + has_byte.skip(16 * (a + 1)) =~= has_byte.skip(16 * a));
        } else {
            assert(bits =~= tail);
            let blank = Seq::new(16, |b: int| false) + has_byte.skip(16 * (a + 1));
            let want = has_byte.skip(16 * a);
            assert(blank.len() == want.len());
            assert forall|b: int| 0 <= b < blank.len() implies blank[b] == want[b] by {
                if b < 16 {
                    assert(!in_sector(has_byte, a, b));
                }
            }
            assert(blank =~= want);
        }
    } else {
        assert(parts.skip(16) =~= Seq::<Seq<bool>>::empty());
        assert(bits =~= rest);
        assert(has_byte.skip(256) =~= Seq::<bool>::empty());
    }
}

/// The symbol map is read as the marks it was made of.
pub proof fn lemma_read_map(has_byte: Seq<bool>, rest: Seq<bool>)
    requires
        has_byte.len() == 256,
    ensures
        read_map(sym_map_bits(has_byte) + rest) == Some((has_byte, rest)),
{
    let flags = Seq::new(16, |a: int| sector_used(has_byte, a));
    let bits = sym_map_bits(has_byte) + rest;
    lemma_sector_bits(has_byte, 16);
    let parts = sector_parts(has_byte);
    assert(parts.take(16) =~= parts);
    assert(parts.skip(0) =~= parts);
    assert(bits.take(16) =~= flags);
    assert(bits.skip(16) =~= flat(parts.skip(0)) + rest);
    lemma_read_sectors(has_byte, rest, 0);
    assert(has_byte.skip(0) =~= has_byte);
}

/// The `count` selectors at the front of the bits, and the bits behind
/// them: each is written in unary as its place in the recency `list`.
pub open spec fn read_selectors(bits: Seq<bool>, list: Seq<int>, count: int) -> Option<
    (Seq<int>, Seq<bool>),
>
    decreases count,
{
    if count <= 0 {
        Some((Seq::empty(), bits))
    } else {
        match ones(bits) {
            None => None,
            Some(r) => if r >= list.len() {
                None
            } else {
                match read_selectors(bits.skip(r + 1), moved(list, list[r]), count - 1) {
                    None => None,
                    Some(more) => Some((seq![list[r]] + more.0, more.1)),
                }
            },
        }
    }
}

/// The bits of each selector.
pub open spec fn selector_parts(sels: Seq<int>, tables: int) -> Seq<Seq<bool>> {
    Seq::new(
        sels.len(),
        |i: int| unary(place(recency_after(sels.take(i), tables), sels[i])),
    )
}

proof fn lemma_selector_bits(sels: Seq<int>, tables: int)
    ensures
        selector_bits(sels, tables) == flat(selector_parts(sels, tables)),
    decreases sels.len(),
{
    let parts = selector_parts(sels, tables);
    if sels.len() > 0 {
        let before = sels.drop_last();
        lemma_selector_bits(before, tables);
        assert forall|i: int| 0 <= i < before.len() implies parts.drop_last()[i]
            == selector_parts(before, tables)[i] by {
            assert(before.take(i) =~= sels.take(i));
        }
        assert(parts.drop_last() =~= selector_parts(before, tables));
        assert(sels.take(sels.len() - 1) =~= before);
    } else {
        assert(parts =~= Seq::<Seq<bool>>::empty());
    }
}

proof fn lemma_read_selectors_from(sels: Seq<int>, tables: int, rest: Seq<bool>, i: int)
    requires
        0 <= i <= sels.len(),
        0 <= tables,
        forall|j: int| 0 <= j < sels.len() ==> 0 <= #[trigger] sels[j] < tables,
    ensures
        read_selectors(
            flat(selector_parts(sels, tables).skip(i)) + rest,
            recency_after(sels.take(i), tables),
            sels.len() - i,
        ) == Some((sels.skip(i), rest)),
    decreases sels.len() - i,
{
    let parts = selector_parts(sels, tables);
    let bits = flat(parts.skip(i)) + rest;
    let list = recency_after(sels.take(i), tables);
    if i < sels.len() {
        lemma_flat_from(parts, i);
        assert forall|j: int| 0 <= j < sels.take(i).len() implies 0 <= #[trigger] sels.take(i)[j]
            < tables by {
            assert(sels[j] < tables);
        }
        lemma_recency_complete(sels.take(i), tables);
        lemma_place_bounds(list, sels[i]);
        assert(list.contains(sels[i]));
        let r = place(list, sels[i]);
        let tail = flat(parts.skip(i + 1)) + rest;
        assert(bits =~= unary(r) + tail);
        lemma_ones(r, tail);
        assert(sels.take(i + 1).drop_last() =~= sels.take(i));
        assert(recency_after(sels.take(i + 1), tables) == moved(list, sels[i]));
        lemma_read_selectors_from(sels, tables, rest, i + 1);
        assert(seq![sels[i]] + sels.skip(i + 1) =~= sels.skip(i));
    } else {
        assert(parts.skip(i) =~= Seq::<Seq<bool>>::empty());
        assert(bits =~= rest);
        assert(sels.skip(i) =~= Seq::<int>::empty());
    }
}

/// The list of the tables before any selector has gone by.
pub open spec fn first_list(tables: int) -> Seq<int> {
    Seq::new(tables as nat, |i: int| i)
}

/// The selectors are read as they were written.
pub proof fn lemma_read_selectors(sels: Seq<int>, tables: int, rest: Seq<bool>)
    requires
        0 <= tables,
        forall|j: int| 0 <= j < sels.len() ==> 0 <= #[trigger] sels[j] < tables,
    ensures
        read_selectors(selector_bits(sels, tables) + rest, first_list(tables), sels.len() as int)
            == Some((sels, rest)),
{
    lemma_selector_bits(sels, tables);
    lemma_read_selectors_from(sels, tables, rest, 0);
    assert(selector_parts(sels, tables).skip(0) =~= selector_parts(sels, tables));
    assert(sels.take(0) =~= Seq::<int>::empty());
    assert(sels.skip(0) =~= sels);
    assert(recency_after(Seq::<int>::empty(), tables) =~= first_list(tables));
}

/// The `count` lengths at the front of the bits that the steps lead to one
/// after another from length `from`, and the bits behind them.
pub open spec fn read_lengths(bits: Seq<bool>, from: int, count: int) -> Option<
    (Seq<u8>, Seq<bool>),
>
    decreases count,
{
    if count <= 0 {
        Some((Seq::empty(), bits))
    } else {
        match stepped(bits, from) {
            None => None,
            Some(step) => if step.0 < 0 || step.0 > 255 {
                None
            } else {
                match read_lengths(step.1, step.0, count - 1) {
                    None => None,
                    Some(more) => Some((seq![step.0 as u8] + more.0, more.1)),
                }
            },
        }
    }
}

/// The table of `n` lengths at the front of the bits, and the bits behind
/// it: the first length in five bits, then the steps.
pub open spec fn read_table(bits: Seq<bool>, n: int) -> Option<(Seq<u8>, Seq<bool>)> {
    if bits.len() < 5 {
        None
    } else {
        read_lengths(bits.skip(5), number(bits, 5), n)
    }
}

/// The length that the step to symbol `s` starts from.
pub open spec fn length_before(table: Seq<u8>, s: int) -> int {
    if s == 0 {
        table[0] as int
    } else {
        table[s - 1] as int
    }
}

/// The bits of the step to each symbol.
pub open spec fn delta_parts(table: Seq<u8>) -> Seq<Seq<bool>> {
    Seq::new(table.len(), |s: int| delta_bits(length_before(table, s), table[s] as int))
}

proof fn lemma_deltas(table: Seq<u8>, upto: int)
    requires
        0 <= upto <= table.len(),
    ensures
        deltas(table, upto) == flat(delta_parts(table).take(upto)),
    decreases upto,
{
    let parts = delta_parts(table);
    if upto > 0 {
        lemma_deltas(table, upto - 1);
        assert(parts.take(upto).drop_last() =~= parts.take(upto - 1));
    } else {
        assert(parts.take(0) =~= Seq::<Seq<bool>>::empty());
    }
}

proof fn lemma_read_lengths_from(table: Seq<u8>, rest: Seq<bool>, s: int)
    requires
        0 <= s <= table.len(),
        table.len() > 0,
    ensures
        read_lengths(
            flat(delta_parts(table).skip(s)) + rest,
            length_before(table, s),
            table.len() - s,
        ) == Some((table.skip(s), rest)),
    decreases table.len() - s,
{
    let parts = delta_parts(table);
    let bits = flat(parts.skip(s)) + rest;
    if s < table.len() {
        lemma_flat_from(parts, s);
        let tail = flat(parts.skip(s + 1)) + rest;
        assert(bits =~= delta_bits(length_before(table, s), table[s] as int) + tail);
        lemma_stepped(length_before(table, s), table[s] as int, tail);
        lemma_read_lengths_from(table, rest, s + 1);
        assert(seq![table[s]] + table.skip(s + 1) =~= table.skip(s));
    } else {
        assert(parts.skip(s) =~= Seq::<Seq<bool>>::empty());
        assert(bits =~= rest);
        assert(table.skip(s) =~= Seq::<u8>::empty());
    }
}

/// A table is read as it was written.
pub proof fn lemma_read_table(table: Seq<u8>, rest: Seq<bool>)
    requires
        table.len() > 0,
        table[0] <= 17,
    ensures
        read_table(table_bits(table) + rest, table.len() as int) == Some((table, rest)),
{
    let bits = table_bits(table) + rest;
    let n = table.len() as int;
    lemma_deltas(table, n);
    let parts = delta_parts(table);
    assert(parts.take(n) =~= parts);
    assert(parts.skip(0) =~= parts);
    let tail = flat(parts.skip(0)) + rest;
    assert(bits =~= bits_of(table[0] as u32, 5) + tail);
    reveal_with_fuel(two_to_wide, 6);
    lemma_number_of_word(table[0] as u32, 5, tail);
    assert(bits.skip(5) =~= tail);
    lemma_read_lengths_from(table, rest, 0);
    assert(table.skip(0) =~= table);
}

/// The `count` tables of `n` lengths at the front of the bits, and the bits
/// behind them.
pub open spec fn read_tables(bits: Seq<bool>, n: int, count: int) -> Option<
    (Seq<Seq<u8>>, Seq<bool>),
>
    decreases count,
{
    if count <= 0 {
        Some((Seq::empty(), bits))
    } else {
        match read_table(bits, n) {
            None => None,
            Some(first) => match read_tables(first.1, n, count - 1) {
                None => None,
                Some(more) => Some((seq![first.0] + more.0, more.1)),
            },
        }
    }
}

/// The bits of each table.
pub open spec fn table_parts(tables: Seq<Seq<u8>>) -> Seq<Seq<bool>> {
    Seq::new(tables.len(), |t: int| table_bits(tables[t]))
}

proof fn lemma_all_table_bits(tables: Seq<Seq<u8>>, upto: int)
    requires
        0 <= upto <= tables.len(),
    ensures
        all_table_bits(tables, upto) == flat(table_parts(tables).take(upto)),
    decreases upto,
{
    let parts = table_parts(tables);
    if upto > 0 {
        lemma_all_table_bits(tables, upto - 1);
        assert(parts.take(upto).drop_last() =~= parts.take(upto - 1));
    } else {
        assert(parts.take(0) =~= Seq::<Seq<bool>>::empty());
    }
}

proof fn lemma_read_tables_from(tables: Seq<Seq<u8>>, n: int, rest: Seq<bool>, t: int)
    requires
        0 <= t <= tables.len(),
        n > 0,
        forall|u: int| 0 <= u < tables.len() ==> (#[trigger] tables[u]).len() == n && tables[u][0]
            <= 17,
    ensures
        read_tables(flat(table_parts(tables).skip(t)) + rest, n, tables.len() - t) == Some(
            (tables.skip(t), rest),
        ),
    decreases tables.len() - t,
{
    let parts = table_parts(tables);
    let bits = flat(parts.skip(t)) + rest;
    if t < tables.len() {
        lemma_flat_from(parts, t);
        let tail = flat(parts.skip(t + 1)) + rest;
        assert(bits =~= table_bits(tables[t]) + tail);
        lemma_read_table(tables[t], tail);
        lemma_read_tables_from(tables, n, rest, t + 1);
        assert(seq![tables[t]] + tables.skip(t + 1) =~= tables.skip(t));
    } else {
        assert(parts.skip(t) =~= Seq::<Seq<bool>>::empty());
        assert(bits =~= rest);
        assert(tables.skip(t) =~= Seq::<Seq<u8>>::empty());
    }
}

/// The tables are read as they were written.
pub proof fn lemma_read_tables(tables: Seq<Seq<u8>>, n: int, rest: Seq<bool>)
    requires
        n > 0,
        forall|u: int| 0 <= u < tables.len() ==> (#[trigger] tables[u]).len() == n && tables[u][0]
            <= 17,
    ensures
        read_tables(all_table_bits(tables, tables.len() as int) + rest, n, tables.len() as int)
            == Some((tables, rest)),
{
    lemma_all_table_bits(tables, tables.len() as int);
    let parts = table_parts(tables);
    assert(parts.take(tables.len() as int) =~= parts);
    assert(parts.skip(0) =~= parts);
    lemma_read_tables_from(tables, n, rest, 0);
    assert(tables.skip(0) =~= tables);
}

/// Whether the codeword of symbol `s` begins the bits.
pub open spec fn begins(table: Seq<u8>, s: int, bits: Seq<bool>) -> bool {
    0 <= s < table.len() && codeword(table, s).is_prefix_of(bits)
}

/// The symbol whose codeword begins the bits.
pub open spec fn symbol_at(table: Seq<u8>, bits: Seq<bool>) -> int {
    choose|s: int| begins(table, s, bits)
}

/// The symbols at the front of the bits up to the end mark `eob`, the
/// first of them being symbol `i` of its block, and the bits behind them:
/// each codeword is read under the table that the selector of its segment
/// names.
pub open spec fn read_body(
    tables: Seq<Seq<u8>>,
    sels: Seq<int>,
    bits: Seq<bool>,
    i: int,
    eob: int,
) -> Option<(Seq<u16>, Seq<bool>)>
    decreases bits.len(),
{
    let g = i / (SEGMENT_WIDTH as int);
    if i < 0 || g >= sels.len() || sels[g] < 0 || sels[g] >= tables.len() {
        None
    } else {
        let table = tables[sels[g]];
        let s = symbol_at(table, bits);
        if !begins(table, s, bits) || table[s] < 1 || s > 0xFFFF {
            None
        } else if s == eob {
            Some((seq![s as u16], bits.skip(table[s] as int)))
        } else {
            match read_body(tables, sels, bits.skip(table[s] as int), i + 1, eob) {
                None => None,
                Some(more) => Some((seq![s as u16] + more.0, more.1)),
            }
        }
    }
}

/// The codeword at the front of the bits is read as its symbol.
pub proof fn lemma_symbol_at(table: Seq<u8>, s: int, rest: Seq<bool>)
    requires
        codable(table),
        0 <= s < table.len(),
    ensures
        symbol_at(table, codeword(table, s) + rest) == s,
        (codeword(table, s) + rest).skip(table[s] as int) == rest,
        begins(table, s, codeword(table, s) + rest),
{
    let bits = codeword(table, s) + rest;
    assert(bits.skip(table[s] as int) =~= rest);
    assert(bits.take(table[s] as int) =~= codeword(table, s));
    assert(begins(table, s, bits));
    let other = symbol_at(table, bits);
    assert(begins(table, other, bits));
    if other != s {
        let a = codeword(table, s);
        let b = codeword(table, other);
        if a.len() <= b.len() {
            assert(b.take(a.len() as int) =~= bits.take(b.len() as int).take(a.len() as int));
            assert(b.take(a.len() as int) =~= a);
            lemma_prefix_free(table, s, other);
        } else {
            assert(a.take(b.len() as int) =~= bits.take(a.len() as int).take(b.len() as int));
            assert(a.take(b.len() as int) =~= b);
            lemma_prefix_free(table, other, s);
        }
    }
}

/// The codeword of each symbol of the input.
pub open spec fn body_parts(tables: Seq<Seq<u8>>, sels: Seq<usize>, input: Seq<u16>) -> Seq<
    Seq<bool>,
> {
    Seq::new(
        input.len(),
        |i: int| codeword(tables[sels[i / (SEGMENT_WIDTH as int)] as int], input[i] as int),
    )
}

proof fn lemma_body_bits(tables: Seq<Seq<u8>>, sels: Seq<usize>, input: Seq<u16>, upto: int)
    requires
        0 <= upto <= input.len(),
    ensures
        body_bits(tables, sels, input, upto) == flat(body_parts(tables, sels, input).take(upto)),
    decreases upto,
{
    let parts = body_parts(tables, sels, input);
    if upto > 0 {
        lemma_body_bits(tables, sels, input, upto - 1);
        assert(parts.take(upto).drop_last() =~= parts.take(upto - 1));
    } else {
        assert(parts.take(0) =~= Seq::<Seq<bool>>::empty());
    }
}

/// Tables and selectors that can code the input: every table gives each of
/// the `n` symbols a length that a prefix code can meet, and every segment
/// has a selector that names a table.
pub open spec fn can_code(tables: Seq<Seq<u8>>, sels: Seq<usize>, input: Seq<u16>, n: int) -> bool {
    &&& 2 <= n <= MAX_SYMS
    &&& symbols_below(input, n)
    &&& sels.len() == segment_count(input.len() as int)
    &&& forall|g: int| 0 <= g < sels.len() ==> #[trigger] sels[g] < tables.len()
    &&& forall|t: int| 0 <= t < tables.len() ==> (#[trigger] tables[t]).len() == n && codable(tables[t])
}

proof fn lemma_read_body_from(
    tables: Seq<Seq<u8>>,
    sels: Seq<usize>,
    input: Seq<u16>,
    n: int,
    rest: Seq<bool>,
    i: int,
)
    requires
        can_code(tables, sels, input, n),
        0 <= i < input.len(),
        input.last() == n - 1,
        forall|j: int| 0 <= j < input.len() - 1 ==> #[trigger] input[j] != n - 1,
    ensures
        read_body(
            tables,
            as_ints(sels),
            flat(body_parts(tables, sels, input).skip(i)) + rest,
            i,
            n - 1,
        ) == Some((input.skip(i), rest)),
    decreases input.len() - i,
{
    let parts = body_parts(tables, sels, input);
    let bits = flat(parts.skip(i)) + rest;
    let g = i / (SEGMENT_WIDTH as int);
    assert(0 <= g < segment_count(input.len() as int));
    assert(sels[g] < tables.len());
    let table = tables[sels[g] as int];
    let s = input[i] as int;
    lemma_flat_from(parts, i);
    let tail = flat(parts.skip(i + 1)) + rest;
    assert(bits =~= codeword(table, s) + tail);
    lemma_symbol_at(table, s, tail);
    if i < input.len() - 1 {
        lemma_read_body_from(tables, sels, input, n, rest, i + 1);
        assert(seq![input[i]] + input.skip(i + 1) =~= input.skip(i));
    } else {
        assert(parts.skip(i + 1) =~= Seq::<Seq<bool>>::empty());
        assert(tail =~= rest);
        assert(input.skip(i) =~= seq![input[i]]);
    }
}

/// The codewords of a block of symbols that ends with the end mark, and
/// holds it nowhere else, are read as the symbols.
pub proof fn lemma_read_body(
    tables: Seq<Seq<u8>>,
    sels: Seq<usize>,
    input: Seq<u16>,
    n: int,
    rest: Seq<bool>,
)
    requires
        can_code(tables, sels, input, n),
        input.len() > 0,
        input.last() == n - 1,
        forall|j: int| 0 <= j < input.len() - 1 ==> #[trigger] input[j] != n - 1,
    ensures
        read_body(
            tables,
            as_ints(sels),
            body_bits(tables, sels, input, input.len() as int) + rest,
            0,
            n - 1,
        ) == Some((input, rest)),
{
    lemma_body_bits(tables, sels, input, input.len() as int);
    let parts = body_parts(tables, sels, input);
    assert(parts.take(input.len() as int) =~= parts);
    assert(parts.skip(0) =~= parts);
    lemma_read_body_from(tables, sels, input, n, rest, 0);
    assert(input.skip(0) =~= input);
}

/// A block of symbols in coded form, read from the front of the bits, with
/// `n` symbols in its alphabet, and the bits behind it: the number of
/// tables in three bits, the number of selectors in fifteen, the
/// selectors, the tables, the codewords up to the end mark.
pub open spec fn read_coding(bits: Seq<bool>, n: int) -> Option<(Seq<u16>, Seq<bool>)> {
    if bits.len() < 18 {
        None
    } else {
        let tables = number(bits, 3);
        let count = number(bits.skip(3), 15);
        if tables < 2 || tables > 6 || count < 1 {
            None
        } else {
            match read_selectors(bits.skip(18), first_list(tables), count) {
                None => None,
                Some(s) => match read_tables(s.1, n, tables) {
                    None => None,
                    Some(t) => if !(forall|u: int|
                        0 <= u < t.0.len() ==> codable(#[trigger] t.0[u])) {
                        None
                    } else {
                        read_body(t.0, s.0, t.1, 0, n - 1)
                    },
                },
            }
        }
    }
}

/// A block coded with tables and selectors that can code it is read as its
/// symbols.
pub proof fn lemma_read_coding(
    tables: Seq<Seq<u8>>,
    sels: Seq<usize>,
    input: Seq<u16>,
    n: int,
    rest: Seq<bool>,
)
    requires
        can_code(tables, sels, input, n),
        2 <= tables.len() <= 6,
        1 <= sels.len() <= 32767,
        input.len() > 0,
        input.last() == n - 1,
        forall|j: int| 0 <= j < input.len() - 1 ==> #[trigger] input[j] != n - 1,
    ensures
        read_coding(coded_bits(tables, sels, input) + rest, n) == Some((input, rest)),
{
    let bits = coded_bits(tables, sels, input) + rest;
    let tc = tables.len() as int;
    let sc = sels.len() as int;
    let b_body = body_bits(tables, sels, input, input.len() as int) + rest;
    let b_tables = all_table_bits(tables, tc) + b_body;
    let b_sels = selector_bits(as_ints(sels), tc) + b_tables;
    let b_count = bits_of(sc as u32, 15) + b_sels;
    assert(bits =~= bits_of(tc as u32, 3) + b_count);
    reveal_with_fuel(two_to_wide, 16);
    lemma_number_of_word(tc as u32, 3, b_count);
    assert(bits.skip(3) =~= b_count);
    lemma_number_of_word(sc as u32, 15, b_sels);
    assert(bits.skip(18) =~= b_sels);
    assert forall|j: int| 0 <= j < as_ints(sels).len() implies 0 <= #[trigger] as_ints(sels)[j]
        < tc by {
        assert(sels[j] < tables.len());
    }
    lemma_read_selectors(as_ints(sels), tc, b_tables);
    assert forall|u: int| 0 <= u < tables.len() implies (#[trigger] tables[u]).len() == n
        && tables[u][0] <= 17 by {
        assert(codable(tables[u]));
    }
    lemma_read_tables(tables, n, b_body);
    lemma_read_body(tables, sels, input, n, rest);
}

/// No symbol is counted more often than there are symbols.
pub proof fn lemma_share_bound(sels: Seq<usize>, input: Seq<u16>, t: int, s: int, upto: int)
    requires
        0 <= upto,
    ensures
        0 <= share(sels, input, t, s, upto) <= upto,
    decreases upto,
{
    if upto > 0 {
        lemma_share_bound(sels, input, t, s, upto - 1);
    }
}

/// The table of least cost is one of the tables.
pub proof fn lemma_best_bound(tables: Seq<Seq<u8>>, input: Seq<u16>, a: int, b: int, count: int)
    requires
        1 <= count,
    ensures
        0 <= best(tables, input, a, b, count) < count,
    decreases count,
{
    if count > 1 {
        lemma_best_bound(tables, input, a, b, count - 1);
    }
}

/// A round leaves as many tables as it found, each of which a prefix code
/// can meet.
pub proof fn lemma_rebuilt(tables: Seq<Seq<u8>>, input: Seq<u16>, n: int, t: int)
    requires
        2 <= n <= MAX_SYMS,
        input.len() <= MAX_FREQ,
        0 <= t < tables.len(),
    ensures
        rebuilt(tables, input, n).len() == tables.len(),
        rebuilt(tables, input, n)[t].len() == n,
        codable(rebuilt(tables, input, n)[t]),
{
    let freqs = shares(selectors(tables, input), input, t);
    assert forall|s: int| 0 <= s < n implies #[trigger] freqs[s] <= MAX_FREQ by {
        lemma_share_bound(selectors(tables, input), input, t, s, input.len() as int);
    }
    lemma_code_lengths_range(n, freqs, 1);
    let table = rebuilt_table(tables, input, n, t);
    assert forall|s: int| 0 <= s < n implies #[trigger] table[s] == code_lengths(n, freqs, 1)[s] by {
        assert(1 <= code_lengths(n, freqs, 1)[s] <= 17);
    }
    lemma_code_lengths(n, freqs, 1, table);
}

/// The rounds leave as many tables as there were at first.
pub proof fn lemma_refined_len(tables: Seq<Seq<u8>>, input: Seq<u16>, n: int, rounds: nat)
    ensures
        refined(tables, input, n, rounds).len() == tables.len(),
    decreases rounds,
{
    if rounds > 0 {
        lemma_refined_len(tables, input, n, (rounds - 1) as nat);
    }
}

/// The tables and selectors that `encode` chooses for a block of symbols
/// can code it.
pub proof fn lemma_final_coding(input: Seq<u16>, n: int, freqs: Seq<usize>)
    requires
        2 <= n <= MAX_SYMS,
        symbols_below(input, n),
        1 <= input.len() <= MAX_FREQ,
    ensures
        can_code(final_tables(input, n, freqs), final_selectors(input, n, freqs), input, n),
        2 <= final_tables(input, n, freqs).len() <= 6,
        1 <= final_selectors(input, n, freqs).len() <= 32767,
{
    let tc = table_count(n);
    let start = initial_tables(freqs, n, tc);
    let third = refined(start, input, n, 3);
    let tables = final_tables(input, n, freqs);
    let sels = final_selectors(input, n, freqs);
    lemma_refined_len(start, input, n, 3);
    lemma_refined_len(start, input, n, 4);
    assert(tables == rebuilt(third, input, n));
    assert forall|t: int| 0 <= t < tables.len() implies (#[trigger] tables[t]).len() == n
        && codable(tables[t]) by {
        lemma_rebuilt(third, input, n, t);
    }
    assert forall|g: int| 0 <= g < sels.len() implies #[trigger] sels[g] < tables.len() by {
        lemma_best_bound(
            third,
            input,
            SEGMENT_WIDTH * g,
            segment_end(input.len() as int, g),
            tc,
        );
    }
}

/// The symbols of a block end with the end mark and hold it nowhere else.
pub proof fn lemma_symbols_end(places: Seq<int>, k: int)
    requires
        1 <= k <= 256,
        forall|i: int| 0 <= i < places.len() ==> 0 <= #[trigger] places[i] < k,
    ensures
        symbols(places, k).len() >= 1,
        symbols(places, k).len() <= places.len() + 1,
        symbols(places, k).last() == k + 1,
        forall|j: int|
            0 <= j < symbols(places, k).len() - 1 ==> #[trigger] symbols(places, k)[j] <= k,
{
    lemma_settled(places, k);
    lemma_run_code(zeros_at_end(places) + 1);
}

/// One block, read from the bits behind its mark, and the bits behind it:
/// its checksum, a zero bit, the row of the block among its rotations, the
/// symbol map, and the symbols in coded form, which are undone stage by
/// stage; the block must have the checksum that it names.
#[verifier::opaque]
pub open spec fn read_block(bits: Seq<bool>) -> Option<(Seq<u8>, Seq<bool>)> {
    if bits.len() < 57 || bits[32] {
        None
    } else {
        match read_map(bits.skip(57)) {
            None => None,
            Some(m) => {
                let k = names_below(m.0, 256);
                if k < 1 {
                    None
                } else {
                    match read_coding(m.1, k + 2) {
                        None => None,
                        Some(c) => {
                            let column = unmtf(m.0, c.0);
                            let ptr = number(bits.skip(33), 24);
                            let block = unrle1(unbwt(column, ptr));
                            if ptr >= column.len() || crc32(block) != number(bits, 32) {
                                None
                            } else {
                                Some((block, c.1))
                            }
                        },
                    }
                }
            },
        }
    }
}

/// The mark of a block.
pub open spec fn block_mark() -> Seq<bool> {
    byte_bits(seq![0x31u8, 0x41u8, 0x59u8, 0x26u8, 0x53u8, 0x59u8])
}

/// A block is read as it was before it was compressed.
pub proof fn lemma_read_block(block: Seq<u8>, rest: Seq<bool>)
    requires
        block.len() > 0,
        0 < rle1(block).len() <= MAX_BLOCK,
        is_rotation_order(rle1(block), rotation_order(rle1(block))),
    ensures
        coded_block_bits(rle1(block), crc32(block)) + rest == block_mark() + (coded_block_bits(
            rle1(block),
            crc32(block),
        ) + rest).skip(48),
        read_block((coded_block_bits(rle1(block), crc32(block)) + rest).skip(48)) == Some(
            (block, rest),
        ),
{
    reveal(read_block);
    let coded = rle1(block);
    let crc = crc32(block);
    let order = rotation_order(coded);
    let n = coded.len() as int;
    let ptr = primary_index(order);
    let has_byte = marks(coded);
    let column = last_column(coded, order);
    let k = names_below(has_byte, 256);
    let syms = block_symbols(coded);
    let all = coded_block_bits(coded, crc) + rest;
    // The row of the block.
    assert(lists(order, 0));
    assert(0 <= ptr < n && order[ptr] == 0);
    // The marks, and the names.
    assert(has_byte[coded[0] as int]) by {
        assert(coded.contains(coded[0]));
    }
    lemma_names_below_bounds(has_byte, 256);
    lemma_names_below_bounds(has_byte, coded[0] as int);
    lemma_names_below_mono(has_byte, coded[0] as int, 256);
    assert(1 <= k <= 256);
    assert forall|i: int| 0 <= i < column.len() implies has_byte[#[trigger] column[i] as int] by {
        let at = (order[i] + n - 1) % n;
        assert(0 <= at < n) by (nonlinear_arith)
            requires
                0 <= order[i] + n - 1,
                0 < n,
                at == (order[i] + n - 1) % n,
        ;
        assert(coded.contains(coded[at]));
    }
    let names = names_of(has_byte, column);
    assert forall|i: int| 0 <= i < names.len() implies 0 <= #[trigger] names[i] < k by {
        let b = column[i] as int;
        lemma_names_below_bounds(has_byte, b);
        lemma_names_below_mono(has_byte, b, 256);
    }
    lemma_places_decode(names, k);
    lemma_symbols_end(places(names, k), k);
    // The tables and selectors.
    assert(symbols_below(syms, k + 2));
    lemma_final_coding(syms, k + 2, counts(syms));
    let tables = final_tables(syms, k + 2, counts(syms));
    let sels = final_selectors(syms, k + 2, counts(syms));
    // The fields, one behind another.
    let b_coding = coded_bits(tables, sels, syms) + rest;
    let b_map = sym_map_bits(has_byte) + b_coding;
    let b_ptr = bits_of(ptr as u32, 24) + b_map;
    let b_flag = seq![false] + b_ptr;
    let b_crc = bits_of(crc, 32) + b_flag;
    assert(all =~= block_mark() + b_crc);
    let bits = all.skip(48);
    assert(bits =~= b_crc);
    reveal_with_fuel(two_to_wide, 25);
    lemma_number_of_word(crc, 32, b_flag);
    assert(!bits[32]);
    assert(bits.skip(33) =~= b_ptr);
    lemma_number_of_word(ptr as u32, 24, b_map);
    assert(bits.skip(57) =~= b_map);
    lemma_read_map(has_byte, b_coding);
    lemma_read_coding(tables, sels, syms, k + 2, rest);
    // The stages, undone.
    lemma_mtf_decodes(has_byte, column);
    lemma_unbwt(coded, order, ptr);
    lemma_rle1_decodes(block);
}

/// The suffixes of any string can be listed in rising order.
pub proof fn lemma_order_exists(x: Seq<u8>, n: int)
    requires
        0 <= n <= x.len(),
        n <= 0x7FFF_FFFF,
    ensures
        exists|order: Seq<i32>| is_sorted_order(x, n, order),
    decreases n,
{
    if n == 0 {
        assert(is_sorted_order(x, 0, Seq::<i32>::empty()));
    } else {
        let v = n - 1;
        lemma_order_exists(x, v);
        let before = choose|order: Seq<i32>| is_sorted_order(x, v, order);
        let lesser = Seq::new((n - 1) as nat, |k: int| suffix_less(x, before[k] as int, v));
        assert forall|j: int, k: int| 0 <= j < k < n - 1 && #[trigger] lesser[k] implies #[trigger] lesser[j] by {
            assert(suffix_less(x, before[j] as int, before[k] as int));
            lemma_transitive(x, before[j] as int, before[k] as int, v);
        }
        lemma_count_prefix(lesser, n - 1, n - 1);
        let pos = count(lesser, n - 1);
        let after = before.insert(pos, v as i32);
        assert forall|k: int| 0 <= k < n implies 0 <= #[trigger] after[k] < n by {
            if k < pos {
                assert(after[k] == before[k]);
            } else if k > pos {
                assert(after[k] == before[k - 1]);
            }
        }
        assert forall|i: int| 0 <= i < n implies #[trigger] lists(after, i) by {
            if i == v {
                assert(after[pos] == i);
            } else {
                assert(lists(before, i));
                let k0 = choose|k: int| 0 <= k < before.len() && #[trigger] before[k] == i;
                if k0 < pos {
                    assert(after[k0] == i);
                } else {
                    assert(after[k0 + 1] == i);
                }
            }
        }
        assert forall|k: int, l: int| 0 <= k < l < n implies suffix_less(
            x,
            #[trigger] after[k] as int,
            #[trigger] after[l] as int,
        ) by {
            if l < pos {
                assert(after[k] == before[k] && after[l] == before[l]);
            } else if l == pos {
                assert(after[k] == before[k]);
                assert(lesser[k]);
            } else if k == pos {
                assert(after[l] == before[l - 1]);
                assert(!lesser[l - 1]);
                assert(0 <= before[l - 1] < n - 1);
                lemma_total(x, v, before[l - 1] as int);
            } else if k > pos {
                assert(after[k] == before[k - 1] && after[l] == before[l - 1]);
            } else {
                assert(after[k] == before[k] && after[l] == before[l - 1]);
                if k < l - 1 {
                } else {
                    assert(lesser[k]);
                    assert(!lesser[l - 1]);
                }
            }
        }
        assert(is_sorted_order(x, n, after));
    }
}

/// The rotations of any block that is not too long can be listed in rising
/// order.
pub proof fn lemma_rotation_order_exists(data: Seq<u8>)
    requires
        data.len() <= 0x3FFF_FFFF,
    ensures
        is_rotation_order(data, rotation_order(data)),
{
    lemma_order_exists(doubled(data), data.len() as int);
    let order = choose|order: Seq<i32>| is_sorted_order(doubled(data), data.len() as int, order);
    assert(is_rotation_order(data, order));
}

/// Off any input that is not empty a first block can be cut, which is not
/// empty.
pub proof fn lemma_block_len_exists(raw: Seq<u8>, room: int)
    requires
        raw.len() > 0,
        room >= 1,
    ensures
        exists|c: int| is_block_len(raw, room, c),
        forall|c: int| is_block_len(raw, room, c) ==> c >= 1,
{
    let n = raw.len() as int;
    let fits = Seq::new(n as nat, |k: int| rle1(raw.take(k + 1)).len() <= room);
    assert forall|j: int, k: int| 0 <= j < k < n && #[trigger] fits[k] implies #[trigger] fits[j] by {
        lemma_grows(raw, j + 1, k + 1);
    }
    lemma_count_prefix(fits, n, n);
    let c = count(fits, n);
    lemma_step(raw, 0);
    assert(raw.take(0) =~= Seq::<u8>::empty());
    assert(rle1(raw.take(1)).len() == 1);
    assert(fits[0]);
    assert(c >= 1);
    assert(fits[c - 1]);
    assert forall|k: int| c < k <= n implies (#[trigger] rle1(raw.take(k))).len() > room by {
        assert(!fits[k - 1]);
    }
    assert(is_block_len(raw, room, c));
    assert forall|d: int| is_block_len(raw, room, d) implies d >= 1 by {
        if d < 1 {
            assert(rle1(raw.take(1)).len() > room);
        }
    }
}

/// The blocks, one after another.
pub open spec fn joined(blocks: Seq<Seq<u8>>) -> Seq<u8>
    decreases blocks.len(),
{
    if blocks.len() == 0 {
        Seq::empty()
    } else {
        blocks[0] + joined(blocks.skip(1))
    }
}

/// The blocks into which an input is cut are not empty, fit their room
/// when coded, and are the input when joined.
pub proof fn lemma_split(raw: Seq<u8>, level: int, i: int)
    requires
        1 <= level <= 9,
    ensures
        joined(split(raw, level)) == raw,
        0 <= i < split(raw, level).len() ==> split(raw, level)[i].len() > 0 && 0 < rle1(
            split(raw, level)[i],
        ).len() <= MAX_BLOCK,
    decreases raw.len(),
{
    if raw.len() > 0 {
        lemma_block_len_exists(raw, block_room(level));
        let c = block_len(raw, level);
        assert(is_block_len(raw, block_room(level), c));
        let first = raw.take(c);
        let rest = raw.skip(c);
        let blocks = split(raw, level);
        assert(blocks == seq![first] + split(rest, level));
        assert(blocks.skip(1) =~= split(rest, level));
        lemma_split(rest, level, i - 1);
        assert(first + rest =~= raw);
        if i == 0 {
            lemma_step(first, 0);
            lemma_grows(first, 1, c);
            assert(first.take(c) =~= first);
            assert(first.take(0) =~= Seq::<u8>::empty());
        } else if 0 < i < blocks.len() {
            assert(blocks[i] == split(rest, level)[i - 1]);
        }
    } else {
        assert(split(raw, level) =~= Seq::<Seq<u8>>::empty());
    }
}

/// The mark of the end of a stream.
pub open spec fn end_mark() -> Seq<bool> {
    byte_bits(seq![0x17u8, 0x72u8, 0x45u8, 0x38u8, 0x50u8, 0x90u8])
}

/// The blocks at the front of the bits up to the end of the stream, joined,
/// the blocks before having the checksum `crc` in all: each block stands
/// behind its mark, and behind the mark of the end stands the checksum of
/// all blocks, which must be theirs.
pub open spec fn read_blocks(bits: Seq<bool>, crc: u32) -> Option<Seq<u8>>
    decreases bits.len(),
{
    if bits.len() < 48 {
        None
    } else if bits.take(48) == block_mark() {
        match read_block(bits.skip(48)) {
            None => None,
            Some(b) => if b.1.len() >= bits.len() {
                None
            } else {
                match read_blocks(b.1, folded(crc, crc32(b.0))) {
                    None => None,
                    Some(more) => Some(b.0 + more),
                }
            },
        }
    } else if bits.take(48) == end_mark() {
        if bits.len() < 80 || number(bits.skip(48), 32) != crc {
            None
        } else {
            Some(Seq::empty())
        }
    } else {
        None
    }
}

/// What a stream stands for: behind the letters `BZh` and a digit from one
/// to nine, its blocks.
pub open spec fn decode(stream: Seq<u8>) -> Option<Seq<u8>> {
    let bits = byte_bits(stream);
    if bits.len() < 32 || bits.take(24) != byte_bits(seq![0x42u8, 0x5Au8, 0x68u8]) || number(
        bits.skip(24),
        8,
    ) < 0x31 || number(bits.skip(24), 8) > 0x39 {
        None
    } else {
        read_blocks(bits.skip(32), 0)
    }
}

/// Each block in the stream.
pub open spec fn block_parts(blocks: Seq<Seq<u8>>) -> Seq<Seq<bool>> {
    Seq::new(blocks.len(), |i: int| block_in_stream(blocks[i]))
}

proof fn lemma_blocks_in_stream(blocks: Seq<Seq<u8>>)
    ensures
        blocks_in_stream(blocks) == flat(block_parts(blocks)),
    decreases blocks.len(),
{
    let parts = block_parts(blocks);
    if blocks.len() > 0 {
        lemma_blocks_in_stream(blocks.drop_last());
        assert(parts.drop_last() =~= block_parts(blocks.drop_last()));
    } else {
        assert(parts =~= Seq::<Seq<bool>>::empty());
    }
}

/// The marks of a block and of the end differ.
pub proof fn lemma_marks_differ()
    ensures
        block_mark() != end_mark(),
        block_mark().len() == 48,
        end_mark().len() == 48,
{
    assert((0x31u32 >> 5u32) & 1 == 1 && (0x17u32 >> 5u32) & 1 == 0) by (bit_vector);
    assert(block_mark()[2] == bit(0x31u32, 5));
    assert(end_mark()[2] == bit(0x17u32, 5));
}

/// A block in the stream begins with the mark of a block and is read,
/// behind the mark, as it was before it was compressed.
pub proof fn lemma_read_marked_block(block: Seq<u8>, rest: Seq<bool>)
    requires
        block.len() > 0,
        0 < rle1(block).len() <= MAX_BLOCK,
    ensures
        (block_in_stream(block) + rest).len() > rest.len() + 48,
        (block_in_stream(block) + rest).take(48) == block_mark(),
        read_block((block_in_stream(block) + rest).skip(48)) == Some((block, rest)),
{
    lemma_rotation_order_exists(rle1(block));
    lemma_read_block(block, rest);
    let all = coded_block_bits(rle1(block), crc32(block)) + rest;
    assert(block_in_stream(block) == coded_block_bits(rle1(block), crc32(block)));
    lemma_marks_differ();
    assert(all.take(48) =~= block_mark());
    assert(coded_block_bits(rle1(block), crc32(block)).len() > 48) by {
        assert(block_header_bits(crc32(block), primary_index(rotation_order(rle1(block)))).len()
            == 48 + 32 + 1 + 24);
    }
}

/// The end of a stream is read as no block, if the checksum is that of the
/// blocks before.
pub proof fn lemma_read_end(crc: u32, tail: Seq<bool>)
    ensures
        read_blocks(stream_footer_bits(crc) + tail, crc) == Some(Seq::<u8>::empty()),
{
    let bits = stream_footer_bits(crc) + tail;
    let word = bits_of(crc, 32) + tail;
    lemma_marks_differ();
    assert(bits =~= end_mark() + word);
    assert(bits.take(48) =~= end_mark());
    assert(bits.skip(48) =~= word);
    lemma_number_of_word(crc, 32, tail);
}

/// A block and what follows it are read as the block and what the rest is
/// read as.
pub proof fn lemma_read_next(block: Seq<u8>, rest: Seq<bool>, crc: u32)
    requires
        block.len() > 0,
        0 < rle1(block).len() <= MAX_BLOCK,
    ensures
        read_blocks(block_in_stream(block) + rest, crc) == match read_blocks(
            rest,
            folded(crc, crc32(block)),
        ) {
            None => None::<Seq<u8>>,
            Some(more) => Some(block + more),
        },
{
    lemma_read_marked_block(block, rest);
    lemma_marks_differ();
}

proof fn lemma_read_blocks_from(blocks: Seq<Seq<u8>>, tail: Seq<bool>, i: int)
    requires
        0 <= i <= blocks.len(),
        forall|j: int|
            0 <= j < blocks.len() ==> (#[trigger] blocks[j]).len() > 0 && 0 < rle1(blocks[j]).len()
                <= MAX_BLOCK,
    ensures
        read_blocks(
            flat(block_parts(blocks).skip(i)) + (stream_footer_bits(
                stream_crc(checksums(blocks)),
            ) + tail),
            stream_crc(checksums(blocks).take(i)),
        ) == Some(joined(blocks.skip(i))),
    decreases blocks.len() - i,
{
    let parts = block_parts(blocks);
    let crcs = checksums(blocks);
    let end = stream_footer_bits(stream_crc(crcs)) + tail;
    let crc = stream_crc(crcs.take(i));
    if i < blocks.len() {
        let block = blocks[i];
        lemma_flat_from(parts, i);
        let rest = flat(parts.skip(i + 1)) + end;
        assert(flat(parts.skip(i)) + end =~= block_in_stream(block) + rest);
        lemma_read_next(block, rest, crc);
        assert(crcs.take(i + 1).drop_last() =~= crcs.take(i));
        assert(crcs.take(i + 1).last() == crc32(block));
        lemma_read_blocks_from(blocks, tail, i + 1);
        assert(blocks.skip(i)[0] == block);
        assert(blocks.skip(i).skip(1) =~= blocks.skip(i + 1));
    } else {
        assert(parts.skip(i) =~= Seq::<Seq<bool>>::empty());
        assert(flat(parts.skip(i)) + end =~= end);
        lemma_read_end(stream_crc(crcs), tail);
        assert(crcs.take(i) =~= crcs);
        assert(blocks.skip(i) =~= Seq::<Seq<u8>>::empty());
    }
}

/// The header of a stream is read as the letters and the digit of the
/// level.
pub proof fn lemma_read_header(level: int, body: Seq<bool>)
    requires
        1 <= level <= 9,
    ensures
        (stream_header_bits(level) + body).len() >= 32,
        (stream_header_bits(level) + body).take(24) == byte_bits(seq![0x42u8, 0x5Au8, 0x68u8]),
        number((stream_header_bits(level) + body).skip(24), 8) == 0x30 + level,
        (stream_header_bits(level) + body).skip(32) == body,
{
    let bits = stream_header_bits(level) + body;
    let digit = seq![(0x30 + level) as u8];
    let letters = seq![0x42u8, 0x5Au8, 0x68u8];
    crate::out::lemma_byte_bits_concat(letters, digit);
    assert(letters + digit =~= seq![0x42u8, 0x5Au8, 0x68u8, (0x30 + level) as u8]);
    assert(bits =~= byte_bits(letters) + (byte_bits(digit) + body));
    assert(bits.take(24) =~= byte_bits(letters));
    assert(bits.skip(24) =~= byte_bits(digit) + body);
    assert(byte_bits(digit) =~= bits_of((0x30 + level) as u32, 8));
    reveal_with_fuel(two_to_wide, 9);
    lemma_number_of_word((0x30 + level) as u32, 8, body);
    assert(bits.skip(32) =~= body);
}

/// Compressing loses nothing: the stream that the bits of `encode` make up
/// stands for the input.
pub proof fn lemma_round_trip(input: Seq<u8>, level: int, stream: Seq<u8>)
    requires
        1 <= level <= 9,
        byte_bits(stream) == stream_bits(input, level) + zero_bits(
            padding(stream_bits(input, level).len() as int),
        ),
    ensures
        decode(stream) == Some(input),
{
    let blocks = split(input, level);
    let pad = zero_bits(padding(stream_bits(input, level).len() as int));
    let end = stream_footer_bits(stream_crc(checksums(blocks))) + pad;
    let parts = block_parts(blocks);
    lemma_blocks_in_stream(blocks);
    assert(parts.skip(0) =~= parts);
    let body = flat(parts.skip(0)) + end;
    assert(byte_bits(stream) =~= stream_header_bits(level) + body);
    lemma_read_header(level, body);
    assert forall|j: int| 0 <= j < blocks.len() implies (#[trigger] blocks[j]).len() > 0 && 0
        < rle1(blocks[j]).len() <= MAX_BLOCK by {
        lemma_split(input, level, j);
    }
    lemma_read_blocks_from(blocks, pad, 0);
    assert(checksums(blocks).take(0) =~= Seq::<u32>::empty());
    assert(blocks.skip(0) =~= blocks);
    lemma_split(input, level, 0);
}

} // verus!
