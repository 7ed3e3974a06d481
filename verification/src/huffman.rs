//! The coding of a block's symbols: the tables are chosen, and the choice,
//! the tables and the coded symbols are written out.

use crate::kraft::{lemma_two_to, lemma_two_to_mono, two_to};
use crate::mtf::{
    lemma_place_bounds, lemma_place_is, lemma_recency_complete, move_to_front, moved, place,
    recency_after, Mtf,
};
use crate::out::{bits_of, OutputStream};
use crate::queue::{MAX_FREQ, MAX_SYMS};
use crate::tables::{
    build_initial_tables, initial_tables, lemma_freq_sum_is_occ_sum, lemma_occ_sum_len,
    num_tables_for, refine, refined, segment_count, selectors, symbols_below, table_count,
    tables_ok, views, NUM_REFINEMENTS, SEGMENT_WIDTH,
};
use crate::tree::CODEWORD_MAX_LEN;
use vstd::prelude::*;

verus! {

/// The most segments a block can have: their number is written in 15 bits.
pub const MAX_SELECTORS: usize = 32767;

/// `r` ones and a zero.
pub open spec fn unary(r: int) -> Seq<bool> {
    Seq::new((r + 1) as nat, |j: int| j < r)
}

/// The selectors as numbers.
pub open spec fn as_ints(sels: Seq<usize>) -> Seq<int> {
    Seq::new(sels.len(), |i: int| sels[i] as int)
}

/// The selectors, each written in unary as its place in a recency list of
/// the `tables` tables.
pub open spec fn selector_bits(sels: Seq<int>, tables: int) -> Seq<bool>
    decreases sels.len(),
{
    if sels.len() == 0 {
        Seq::empty()
    } else {
        selector_bits(sels.drop_last(), tables) + unary(
            place(recency_after(sels.drop_last(), tables), sels.last()),
        )
    }
}

/// The step from length `from` to length `to`: `10` for every unit up, `11`
/// for every unit down, then `0`.
pub open spec fn delta_bits(from: int, to: int) -> Seq<bool>
    decreases
            if from < to {
                to - from
            } else {
                from - to
            },
{
    if from < to {
        seq![true, false] + delta_bits(from + 1, to)
    } else if from > to {
        seq![true, true] + delta_bits(from - 1, to)
    } else {
        seq![false]
    }
}

/// The steps that lead through the first `upto` lengths of a table, the
/// first step starting at the first length.
pub open spec fn deltas(table: Seq<u8>, upto: int) -> Seq<bool>
    decreases upto,
{
    if upto <= 0 {
        Seq::empty()
    } else {
        deltas(table, upto - 1) + delta_bits(
            if upto == 1 {
                table[0] as int
            } else {
                table[upto - 2] as int
            },
            table[upto - 1] as int,
        )
    }
}

/// A table: its first length in five bits, then the steps.
pub open spec fn table_bits(table: Seq<u8>) -> Seq<bool> {
    bits_of(table[0] as u32, 5) + deltas(table, table.len() as int)
}

/// The first `upto` tables.
pub open spec fn all_table_bits(tables: Seq<Seq<u8>>, upto: int) -> Seq<bool>
    decreases upto,
{
    if upto <= 0 {
        Seq::empty()
    } else {
        all_table_bits(tables, upto - 1) + table_bits(tables[upto - 1])
    }
}

/// Whether symbol `x` gets its codeword before a symbol `s` of length `l`:
/// shorter codewords come first, and among equally long ones the lesser
/// symbol.
pub open spec fn precedes(table: Seq<u8>, l: int, s: int, x: int) -> bool {
    table[x] < l || (table[x] == l && x < s)
}

/// Over the first `upto` symbols that precede a symbol `s` of length `l`,
/// the number of codewords of length `l` that each rules out.
pub open spec fn word_sum(table: Seq<u8>, l: int, s: int, upto: int) -> int
    decreases upto,
{
    if upto <= 0 {
        0
    } else {
        word_sum(table, l, s, upto - 1) + if precedes(table, l, s, upto - 1) {
            two_to(l - table[upto - 1])
        } else {
            0
        }
    }
}

/// The canonical codeword of symbol `s`: the first of its length that no
/// symbol before it rules out.
pub open spec fn word(table: Seq<u8>, s: int) -> int {
    word_sum(table, table[s] as int, s, table.len() as int)
}

/// The codewords of the first `upto` symbols of the input, each under the
/// table of its segment.
pub open spec fn body_bits(tables: Seq<Seq<u8>>, sels: Seq<usize>, input: Seq<u16>, upto: int) -> Seq<
    bool,
>
    decreases upto,
{
    if upto <= 0 {
        Seq::empty()
    } else {
        let table = tables[sels[(upto - 1) / (SEGMENT_WIDTH as int)] as int];
        let sym = input[upto - 1] as int;
        body_bits(tables, sels, input, upto - 1) + bits_of(word(table, sym) as u32, table[sym] as int)
    }
}

/// A block coded with given tables and selectors: the number of tables in
/// three bits, the number of selectors in fifteen, the selectors, the
/// tables, the codewords.
pub open spec fn coded_bits(tables: Seq<Seq<u8>>, sels: Seq<usize>, input: Seq<u16>) -> Seq<bool> {
    bits_of(tables.len() as u32, 3) + bits_of(sels.len() as u32, 15) + selector_bits(
        as_ints(sels),
        tables.len() as int,
    ) + all_table_bits(tables, tables.len() as int) + body_bits(
        tables,
        sels,
        input,
        input.len() as int,
    )
}

/// The tables that code a block.
pub open spec fn final_tables(input: Seq<u16>, num_syms: int, freqs: Seq<usize>) -> Seq<Seq<u8>> {
    refined(initial_tables(freqs, num_syms, table_count(num_syms)), input, num_syms, 4)
}

/// The selectors that code a block: the choice of the last round.
pub open spec fn final_selectors(input: Seq<u16>, num_syms: int, freqs: Seq<usize>) -> Seq<usize> {
    selectors(
        refined(initial_tables(freqs, num_syms, table_count(num_syms)), input, num_syms, 3),
        input,
    )
}

/// A block of symbols in coded form.
pub open spec fn block_bits(input: Seq<u16>, num_syms: int, freqs: Seq<usize>) -> Seq<bool> {
    coded_bits(
        final_tables(input, num_syms, freqs),
        final_selectors(input, num_syms, freqs),
        input,
    )
}

proof fn lemma_small_bits()
    ensures
        bits_of(0, 1) =~= seq![false],
        bits_of(2, 2) =~= seq![true, false],
        bits_of(3, 2) =~= seq![true, true],
{
    assert((0u32 >> 0u32) & 1 == 0 && (2u32 >> 1u32) & 1 == 1 && (2u32 >> 0u32) & 1 == 0 && (3u32
        >> 1u32) & 1 == 1 && (3u32 >> 0u32) & 1 == 1) by (bit_vector);
}

proof fn lemma_unary_code(r: u32)
    requires
        r <= 6,
    ensures
        (1u32 << ((r + 1) as u32)) >= 2,
        (1u32 << ((r + 1) as u32)) <= 128,
        bits_of(((1u32 << ((r + 1) as u32)) - 2) as u32, r + 1) =~= unary(r as int),
{
    let r1: u32 = (r + 1) as u32;
    assert((1u32 << r1) >= 2 && (1u32 << r1) <= 128) by (bit_vector)
        requires
            1 <= r1 <= 7,
    ;
    let code: u32 = ((1u32 << r1) - 2) as u32;
    assert forall|j: int| 0 <= j < r + 1 implies bits_of(code, r + 1)[j] == unary(r as int)[j] by {
        let i: u32 = (r - j) as u32;
        assert(((code >> i) & 1 == 1) <==> i >= 1) by (bit_vector)
            requires
                1 <= r1 <= 7,
                i < r1,
                code == (1u32 << r1) - 2,
        ;
    }
}

/// Writes the selectors.
pub fn write_selectors(output: &mut OutputStream, sels: &Vec<usize>, num_tables: usize)
    requires
        old(output).wf(),
        1 <= num_tables <= 6,
        forall|g: int| 0 <= g < sels@.len() ==> #[trigger] sels@[g] < num_tables,
    ensures
        final(output).wf(),
        final(output).bits() == old(output).bits() + selector_bits(
            as_ints(sels@),
            num_tables as int,
        ),
{
    let ghost names = as_ints(sels@);
    let ghost k = num_tables as int;
    let mut recency: Vec<u8> = Vec::new();
    let mut r: usize = 0;
    while r < num_tables
        invariant
            r <= num_tables <= 6,
            recency@.len() == r,
            forall|j: int| 0 <= j < r ==> #[trigger] recency@[j] == j,
        decreases num_tables - r,
    {
        recency.push(r as u8);
        r += 1;
    }
    let n: usize = sels.len();
    let mut g: usize = 0;
    assert(names.take(0) =~= Seq::<int>::empty());
    assert(output.bits() =~= old(output).bits() + selector_bits(names.take(0), k));
    while g < n
        invariant
            g <= n,
            n == sels@.len(),
            names == as_ints(sels@),
            k == num_tables,
            1 <= num_tables <= 6,
            forall|g: int| 0 <= g < sels@.len() ==> #[trigger] sels@[g] < num_tables,
            output.wf(),
            recency@.len() == k,
            forall|j: int|
                0 <= j < k ==> #[trigger] recency@[j] == recency_after(names.take(g as int), k)[j],
            output.bits() == old(output).bits() + selector_bits(names.take(g as int), k),
        decreases n - g,
    {
        let sel: u8 = sels[g] as u8;
        let ghost list = recency_after(names.take(g as int), k);
        let ghost before = output.bits();
        proof {
            assert(names.take(g + 1).drop_last() =~= names.take(g as int));
            assert(names.take(g + 1).last() == sel as int);
            assert forall|i: int| 0 <= i < names.take(g as int).len() implies 0 <= (
            #[trigger] names.take(g as int)[i]) < k by {
                assert(sels@[i] < num_tables);
            }
            lemma_recency_complete(names.take(g as int), k);
            lemma_place_bounds(list, sel as int);
            lemma_small_bits();
        }
        if sel == recency[0] {
            proof {
                lemma_place_is(list, sel as int, 0);
                assert(moved(list, sel as int) =~= list);
                assert(unary(0) =~= seq![false]);
            }
            output.write_bits(0, 1);
        } else {
            assert(list.contains(sel as int));
            let pos: usize = move_to_front(&mut recency, sel, Ghost(list));
            proof {
                lemma_unary_code(pos as u32);
            }
            let code: u32 = (1u32 << ((pos + 1) as u32)) - 2;
            output.write_bits(code as u8, pos + 1);
        }
        proof {
            assert(output.bits() =~= old(output).bits() + selector_bits(names.take(g + 1), k));
        }
        g += 1;
    }
    assert(names.take(n as int) =~= names);
}

/// Writes one table.
pub fn write_table(output: &mut OutputStream, table: &Vec<u8>)
    requires
        old(output).wf(),
        table@.len() >= 1,
    ensures
        final(output).wf(),
        final(output).bits() == old(output).bits() + table_bits(table@),
{
    let first: u8 = table[0];
    output.write_bits(first, 5);
    let ghost start = output.bits();
    let mut acc: u8 = first;
    let n: usize = table.len();
    let mut s: usize = 0;
    assert(output.bits() =~= start + deltas(table@, 0));
    while s < n
        invariant
            s <= n,
            n == table@.len(),
            n >= 1,
            output.wf(),
            acc == if s == 0 {
                table@[0]
            } else {
                table@[s - 1]
            },
            output.bits() == start + deltas(table@, s as int),
        decreases n - s,
    {
        let l: u8 = table[s];
        let ghost from = acc as int;
        let ghost before = output.bits();
        proof {
            lemma_small_bits();
        }
        while acc != l
            invariant
                output.wf(),
                output.bits() + delta_bits(acc as int, l as int) == before + delta_bits(
                    from,
                    l as int,
                ),
            decreases
                    if acc < l {
                        l - acc
                    } else {
                        acc - l
                    },
        {
            let ghost b0 = output.bits();
            let ghost a0 = acc as int;
            if acc < l {
                output.write_bits(2, 2);
                acc += 1;
            } else {
                output.write_bits(3, 2);
                acc -= 1;
            }
            proof {
                lemma_small_bits();
                assert(delta_bits(a0, l as int) =~= (if a0 < l {
                    seq![true, false]
                } else {
                    seq![true, true]
                }) + delta_bits(acc as int, l as int));
                assert(output.bits() + delta_bits(acc as int, l as int) =~= b0 + delta_bits(
                    a0,
                    l as int,
                ));
            }
        }
        let ghost b1 = output.bits();
        output.write_bits(0, 1);
        proof {
            assert(delta_bits(l as int, l as int) =~= seq![false]);
            assert(output.bits() =~= before + delta_bits(from, l as int));
            assert(output.bits() =~= start + deltas(table@, s + 1));
        }
        s += 1;
    }
    assert(output.bits() =~= old(output).bits() + table_bits(table@));
}

/// The symbols before a symbol rule out at most `2^l` codewords each.
pub proof fn lemma_word_sum_bound(table: Seq<u8>, l: int, s: int, upto: int)
    requires
        0 <= upto <= table.len(),
        0 <= l <= 17,
    ensures
        0 <= word_sum(table, l, s, upto) <= upto * two_to(l),
    decreases upto,
{
    lemma_two_to(l);
    if upto > 0 {
        lemma_word_sum_bound(table, l, s, upto - 1);
        if precedes(table, l, s, upto - 1) {
            lemma_two_to_mono(l - table[upto - 1], l);
        }
        assert(upto * two_to(l) == (upto - 1) * two_to(l) + two_to(l)) by (nonlinear_arith);
    }
}

/// Passing symbol `s` rules out one more codeword if its length is `l`.
pub proof fn lemma_word_sum_step(table: Seq<u8>, l: int, s: int, upto: int)
    requires
        0 <= s,
        0 <= upto <= table.len(),
    ensures
        word_sum(table, l, s + 1, upto) == word_sum(table, l, s, upto) + if s < upto && table[s]
            == l {
            1int
        } else {
            0int
        },
    decreases upto,
{
    if upto > 0 {
        lemma_word_sum_step(table, l, s, upto - 1);
    }
}

/// At the next length every symbol passed rules out twice as many codewords.
pub proof fn lemma_word_sum_next(table: Seq<u8>, l: int, upto: int, n: int)
    requires
        0 <= upto <= n,
        upto <= table.len(),
        0 <= l,
    ensures
        word_sum(table, l + 1, 0, upto) == 2 * word_sum(table, l, n, upto),
    decreases upto,
{
    if upto > 0 {
        lemma_word_sum_next(table, l, upto - 1, n);
    }
}

/// No symbol precedes the first symbol of the least length.
pub proof fn lemma_word_sum_start(table: Seq<u8>, l: int, upto: int)
    requires
        0 <= upto <= table.len(),
        forall|x: int| 0 <= x < table.len() ==> #[trigger] table[x] >= l,
    ensures
        word_sum(table, l, 0, upto) == 0,
    decreases upto,
{
    if upto > 0 {
        lemma_word_sum_start(table, l, upto - 1);
    }
}

/// The canonical codeword of every symbol.
pub fn assign_codes(table: &Vec<u8>) -> (words: Vec<u32>)
    requires
        1 <= table@.len() <= MAX_SYMS,
        forall|s: int| 0 <= s < table@.len() ==> #[trigger] table@[s] <= CODEWORD_MAX_LEN,
    ensures
        words@.len() == table@.len(),
        forall|s: int| 0 <= s < table@.len() ==> #[trigger] words@[s] == word(table@, s),
{
    let n: usize = table.len();
    let mut min_len: u8 = table[0];
    let mut max_len: u8 = table[0];
    let mut words: Vec<u32> = Vec::new();
    let mut s: usize = 0;
    while s < n
        invariant
            s <= n,
            n == table@.len(),
            words@.len() == s,
            min_len <= max_len <= CODEWORD_MAX_LEN,
            forall|x: int| 0 <= x < table@.len() ==> #[trigger] table@[x] <= CODEWORD_MAX_LEN,
            forall|x: int| 0 <= x < s ==> min_len <= #[trigger] table@[x] <= max_len,
            min_len <= table@[0] <= max_len,
        decreases n - s,
    {
        let l: u8 = table[s];
        if l < min_len {
            min_len = l;
        }
        if l > max_len {
            max_len = l;
        }
        words.push(0);
        s += 1;
    }
    let mut word: u32 = 0;
    let mut l: u8 = min_len;
    proof {
        lemma_word_sum_start(table@, l as int, n as int);
    }
    while l <= max_len
        invariant
            n == table@.len(),
            1 <= n <= MAX_SYMS,
            words@.len() == n,
            min_len <= l <= max_len + 1,
            max_len <= CODEWORD_MAX_LEN,
            forall|x: int| 0 <= x < n ==> min_len <= #[trigger] table@[x] <= max_len,
            word == word_sum(table@, l as int, 0, n as int),
            forall|x: int|
                0 <= x < n && table@[x] < l ==> #[trigger] words@[x] == self::word(table@, x),
        decreases max_len + 1 - l,
    {
        let mut s: usize = 0;
        while s < n
            invariant
                s <= n,
                n == table@.len(),
                1 <= n <= MAX_SYMS,
                words@.len() == n,
                l <= max_len <= CODEWORD_MAX_LEN,
                word == word_sum(table@, l as int, s as int, n as int),
                forall|x: int|
                    0 <= x < n && (table@[x] < l || (table@[x] == l && x < s))
                        ==> #[trigger] words@[x] == self::word(table@, x),
            decreases n - s,
        {
            proof {
                lemma_word_sum_step(table@, l as int, s as int, n as int);
                lemma_word_sum_bound(table@, l as int, s + 1, n as int);
                lemma_two_to(l as int);
                assert(n * two_to(l as int) <= 258 * 131072) by (nonlinear_arith)
                    requires
                        n <= 258,
                        0 <= two_to(l as int) <= 131072,
                ;
            }
            if table[s] == l {
                words[s] = word;
                word += 1;
            }
            s += 1;
        }
        proof {
            lemma_word_sum_next(table@, l as int, n as int, n as int);
            lemma_word_sum_bound(table@, l as int, n as int, n as int);
            lemma_two_to(l as int);
            assert(n * two_to(l as int) <= 258 * 131072) by (nonlinear_arith)
                requires
                    n <= 258,
                    0 <= two_to(l as int) <= 131072,
            ;
        }
        word = word * 2;
        l += 1;
    }
    words
}

/// Writes the codeword of every symbol of the input.
pub fn write_body(
    output: &mut OutputStream,
    tables: &Vec<Vec<u8>>,
    codings: &Vec<Vec<u32>>,
    sels: &Vec<usize>,
    input: &Vec<u16>,
    num_syms: usize,
)
    requires
        old(output).wf(),
        symbols_below(input@, num_syms as int),
        tables_ok(views(tables@), num_syms as int, CODEWORD_MAX_LEN as int),
        codings@.len() == tables@.len(),
        forall|t: int|
            0 <= t < tables@.len() ==> (#[trigger] codings@[t])@.len() == num_syms,
        forall|t: int, s: int|
            0 <= t < tables@.len() && 0 <= s < num_syms ==> (#[trigger] codings@[t]@[s]) == word(
                tables@[t]@,
                s,
            ),
        sels@.len() == segment_count(input@.len() as int),
        forall|g: int| 0 <= g < sels@.len() ==> #[trigger] sels@[g] < tables@.len(),
    ensures
        final(output).wf(),
        final(output).bits() == old(output).bits() + body_bits(
            views(tables@),
            sels@,
            input@,
            input@.len() as int,
        ),
{
    let n: usize = input.len();
    let mut i: usize = 0;
    assert(output.bits() =~= old(output).bits() + body_bits(views(tables@), sels@, input@, 0));
    while i < n
        invariant
            i <= n,
            n == input@.len(),
            output.wf(),
            symbols_below(input@, num_syms as int),
            tables_ok(views(tables@), num_syms as int, CODEWORD_MAX_LEN as int),
            codings@.len() == tables@.len(),
            forall|t: int|
                0 <= t < tables@.len() ==> (#[trigger] codings@[t])@.len() == num_syms,
            forall|t: int, s: int|
                0 <= t < tables@.len() && 0 <= s < num_syms ==> (#[trigger] codings@[t]@[s])
                    == word(tables@[t]@, s),
            sels@.len() == segment_count(n as int),
            forall|g: int| 0 <= g < sels@.len() ==> #[trigger] sels@[g] < tables@.len(),
            output.bits() == old(output).bits() + body_bits(
                views(tables@),
                sels@,
                input@,
                i as int,
            ),
        decreases n - i,
    {
        assert(i / SEGMENT_WIDTH < segment_count(n as int));
        let sel: usize = sels[i / SEGMENT_WIDTH];
        let sym: usize = input[i] as usize;
        assert(views(tables@)[sel as int].len() == num_syms);
        assert(views(tables@)[sel as int][sym as int] <= CODEWORD_MAX_LEN);
        let word_len: usize = tables[sel][sym] as usize;
        let w: u32 = codings[sel][sym];
        output.write_bits_u32(w, word_len);
        proof {
            assert(output.bits() =~= old(output).bits() + body_bits(
                views(tables@),
                sels@,
                input@,
                i + 1,
            ));
        }
        i += 1;
    }
}

/// Writes a block coded with the given tables and selectors.
pub fn write_coding(
    output: &mut OutputStream,
    tables: &Vec<Vec<u8>>,
    sels: &Vec<usize>,
    input: &Vec<u16>,
    num_syms: usize,
)
    requires
        old(output).wf(),
        1 <= num_syms <= MAX_SYMS,
        symbols_below(input@, num_syms as int),
        1 <= tables@.len() <= 6,
        tables_ok(views(tables@), num_syms as int, CODEWORD_MAX_LEN as int),
        sels@.len() == segment_count(input@.len() as int),
        sels@.len() <= MAX_SELECTORS,
        forall|g: int| 0 <= g < sels@.len() ==> #[trigger] sels@[g] < tables@.len(),
    ensures
        final(output).wf(),
        final(output).bits() == old(output).bits() + coded_bits(views(tables@), sels@, input@),
{
    let num_tables: usize = tables.len();
    output.write_bits(num_tables as u8, 3);
    output.write_bits_u32(sels.len() as u32, 15);
    write_selectors(output, sels, num_tables);
    let ghost start = output.bits();
    let mut codings: Vec<Vec<u32>> = Vec::new();
    let mut t: usize = 0;
    assert(output.bits() =~= start + all_table_bits(views(tables@), 0));
    while t < num_tables
        invariant
            t <= num_tables,
            num_tables == tables@.len(),
            1 <= num_syms <= MAX_SYMS,
            output.wf(),
            tables_ok(views(tables@), num_syms as int, CODEWORD_MAX_LEN as int),
            output.bits() == start + all_table_bits(views(tables@), t as int),
            codings@.len() == t,
            forall|u: int| 0 <= u < t ==> (#[trigger] codings@[u])@.len() == num_syms,
            forall|u: int, s: int|
                0 <= u < t && 0 <= s < num_syms ==> (#[trigger] codings@[u]@[s]) == word(
                    tables@[u]@,
                    s,
                ),
        decreases num_tables - t,
    {
        proof {
            assert(views(tables@)[t as int].len() == num_syms);
            assert forall|s: int| 0 <= s < tables@[t as int]@.len() implies (
            #[trigger] tables@[t as int]@[s]) <= CODEWORD_MAX_LEN by {
                assert(views(tables@)[t as int][s] <= CODEWORD_MAX_LEN);
            }
        }
        write_table(output, &tables[t]);
        let words = assign_codes(&tables[t]);
        codings.push(words);
        proof {
            assert(output.bits() =~= start + all_table_bits(views(tables@), t + 1));
        }
        t += 1;
    }
    write_body(output, tables, &codings, sels, input, num_syms);
    proof {
        assert(output.bits() =~= old(output).bits() + coded_bits(views(tables@), sels@, input@));
    }
}

/// Chooses the tables for a block of symbols and writes the block.
pub fn encode(output: &mut OutputStream, mtf: Mtf)
    requires
        old(output).wf(),
        mtf.wf(),
        mtf.output@.len() <= MAX_FREQ,
    ensures
        final(output).wf(),
        final(output).bits() == old(output).bits() + block_bits(
            mtf.output@,
            mtf.num_syms as int,
            mtf.freqs@,
        ),
{
    let num_syms: usize = mtf.num_syms;
    let num_tables: usize = num_tables_for(num_syms);
    let ghost n = num_syms as int;
    let ghost input = mtf.output@;
    let ghost start = initial_tables(mtf.freqs@, n, num_tables as int);
    proof {
        assert(symbols_below(input, n));
        lemma_occ_sum_len(input, n);
        lemma_freq_sum_is_occ_sum(mtf.freqs@, input, 0, n);
    }
    let mut tables = build_initial_tables(num_syms, &mtf.freqs, mtf.output.len(), num_tables);
    let mut sels: Vec<usize> = Vec::new();
    let mut round: usize = 0;
    while round < NUM_REFINEMENTS
        invariant
            round <= NUM_REFINEMENTS,
            n == num_syms,
            3 <= num_syms <= MAX_SYMS,
            input == mtf.output@,
            input.len() <= MAX_FREQ,
            symbols_below(input, n),
            tables@.len() == num_tables,
            2 <= num_tables <= 6,
            views(tables@) == refined(start, input, n, round as nat),
            tables_ok(views(tables@), n, CODEWORD_MAX_LEN as int),
            round > 0 ==> sels@ == selectors(refined(start, input, n, (round - 1) as nat), input),
            round > 0 ==> forall|g: int| 0 <= g < sels@.len() ==> #[trigger] sels@[g] < num_tables,
        decreases NUM_REFINEMENTS - round,
    {
        let r = refine(&tables, &mtf.output, num_syms);
        tables = r.0;
        sels = r.1;
        round += 1;
    }
    write_coding(output, &tables, &sels, &mtf.output, num_syms);
}

} // verus!
