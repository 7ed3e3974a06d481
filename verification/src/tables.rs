//! The choice of coding tables for a block: how many there are, how they
//! start out, and how four rounds of assigning segments to tables and
//! rebuilding the tables refine them.

use crate::kraft::codable;
use crate::mtf::{lemma_occurrences_push, occurrences, NUM_FREQS};
use crate::queue::{MAX_FREQ, MAX_SYMS};
use crate::tree::{build_table_from_freqs, code_lengths, CODEWORD_MAX_LEN};
use vstd::prelude::*;

verus! {

/// The pretended length of a symbol inside a table's first span.
pub const INIT_LEN_HIGH: u8 = 15;

/// The pretended length of a symbol outside it.
pub const INIT_LEN_LOW: u8 = 0;

/// The number of rounds.
pub const NUM_REFINEMENTS: usize = 4;

/// The number of symbols that share a table.
pub const SEGMENT_WIDTH: usize = 50;

/// The number of tables for an alphabet of `num_syms` symbols.
pub open spec fn table_count(num_syms: int) -> int {
    if num_syms < 200 {
        2
    } else if num_syms < 600 {
        3
    } else if num_syms < 1200 {
        4
    } else if num_syms < 2400 {
        5
    } else {
        6
    }
}

/// The summed frequency of the symbols from `a` up to, not including, `b`.
pub open spec fn freq_sum(freqs: Seq<usize>, a: int, b: int) -> int
    decreases b - a,
{
    if b <= a {
        0
    } else {
        freq_sum(freqs, a, b - 1) + freqs[b - 1]
    }
}

/// The first symbol from `r` on with which the frequency gathered, `acc`
/// before it, reaches `target`; the last symbol if none does.
pub open spec fn span_from(freqs: Seq<usize>, r: int, acc: int, target: int, n: int) -> int
    decreases n - r,
{
    if acc + freqs[r] >= target || r + 1 >= n {
        r
    } else {
        span_from(freqs, r + 1, acc + freqs[r], target, n)
    }
}

/// The first and the last symbol of the span with which table `t` of
/// `tables` starts out. The span begins after that of the table before and
/// reaches to where it holds its even share of the frequency that is left;
/// that of an odd table which is neither first nor last gives up its last
/// symbol, if it has more than one. Once the symbols are used up the spans
/// are empty.
pub open spec fn span(freqs: Seq<usize>, n: int, tables: int, t: int) -> (int, int)
    decreases t,
{
    let left = if t <= 0 {
        0
    } else {
        span(freqs, n, tables, t - 1).1 + 1
    };
    if left >= n || t >= tables {
        (left, left)
    } else {
        let target = freq_sum(freqs, left, n) / (tables - t);
        let r = span_from(freqs, left, 0, target, n);
        if r > left && t != 0 && t != tables - 1 && t % 2 == 1 {
            (left, r - 1)
        } else {
            (left, r)
        }
    }
}

/// The table that table `t` starts out as.
pub open spec fn initial_table(freqs: Seq<usize>, n: int, tables: int, t: int) -> Seq<u8> {
    let sp = span(freqs, n, tables, t);
    Seq::new(
        n as nat,
        |s: int|
            if sp.0 <= s <= sp.1 {
                INIT_LEN_HIGH
            } else {
                INIT_LEN_LOW
            },
    )
}

/// The tables before the first round.
pub open spec fn initial_tables(freqs: Seq<usize>, n: int, tables: int) -> Seq<Seq<u8>> {
    Seq::new(tables as nat, |t: int| initial_table(freqs, n, tables, t))
}

/// The number of segments of an input of length `len`.
pub open spec fn segment_count(len: int) -> int {
    (len + SEGMENT_WIDTH - 1) / (SEGMENT_WIDTH as int)
}

/// Where segment `g` of an input of length `len` ends.
pub open spec fn segment_end(len: int, g: int) -> int {
    if SEGMENT_WIDTH * g + SEGMENT_WIDTH <= len {
        SEGMENT_WIDTH * g + SEGMENT_WIDTH
    } else {
        len
    }
}

/// The summed length under `table` of the symbols from place `a` up to place
/// `b` of the input.
pub open spec fn cost(table: Seq<u8>, input: Seq<u16>, a: int, b: int) -> int
    decreases b - a,
{
    if b <= a {
        0
    } else {
        cost(table, input, a, b - 1) + table[input[b - 1] as int]
    }
}

/// Among the first `count` tables the first of least cost for the places
/// from `a` up to `b`.
pub open spec fn best(tables: Seq<Seq<u8>>, input: Seq<u16>, a: int, b: int, count: int) -> int
    decreases count,
{
    if count <= 1 {
        0
    } else {
        let p = best(tables, input, a, b, count - 1);
        if cost(tables[count - 1], input, a, b) < cost(tables[p], input, a, b) {
            count - 1
        } else {
            p
        }
    }
}

/// The table chosen for segment `g`.
pub open spec fn selector(tables: Seq<Seq<u8>>, input: Seq<u16>, g: int) -> int {
    best(
        tables,
        input,
        SEGMENT_WIDTH * g,
        segment_end(input.len() as int, g),
        tables.len() as int,
    )
}

/// The table chosen for every segment.
pub open spec fn selectors(tables: Seq<Seq<u8>>, input: Seq<u16>) -> Seq<usize> {
    Seq::new(segment_count(input.len() as int) as nat, |g: int| selector(tables, input, g) as usize)
}

/// How often symbol `s` stands, among the first `upto` places of the input,
/// in a segment for which `sels` names table `t`.
pub open spec fn share(sels: Seq<usize>, input: Seq<u16>, t: int, s: int, upto: int) -> int
    decreases upto,
{
    if upto <= 0 {
        0
    } else {
        share(sels, input, t, s, upto - 1) + if input[upto - 1] == s && sels[(upto - 1) / (
        SEGMENT_WIDTH as int)] == t {
            1int
        } else {
            0int
        }
    }
}

/// The frequencies that table `t` is rebuilt from.
pub open spec fn shares(sels: Seq<usize>, input: Seq<u16>, t: int) -> Seq<usize> {
    Seq::new(NUM_FREQS as nat, |s: int| share(sels, input, t, s, input.len() as int) as usize)
}

/// Table `t` after a round that starts from `tables`.
pub open spec fn rebuilt_table(tables: Seq<Seq<u8>>, input: Seq<u16>, n: int, t: int) -> Seq<u8> {
    let lengths = code_lengths(n, shares(selectors(tables, input), input, t), 1);
    Seq::new(n as nat, |s: int| lengths[s] as u8)
}

/// The tables after a round that starts from `tables`.
pub open spec fn rebuilt(tables: Seq<Seq<u8>>, input: Seq<u16>, n: int) -> Seq<Seq<u8>> {
    Seq::new(tables.len(), |t: int| rebuilt_table(tables, input, n, t))
}

/// The tables after `rounds` rounds.
pub open spec fn refined(tables: Seq<Seq<u8>>, input: Seq<u16>, n: int, rounds: nat) -> Seq<
    Seq<u8>,
>
    decreases rounds,
{
    if rounds == 0 {
        tables
    } else {
        rebuilt(refined(tables, input, n, (rounds - 1) as nat), input, n)
    }
}

/// The views of the tables.
pub open spec fn views(tables: Seq<Vec<u8>>) -> Seq<Seq<u8>> {
    Seq::new(tables.len(), |t: int| tables[t]@)
}

/// Every table gives each of the `n` symbols a length of at most `cap`.
pub open spec fn tables_ok(tables: Seq<Seq<u8>>, n: int, cap: int) -> bool {
    &&& forall|t: int| 0 <= t < tables.len() ==> (#[trigger] tables[t]).len() == n
    &&& forall|t: int, s: int|
        0 <= t < tables.len() && 0 <= s < n ==> (#[trigger] tables[t][s]) <= cap
}

/// Every symbol of the input is below `n`.
pub open spec fn symbols_below(input: Seq<u16>, n: int) -> bool {
    forall|i: int| 0 <= i < input.len() ==> #[trigger] input[i] < n
}

/// The number of tables for an alphabet of `num_syms` symbols.
pub fn num_tables_for(num_syms: usize) -> (t: usize)
    ensures
        t == table_count(num_syms as int),
        2 <= t <= 6,
{
    if num_syms < 200 {
        2
    } else if num_syms < 600 {
        3
    } else if num_syms < 1200 {
        4
    } else if num_syms < 2400 {
        5
    } else {
        6
    }
}

/// A summed frequency is the sum over its two parts.
pub proof fn lemma_freq_sum_split(freqs: Seq<usize>, a: int, m: int, b: int)
    requires
        a <= m <= b,
    ensures
        freq_sum(freqs, a, b) == freq_sum(freqs, a, m) + freq_sum(freqs, m, b),
        freq_sum(freqs, a, b) >= 0,
    decreases b - m,
{
    if m < b {
        lemma_freq_sum_split(freqs, a, m, b - 1);
    } else {
        lemma_freq_sum_nonneg(freqs, a, b);
    }
}

/// No summed frequency is negative.
pub proof fn lemma_freq_sum_nonneg(freqs: Seq<usize>, a: int, b: int)
    ensures
        freq_sum(freqs, a, b) >= 0,
    decreases b - a,
{
    if a < b {
        lemma_freq_sum_nonneg(freqs, a, b - 1);
    }
}

/// The summed occurrences of the symbols from `a` up to `b`.
pub open spec fn occ_sum(s: Seq<u16>, a: int, b: int) -> int
    decreases b - a,
{
    if b <= a {
        0
    } else {
        occ_sum(s, a, b - 1) + occurrences(s, b - 1)
    }
}

/// Appending a symbol adds one to the sum over any range that holds it.
pub proof fn lemma_occ_sum_push(s: Seq<u16>, y: u16, a: int, b: int)
    requires
        a <= b,
    ensures
        occ_sum(s.push(y), a, b) == occ_sum(s, a, b) + if a <= y < b {
            1int
        } else {
            0int
        },
    decreases b - a,
{
    if a < b {
        lemma_occ_sum_push(s, y, a, b - 1);
        lemma_occurrences_push(s, y, b - 1);
    }
}

/// Counted symbol by symbol, the symbols below `n` are as many as the
/// string is long, if it holds no other.
pub proof fn lemma_occ_sum_len(s: Seq<u16>, n: int)
    requires
        symbols_below(s, n),
        0 <= n,
    ensures
        occ_sum(s, 0, n) == s.len(),
    decreases s.len(),
{
    if s.len() == 0 {
        lemma_occ_sum_zero(s, 0, n);
    } else {
        let before = s.drop_last();
        assert(s =~= before.push(s.last()));
        lemma_occ_sum_len(before, n);
        lemma_occ_sum_push(before, s.last(), 0, n);
    }
}

/// In the empty string nothing occurs.
pub proof fn lemma_occ_sum_zero(s: Seq<u16>, a: int, b: int)
    requires
        s.len() == 0,
    ensures
        occ_sum(s, a, b) == 0,
    decreases b - a,
{
    if a < b {
        lemma_occ_sum_zero(s, a, b - 1);
    }
}

/// Counters that count give the summed occurrences as their sum.
pub proof fn lemma_freq_sum_is_occ_sum(freqs: Seq<usize>, s: Seq<u16>, a: int, b: int)
    requires
        0 <= a,
        b <= freqs.len(),
        forall|x: int| 0 <= x < freqs.len() ==> #[trigger] freqs[x] == occurrences(s, x),
    ensures
        freq_sum(freqs, a, b) == occ_sum(s, a, b),
    decreases b - a,
{
    if a < b {
        lemma_freq_sum_is_occ_sum(freqs, s, a, b - 1);
    }
}

/// The table whose symbols from `left` to `right` have the high pretended
/// length.
fn span_table(num_syms: usize, left: usize, right: usize) -> (table: Vec<u8>)
    ensures
        table@ == Seq::new(
            num_syms as nat,
            |s: int|
                if left <= s <= right {
                    INIT_LEN_HIGH
                } else {
                    INIT_LEN_LOW
                },
        ),
{
    let mut table: Vec<u8> = Vec::new();
    let mut s: usize = 0;
    while s < num_syms
        invariant
            s <= num_syms,
            table@.len() == s,
            forall|j: int|
                0 <= j < s ==> #[trigger] table@[j] == if left <= j <= right {
                    INIT_LEN_HIGH
                } else {
                    INIT_LEN_LOW
                },
        decreases num_syms - s,
    {
        table.push(
            if s >= left && s <= right {
                INIT_LEN_HIGH
            } else {
                INIT_LEN_LOW
            },
        );
        s += 1;
    }
    assert(table@ =~= Seq::new(
        num_syms as nat,
        |s: int|
            if left <= s <= right {
                INIT_LEN_HIGH
            } else {
                INIT_LEN_LOW
            },
    ));
    table
}

/// The tables before the first round.
pub fn build_initial_tables(
    num_syms: usize,
    freqs: &Vec<usize>,
    input_size: usize,
    num_tables: usize,
) -> (tables: Vec<Vec<u8>>)
    requires
        1 <= num_syms <= freqs@.len(),
        num_syms <= MAX_SYMS,
        freq_sum(freqs@, 0, num_syms as int) == input_size,
        2 <= num_tables <= 6,
    ensures
        views(tables@) == initial_tables(freqs@, num_syms as int, num_tables as int),
        tables_ok(views(tables@), num_syms as int, INIT_LEN_HIGH as int),
        tables@.len() == num_tables,
{
    let mut tables: Vec<Vec<u8>> = Vec::new();
    let mut freq_remaining: usize = input_size;
    let mut sym_left: usize = 0;
    let mut cur_table: usize = 0;
    let ghost n = num_syms as int;
    let ghost tc = num_tables as int;
    while cur_table < num_tables
        invariant
            cur_table <= num_tables,
            2 <= num_tables <= 6,
            1 <= num_syms <= freqs@.len(),
            num_syms <= MAX_SYMS,
            n == num_syms,
            tc == num_tables,
            tables@.len() == cur_table,
            forall|t: int|
                0 <= t < cur_table ==> (#[trigger] tables@[t])@ == initial_table(freqs@, n, tc, t),
            sym_left == if cur_table == 0 {
                0
            } else {
                span(freqs@, n, tc, cur_table - 1).1 + 1
            },
            sym_left <= num_syms + cur_table,
            sym_left < num_syms ==> freq_remaining == freq_sum(freqs@, sym_left as int, n),
        decreases num_tables - cur_table,
    {
        let mut sym_right: usize = sym_left;
        let mut freq_acc: usize = 0;
        if sym_left < num_syms {
            let freq_target: usize = freq_remaining / (num_tables - cur_table);
            let ghost goal = span_from(freqs@, sym_left as int, 0, freq_target as int, n);
            loop
                invariant_except_break
                    freq_acc == freq_sum(freqs@, sym_left as int, sym_right as int),
                    span_from(freqs@, sym_right as int, freq_acc as int, freq_target as int, n)
                        == goal,
                invariant
                    sym_left <= sym_right < num_syms <= freqs@.len(),
                    n == num_syms,
                    freq_remaining == freq_sum(freqs@, sym_left as int, n),
                ensures
                    sym_right == goal,
                    freq_acc == freq_sum(freqs@, sym_left as int, sym_right + 1),
                decreases num_syms - sym_right,
            {
                proof {
                    lemma_freq_sum_split(freqs@, sym_left as int, sym_right + 1, n);
                    lemma_freq_sum_nonneg(freqs@, sym_right + 1, n);
                }
                freq_acc += freqs[sym_right];
                if freq_acc >= freq_target || sym_right + 1 == num_syms {
                    break;
                }
                sym_right += 1;
            }
            if sym_right > sym_left && cur_table != 0 && cur_table != num_tables - 1 && cur_table
                % 2 == 1 {
                proof {
                    lemma_freq_sum_nonneg(freqs@, sym_left as int, sym_right as int);
                }
                freq_acc -= freqs[sym_right];
                sym_right -= 1;
            }
            proof {
                lemma_freq_sum_split(freqs@, sym_left as int, sym_right + 1, n);
                lemma_freq_sum_nonneg(freqs@, sym_right + 1, n);
            }
        }
        assert((sym_left as int, sym_right as int) == span(freqs@, n, tc, cur_table as int));
        let table = span_table(num_syms, sym_left, sym_right);
        assert(table@ == initial_table(freqs@, n, tc, cur_table as int));
        tables.push(table);
        if sym_left < num_syms {
            freq_remaining -= freq_acc;
        }
        sym_left = sym_right + 1;
        cur_table += 1;
    }
    proof {
        assert(views(tables@) =~= initial_tables(freqs@, n, tc));
    }
    tables
}

/// The summed length under `table` of the symbols from place `a` up to place
/// `b`.
fn segment_cost(table: &Vec<u8>, input: &Vec<u16>, a: usize, b: usize) -> (c: usize)
    requires
        a <= b <= input@.len(),
        b - a <= SEGMENT_WIDTH,
        symbols_below(input@, table@.len() as int),
    ensures
        c == cost(table@, input@, a as int, b as int),
{
    let mut c: usize = 0;
    let mut i: usize = a;
    while i < b
        invariant
            a <= i <= b <= input@.len(),
            b - a <= SEGMENT_WIDTH,
            symbols_below(input@, table@.len() as int),
            c == cost(table@, input@, a as int, i as int),
            c <= 255 * (i - a),
        decreases b - i,
    {
        c += table[input[i] as usize] as usize;
        i += 1;
    }
    c
}

/// The first table of least cost for the places from `a` up to `b`.
fn choose_table(tables: &Vec<Vec<u8>>, input: &Vec<u16>, a: usize, b: usize) -> (t: usize)
    requires
        a <= b <= input@.len(),
        b - a <= SEGMENT_WIDTH,
        tables@.len() >= 1,
        forall|t: int|
            0 <= t < tables@.len() ==> symbols_below(input@, (#[trigger] tables@[t])@.len() as int),
    ensures
        t == best(views(tables@), input@, a as int, b as int, tables@.len() as int),
        t < tables@.len(),
{
    let mut best_table: usize = 0;
    let mut best_cost: usize = segment_cost(&tables[0], input, a, b);
    let mut t: usize = 1;
    while t < tables.len()
        invariant
            1 <= t <= tables@.len(),
            a <= b <= input@.len(),
            b - a <= SEGMENT_WIDTH,
            forall|t: int|
                0 <= t < tables@.len() ==> symbols_below(
                    input@,
                    (#[trigger] tables@[t])@.len() as int,
                ),
            best_table == best(views(tables@), input@, a as int, b as int, t as int),
            best_table < t,
            best_cost == cost(views(tables@)[best_table as int], input@, a as int, b as int),
        decreases tables@.len() - t,
    {
        let c: usize = segment_cost(&tables[t], input, a, b);
        if c < best_cost {
            best_table = t;
            best_cost = c;
        }
        t += 1;
    }
    best_table
}

/// The table chosen for every segment.
pub fn select_tables(tables: &Vec<Vec<u8>>, input: &Vec<u16>) -> (sels: Vec<usize>)
    requires
        input@.len() <= MAX_FREQ,
        tables@.len() >= 1,
        forall|t: int|
            0 <= t < tables@.len() ==> symbols_below(input@, (#[trigger] tables@[t])@.len() as int),
    ensures
        sels@ == selectors(views(tables@), input@),
        forall|g: int| 0 <= g < sels@.len() ==> #[trigger] sels@[g] < tables@.len(),
{
    let mut sels: Vec<usize> = Vec::new();
    let input_size: usize = input.len();
    let mut left: usize = 0;
    while left < input_size
        invariant
            input_size == input@.len(),
            input_size <= MAX_FREQ,
            left == SEGMENT_WIDTH * sels@.len() || (left == input_size && sels@.len()
                == segment_count(input_size as int)),
            sels@.len() <= segment_count(input_size as int),
            tables@.len() >= 1,
            forall|t: int|
                0 <= t < tables@.len() ==> symbols_below(
                    input@,
                    (#[trigger] tables@[t])@.len() as int,
                ),
            forall|g: int|
                0 <= g < sels@.len() ==> #[trigger] sels@[g] == selector(
                    views(tables@),
                    input@,
                    g,
                ),
            forall|g: int| 0 <= g < sels@.len() ==> #[trigger] sels@[g] < tables@.len(),
        decreases input_size - left,
    {
        let right: usize = if left + SEGMENT_WIDTH <= input_size {
            left + SEGMENT_WIDTH
        } else {
            input_size
        };
        assert(right == segment_end(input_size as int, sels@.len() as int));
        let t: usize = choose_table(tables, input, left, right);
        sels.push(t);
        left = right;
    }
    assert(sels@.len() == segment_count(input_size as int));
    assert(sels@ =~= selectors(views(tables@), input@));
    sels
}

/// The frequencies that table `t` is rebuilt from.
pub fn table_shares(sels: &Vec<usize>, input: &Vec<u16>, t: usize) -> (freqs: Vec<usize>)
    requires
        sels@.len() == segment_count(input@.len() as int),
        symbols_below(input@, NUM_FREQS as int),
    ensures
        freqs@ == shares(sels@, input@, t as int),
        forall|s: int| 0 <= s < NUM_FREQS ==> #[trigger] freqs@[s] <= input@.len(),
{
    let mut freqs: Vec<usize> = Vec::new();
    let mut s: usize = 0;
    while s < NUM_FREQS
        invariant
            s <= NUM_FREQS,
            freqs@.len() == s,
            forall|j: int| 0 <= j < s ==> #[trigger] freqs@[j] == 0,
        decreases NUM_FREQS - s,
    {
        freqs.push(0);
        s += 1;
    }
    let n: usize = input.len();
    let mut i: usize = 0;
    while i < n
        invariant
            i <= n,
            n == input@.len(),
            sels@.len() == segment_count(n as int),
            symbols_below(input@, NUM_FREQS as int),
            freqs@.len() == NUM_FREQS,
            forall|s: int|
                0 <= s < NUM_FREQS ==> #[trigger] freqs@[s] == share(
                    sels@,
                    input@,
                    t as int,
                    s,
                    i as int,
                ),
            forall|s: int| 0 <= s < NUM_FREQS ==> #[trigger] freqs@[s] <= i,
        decreases n - i,
    {
        assert(i / SEGMENT_WIDTH < segment_count(n as int));
        if sels[i / SEGMENT_WIDTH] == t {
            let sym: usize = input[i] as usize;
            let f: usize = freqs[sym];
            freqs[sym] = f + 1;
        }
        i += 1;
    }
    assert(freqs@ =~= shares(sels@, input@, t as int));
    freqs
}

/// One round: every segment goes to the table that codes it shortest, and
/// every table is rebuilt from the symbols of its segments. Returns the new
/// tables and the choice that was made.
pub fn refine(tables: &Vec<Vec<u8>>, input: &Vec<u16>, num_syms: usize) -> (r: (
    Vec<Vec<u8>>,
    Vec<usize>,
))
    requires
        input@.len() <= MAX_FREQ,
        2 <= num_syms <= MAX_SYMS,
        symbols_below(input@, num_syms as int),
        tables@.len() >= 1,
        tables_ok(views(tables@), num_syms as int, 255),
    ensures
        forall|t: int| 0 <= t < r.0@.len() ==> codable((#[trigger] r.0@[t])@),
        views(r.0@) == rebuilt(views(tables@), input@, num_syms as int),
        r.1@ == selectors(views(tables@), input@),
        tables_ok(views(r.0@), num_syms as int, CODEWORD_MAX_LEN as int),
        r.0@.len() == tables@.len(),
        forall|g: int| 0 <= g < r.1@.len() ==> #[trigger] r.1@[g] < tables@.len(),
{
    proof {
        assert forall|t: int| 0 <= t < tables@.len() implies symbols_below(
            input@,
            (#[trigger] tables@[t])@.len() as int,
        ) by {
            assert(views(tables@)[t].len() == num_syms);
        }
    }
    let sels = select_tables(tables, input);
    let mut rebuilt_tables: Vec<Vec<u8>> = Vec::new();
    let mut t: usize = 0;
    let ghost n = num_syms as int;
    while t < tables.len()
        invariant
            t <= tables@.len(),
            n == num_syms,
            input@.len() <= MAX_FREQ,
            2 <= num_syms <= MAX_SYMS,
            symbols_below(input@, n),
            sels@ == selectors(views(tables@), input@),
            forall|u: int| 0 <= u < t ==> codable((#[trigger] rebuilt_tables@[u])@),
            rebuilt_tables@.len() == t,
            forall|u: int|
                0 <= u < t ==> (#[trigger] rebuilt_tables@[u])@ == rebuilt_table(
                    views(tables@),
                    input@,
                    n,
                    u,
                ),
            forall|u: int| 0 <= u < t ==> (#[trigger] rebuilt_tables@[u])@.len() == n,
            forall|u: int, s: int|
                0 <= u < t && 0 <= s < n ==> (#[trigger] rebuilt_tables@[u]@[s])
                    <= CODEWORD_MAX_LEN,
        decreases tables@.len() - t,
    {
        let freqs = table_shares(&sels, input, t);
        let table = build_table_from_freqs(num_syms, &freqs);
        assert(table@ =~= rebuilt_table(views(tables@), input@, n, t as int));
        rebuilt_tables.push(table);
        t += 1;
    }
    proof {
        assert(views(rebuilt_tables@) =~= rebuilt(views(tables@), input@, n));
    }
    (rebuilt_tables, sels)
}

} // verus!
