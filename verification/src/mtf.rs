//! The move-to-front transform and the coding of its zero runs.
//!
//! The bytes that occur in a block are named 0, 1, ... in rising order. Each
//! byte is replaced by the place of its name in a list of the names, most
//! recently used first; runs of place 0 are then written in a bijective
//! base-two code of the two symbols `RUN_A` and `RUN_B`, every other place
//! `r` as the symbol `r + 1`, and the block ends with a symbol of its own.

use vstd::prelude::*;

verus! {

/// The zero-run digit that counts one unit of its place value.
pub const RUN_A: u16 = 0;

/// The zero-run digit that counts two units of its place value.
pub const RUN_B: u16 = 1;

/// The number of frequency counters: two run digits, 255 places, the end.
pub const NUM_FREQS: usize = 258;

/// How many of the bytes below `b` occur.
pub open spec fn names_below(has_byte: Seq<bool>, b: int) -> int
    decreases b,
{
    if b <= 0 {
        0
    } else {
        names_below(has_byte, b - 1) + if has_byte[b - 1] {
            1int
        } else {
            0int
        }
    }
}

/// The name of byte `b`; a byte that is marked absent shares name 0.
pub open spec fn name_of(has_byte: Seq<bool>, b: int) -> int {
    if has_byte[b] {
        names_below(has_byte, b)
    } else {
        0
    }
}

/// The names of a byte string.
pub open spec fn names_of(has_byte: Seq<bool>, buf: Seq<u8>) -> Seq<int> {
    Seq::new(buf.len(), |i: int| name_of(has_byte, buf[i] as int))
}

/// The first place at which `x` stands in `list`, or its length.
pub open spec fn place(list: Seq<int>, x: int) -> int
    decreases list.len(),
{
    if list.len() == 0 {
        0
    } else if list[0] == x {
        0
    } else {
        1 + place(list.skip(1), x)
    }
}

/// The list with `x` moved from its first place to the front.
pub open spec fn moved(list: Seq<int>, x: int) -> Seq<int> {
    let r = place(list, x);
    seq![x] + list.take(r) + list.skip(r + 1)
}

/// The recency list after `names` have gone by, starting from `0, 1, ..., k - 1`.
pub open spec fn recency_after(names: Seq<int>, k: int) -> Seq<int>
    decreases names.len(),
{
    if names.len() == 0 {
        Seq::new(k as nat, |i: int| i)
    } else {
        moved(recency_after(names.drop_last(), k), names.last())
    }
}

/// The place of each name in the recency list that the names before it left.
pub open spec fn places(names: Seq<int>, k: int) -> Seq<int> {
    Seq::new(names.len(), |i: int| place(recency_after(names.take(i), k), names[i]))
}

/// The digits for a run of `m - 1` zeros, least significant first: the
/// binary digits of `m` below its leading one.
pub open spec fn run_code(m: int) -> Seq<u16>
    decreases m,
{
    if m <= 1 {
        Seq::empty()
    } else {
        seq![(m % 2) as u16] + run_code(m / 2)
    }
}

/// How many zeros end `places`.
pub open spec fn zeros_at_end(places: Seq<int>) -> int
    decreases places.len(),
{
    if places.len() == 0 || places.last() != 0 {
        0
    } else {
        1 + zeros_at_end(places.drop_last())
    }
}

/// The symbols for `places` up to its last place that is not zero.
pub open spec fn settled(places: Seq<int>) -> Seq<u16>
    decreases places.len(),
{
    if places.len() == 0 {
        Seq::empty()
    } else if places.last() == 0 {
        settled(places.drop_last())
    } else {
        settled(places.drop_last()) + run_code(zeros_at_end(places.drop_last()) + 1) + seq![
            (places.last() + 1) as u16,
        ]
    }
}

/// The symbols of a block whose bytes have the places `places`, with `k`
/// names in all.
pub open spec fn symbols(places: Seq<int>, k: int) -> Seq<u16> {
    settled(places) + run_code(zeros_at_end(places) + 1) + seq![(k + 1) as u16]
}

/// How often `x` stands in `s`.
pub open spec fn occurrences(s: Seq<u16>, x: int) -> int
    decreases s.len(),
{
    if s.len() == 0 {
        0
    } else {
        occurrences(s.drop_last(), x) + if s.last() == x {
            1int
        } else {
            0int
        }
    }
}

/// The symbols of a block, the size of their alphabet, and how often each
/// occurs.
pub struct Mtf {
    pub output: Vec<u16>,
    pub num_syms: usize,
    pub freqs: Vec<usize>,
}

impl Mtf {
    /// The alphabet has at least three symbols, every symbol is in it, and
    /// the counters count.
    pub open spec fn wf(&self) -> bool {
        &&& 3 <= self.num_syms <= NUM_FREQS
        &&& self.freqs@.len() == NUM_FREQS
        &&& self.output@.len() >= 1
        &&& forall|i: int| 0 <= i < self.output@.len() ==> #[trigger] self.output@[i] < self.num_syms
        &&& forall|s: int|
            0 <= s < NUM_FREQS ==> #[trigger] self.freqs@[s] == occurrences(self.output@, s)
    }
}

/// Below `b` there are at most `b` names.
pub proof fn lemma_names_below_bounds(has_byte: Seq<bool>, b: int)
    requires
        0 <= b,
    ensures
        0 <= names_below(has_byte, b) <= b,
    decreases b,
{
    if b > 0 {
        lemma_names_below_bounds(has_byte, b - 1);
    }
}

/// The names rise with the bytes, and past a byte that occurs they rise
/// strictly.
pub proof fn lemma_names_below_mono(has_byte: Seq<bool>, a: int, b: int)
    requires
        0 <= a <= b,
    ensures
        names_below(has_byte, a) <= names_below(has_byte, b),
        a < b && has_byte[a] ==> names_below(has_byte, a) < names_below(has_byte, b),
    decreases b - a,
{
    if a < b {
        lemma_names_below_mono(has_byte, a, b - 1);
        if a == b - 1 {
        }
    }
}

/// A run of `z` zeros takes at most `z` digits, each a run digit.
pub proof fn lemma_run_code(m: int)
    requires
        1 <= m,
    ensures
        run_code(m).len() <= m - 1,
        forall|i: int| 0 <= i < run_code(m).len() ==> #[trigger] run_code(m)[i] <= 1,
    decreases m,
{
    if m > 1 {
        lemma_run_code(m / 2);
    }
}

/// Appending a symbol adds one occurrence of it and of no other.
pub proof fn lemma_occurrences_push(s: Seq<u16>, y: u16, x: int)
    ensures
        occurrences(s.push(y), x) == occurrences(s, x) + if y == x {
            1int
        } else {
            0int
        },
{
    assert(s.push(y).drop_last() =~= s);
}

/// The first place of `x` holds `x`, and no place before it does.
pub proof fn lemma_place_bounds(list: Seq<int>, x: int)
    ensures
        0 <= place(list, x) <= list.len(),
        place(list, x) < list.len() ==> list[place(list, x)] == x,
        forall|j: int| 0 <= j < place(list, x) ==> list[j] != x,
    decreases list.len(),
{
    if list.len() > 0 && list[0] != x {
        lemma_place_bounds(list.skip(1), x);
        assert forall|j: int| 0 <= j < place(list, x) implies list[j] != x by {
            if j > 0 {
                assert(list.skip(1)[j - 1] == list[j]);
            }
        }
    }
}

/// The first place of `x` is `r` when `x` stands at `r` and nowhere before.
pub proof fn lemma_place_is(list: Seq<int>, x: int, r: int)
    requires
        0 <= r < list.len(),
        list[r] == x,
        forall|j: int| 0 <= j < r ==> list[j] != x,
    ensures
        place(list, x) == r,
{
    lemma_place_bounds(list, x);
    let p = place(list, x);
    if p > r {
    } else if p < r {
    }
}

/// A list holds each of `0, ..., k - 1`.
pub open spec fn complete(list: Seq<int>, k: int) -> bool {
    &&& list.len() == k
    &&& forall|x: int| 0 <= x < k ==> #[trigger] list.contains(x)
}

/// Moving a name to the front keeps all names in the list.
pub proof fn lemma_moved_complete(list: Seq<int>, x: int, k: int)
    requires
        complete(list, k),
        0 <= x < k,
    ensures
        complete(moved(list, x), k),
{
    lemma_place_bounds(list, x);
    let r = place(list, x);
    assert(list.contains(x));
    let w = choose|i: int| 0 <= i < list.len() && list[i] == x;
    assert(r <= w);
    let m = moved(list, x);
    assert(m.len() == k);
    assert forall|y: int| 0 <= y < k implies #[trigger] m.contains(y) by {
        assert(list.contains(y));
        let i = choose|i: int| 0 <= i < list.len() && list[i] == y;
        if i < r {
            assert(m[i + 1] == y);
        } else if i == r {
            assert(m[0] == y);
        } else {
            assert(m[i] == y);
        }
    }
}

/// The recency list always holds all names.
pub proof fn lemma_recency_complete(names: Seq<int>, k: int)
    requires
        0 <= k,
        forall|i: int| 0 <= i < names.len() ==> 0 <= #[trigger] names[i] < k,
    ensures
        complete(recency_after(names, k), k),
    decreases names.len(),
{
    if names.len() == 0 {
        let l = recency_after(names, k);
        assert forall|x: int| 0 <= x < k implies #[trigger] l.contains(x) by {
            assert(l[x] == x);
        }
    } else {
        lemma_recency_complete(names.drop_last(), k);
        lemma_moved_complete(recency_after(names.drop_last(), k), names.last(), k);
    }
}

/// A symbol occurs at most as often as the string is long.
pub proof fn lemma_occurrences_bound(s: Seq<u16>, x: int)
    ensures
        0 <= occurrences(s, x) <= s.len(),
    decreases s.len(),
{
    if s.len() > 0 {
        lemma_occurrences_bound(s.drop_last(), x);
    }
}

/// The settled symbols and the pending zeros together are no more than the
/// places they stand for, and each symbol is a run digit or a place plus one.
pub proof fn lemma_settled(places: Seq<int>, k: int)
    requires
        forall|i: int| 0 <= i < places.len() ==> 0 <= #[trigger] places[i] < k,
        k <= 256,
    ensures
        settled(places).len() + zeros_at_end(places) <= places.len(),
        0 <= zeros_at_end(places),
        forall|i: int| 0 <= i < settled(places).len() ==> #[trigger] settled(places)[i] <= k,
    decreases places.len(),
{
    if places.len() > 0 {
        let before = places.drop_last();
        lemma_settled(before, k);
        if places.last() != 0 {
            lemma_run_code(zeros_at_end(before) + 1);
        }
    }
}

/// The reading of a symbol string as it stands after the last symbol read
/// in: the places it stands for so far, the zeros of the run that is being
/// read, and what the next run digit counts in units.
pub struct Unzero {
    pub out: Seq<int>,
    pub run: int,
    pub unit: int,
}

/// `n` zeros.
pub open spec fn zeros(n: int) -> Seq<int> {
    Seq::new(n as nat, |i: int| 0int)
}

/// The reading after one more symbol. A run digit adds its units to the run
/// and doubles the unit; any other symbol ends the run, and stands for the
/// place one below it unless it is the end mark `k + 1`.
pub open spec fn unzero_more(u: Unzero, sym: u16, k: int) -> Unzero {
    if sym == RUN_A {
        Unzero { out: u.out, run: u.run + u.unit, unit: 2 * u.unit }
    } else if sym == RUN_B {
        Unzero { out: u.out, run: u.run + 2 * u.unit, unit: 2 * u.unit }
    } else if sym == k + 1 {
        Unzero { out: u.out + zeros(u.run), run: 0, unit: 1 }
    } else {
        Unzero { out: (u.out + zeros(u.run)).push(sym - 1), run: 0, unit: 1 }
    }
}

/// The reading `u` carried on over the symbols `syms`.
pub open spec fn unzero_on(u: Unzero, syms: Seq<u16>, k: int) -> Unzero
    decreases syms.len(),
{
    if syms.len() == 0 {
        u
    } else {
        unzero_more(unzero_on(u, syms.drop_last(), k), syms.last(), k)
    }
}

/// The places that a symbol string stands for.
pub open spec fn unsymbols(syms: Seq<u16>, k: int) -> Seq<int> {
    unzero_on(Unzero { out: Seq::empty(), run: 0, unit: 1 }, syms, k).out
}

/// The names that a string of places stands for.
pub open spec fn unplaces(places: Seq<int>, k: int) -> Seq<int>
    decreases places.len(),
{
    if places.len() == 0 {
        Seq::empty()
    } else {
        unplaces(places.drop_last(), k).push(
            recency_after(unplaces(places.drop_last(), k), k)[places.last()],
        )
    }
}

/// The byte with the name `name`.
pub open spec fn byte_named(has_byte: Seq<bool>, name: int) -> u8 {
    choose|b: u8| has_byte[b as int] && names_below(has_byte, b as int) == name
}

/// The bytes that a string of names stands for.
pub open spec fn unnames(has_byte: Seq<bool>, names: Seq<int>) -> Seq<u8> {
    Seq::new(names.len(), |i: int| byte_named(has_byte, names[i]))
}

/// The bytes that a block's symbols stand for, `has_byte` marking the bytes
/// that occur.
pub open spec fn unmtf(has_byte: Seq<bool>, syms: Seq<u16>) -> Seq<u8> {
    let k = names_below(has_byte, 256);
    unnames(has_byte, unplaces(unsymbols(syms, k), k))
}

/// Reading a string is reading its first part and carrying on over the rest.
pub proof fn lemma_unzero_concat(u: Unzero, a: Seq<u16>, b: Seq<u16>, k: int)
    ensures
        unzero_on(u, a + b, k) == unzero_on(unzero_on(u, a, k), b, k),
    decreases b.len(),
{
    if b.len() == 0 {
        assert(a + b =~= a);
    } else {
        assert((a + b).drop_last() =~= a + b.drop_last());
        lemma_unzero_concat(u, a, b.drop_last(), k);
    }
}

/// Reading the digits of a run of `m - 1` zeros adds `m - 1` units.
pub proof fn lemma_unzero_run(u: Unzero, m: int, k: int)
    requires
        1 <= m,
        1 <= k,
    ensures
        unzero_on(u, run_code(m), k).out == u.out,
        unzero_on(u, run_code(m), k).run == u.run + u.unit * (m - 1),
    decreases m,
{
    if m > 1 {
        let d = (m % 2) as u16;
        let rest = run_code(m / 2);
        let first = seq![d];
        assert(first.drop_last() =~= Seq::<u16>::empty());
        assert(unzero_on(u, Seq::<u16>::empty(), k) == u);
        assert(first.last() == d);
        let u1 = unzero_on(u, first, k);
        assert(u1 == unzero_more(u, d, k));
        lemma_unzero_concat(u, first, rest, k);
        lemma_unzero_run(u1, m / 2, k);
        let q = m / 2;
        let r = m % 2;
        assert(m == 2 * q + r && 0 <= r < 2);
        assert(u1.unit == 2 * u.unit);
        assert(u1.run == u.run + u.unit * (1 + r)) by {
            if r == 0 {
                assert(u.unit * (1 + 0) == u.unit) by (nonlinear_arith);
            } else {
                assert(u.unit * (1 + 1) == 2 * u.unit) by (nonlinear_arith);
            }
        }
        assert(u.unit * (1 + r) + (2 * u.unit) * (q - 1) == u.unit * (m - 1)) by (nonlinear_arith)
            requires
                m == 2 * q + r,
        ;
    } else {
        assert(u.unit * 0 == 0);
    }
}

/// The places without the zeros that end them.
pub open spec fn stripped(places: Seq<int>) -> Seq<int> {
    places.take(places.len() - zeros_at_end(places))
}

/// The places are the places without the zeros at their end, and those
/// zeros.
pub proof fn lemma_stripped(places: Seq<int>)
    ensures
        0 <= zeros_at_end(places) <= places.len(),
        stripped(places) + zeros(zeros_at_end(places)) == places,
    decreases places.len(),
{
    if places.len() == 0 || places.last() != 0 {
        assert(stripped(places) + zeros(0) =~= places);
    } else {
        lemma_stripped(places.drop_last());
        let before = places.drop_last();
        assert(stripped(places) =~= stripped(before));
        assert(stripped(places) + zeros(zeros_at_end(places)) =~= (stripped(before) + zeros(
            zeros_at_end(before),
        )).push(0));
        assert(before.push(0) =~= places);
    }
}

/// Reading the settled symbols gives the places up to the last that is not
/// zero, with no run open.
pub proof fn lemma_unzero_settled(places: Seq<int>, k: int)
    requires
        1 <= k <= 256,
        forall|i: int| 0 <= i < places.len() ==> 0 <= #[trigger] places[i] < k,
    ensures
        unzero_on(Unzero { out: Seq::empty(), run: 0, unit: 1 }, settled(places), k) == (Unzero {
            out: stripped(places),
            run: 0,
            unit: 1,
        }),
    decreases places.len(),
{
    let start = Unzero { out: Seq::empty(), run: 0, unit: 1 };
    if places.len() == 0 {
        assert(stripped(places) =~= Seq::<int>::empty());
    } else {
        let before = places.drop_last();
        lemma_unzero_settled(before, k);
        lemma_stripped(before);
        lemma_stripped(places);
        if places.last() == 0 {
            assert(stripped(places) =~= stripped(before));
        } else {
            let z = zeros_at_end(before);
            let sym = (places.last() + 1) as u16;
            let a = settled(before);
            let digits = run_code(z + 1);
            let u0 = unzero_on(start, a, k);
            lemma_unzero_concat(start, a, digits, k);
            lemma_unzero_run(u0, z + 1, k);
            let u1 = unzero_on(start, a + digits, k);
            assert(u1.out == stripped(before) && u1.run == z);
            assert((a + digits + seq![sym]).drop_last() =~= a + digits);
            assert(settled(places) =~= a + digits + seq![sym]);
            assert(stripped(places) =~= places);
            assert((stripped(before) + zeros(z)).push(places.last()) =~= places);
        }
    }
}

/// The symbols of a block stand for its places.
pub proof fn lemma_symbols_decode(places: Seq<int>, k: int)
    requires
        1 <= k <= 256,
        forall|i: int| 0 <= i < places.len() ==> 0 <= #[trigger] places[i] < k,
    ensures
        unsymbols(symbols(places, k), k) == places,
{
    let start = Unzero { out: Seq::empty(), run: 0, unit: 1 };
    let a = settled(places);
    let z = zeros_at_end(places);
    let digits = run_code(z + 1);
    let eob = (k + 1) as u16;
    lemma_unzero_settled(places, k);
    lemma_stripped(places);
    lemma_unzero_concat(start, a, digits, k);
    lemma_unzero_run(unzero_on(start, a, k), z + 1, k);
    assert((a + digits + seq![eob]).drop_last() =~= a + digits);
    assert(symbols(places, k) =~= a + digits + seq![eob]);
}

/// The places of a string of names are, up to any place, the places of the
/// names up to there.
pub proof fn lemma_places_take(names: Seq<int>, k: int, i: int)
    requires
        0 <= i <= names.len(),
    ensures
        places(names, k).take(i) == places(names.take(i), k),
{
    assert forall|j: int| 0 <= j < i implies places(names, k).take(i)[j] == places(
        names.take(i),
        k,
    )[j] by {
        assert(names.take(i).take(j) =~= names.take(j));
    }
    assert(places(names, k).take(i) =~= places(names.take(i), k));
}

/// The places of a string of names stand for the names.
pub proof fn lemma_places_decode(names: Seq<int>, k: int)
    requires
        0 <= k,
        forall|i: int| 0 <= i < names.len() ==> 0 <= #[trigger] names[i] < k,
    ensures
        unplaces(places(names, k), k) == names,
        forall|i: int| 0 <= i < names.len() ==> 0 <= #[trigger] places(names, k)[i] < k,
    decreases names.len(),
{
    if names.len() == 0 {
        assert(places(names, k) =~= Seq::<int>::empty());
    } else {
        let before = names.drop_last();
        let n = names.len() as int;
        lemma_places_decode(before, k);
        lemma_places_take(names, k, n - 1);
        assert(names.take(n - 1) =~= before);
        assert(places(names, k).drop_last() =~= places(before, k));
        lemma_recency_complete(before, k);
        let list = recency_after(before, k);
        lemma_place_bounds(list, names.last());
        assert(list.contains(names.last()));
        assert(unplaces(places(names, k), k) =~= names);
        assert forall|i: int| 0 <= i < names.len() implies 0 <= #[trigger] places(names, k)[i]
            < k by {
            if i < n - 1 {
                assert(places(names, k)[i] == places(before, k)[i]);
            }
        }
    }
}

/// The name of a byte that occurs is the name of that byte only.
pub proof fn lemma_byte_named(has_byte: Seq<bool>, b: u8)
    requires
        has_byte.len() == 256,
        has_byte[b as int],
    ensures
        byte_named(has_byte, name_of(has_byte, b as int)) == b,
{
    let c = byte_named(has_byte, name_of(has_byte, b as int));
    assert(has_byte[c as int] && names_below(has_byte, c as int) == names_below(
        has_byte,
        b as int,
    ));
    if c < b {
        lemma_names_below_mono(has_byte, c as int, b as int);
    } else if b < c {
        lemma_names_below_mono(has_byte, b as int, c as int);
    }
}

/// The symbols of a block stand for the bytes of the block, if `has_byte`
/// marks every byte of it.
pub proof fn lemma_mtf_decodes(has_byte: Seq<bool>, buf: Seq<u8>)
    requires
        has_byte.len() == 256,
        forall|i: int| 0 <= i < buf.len() ==> has_byte[#[trigger] buf[i] as int],
        buf.len() > 0,
    ensures
        unmtf(
            has_byte,
            symbols(
                places(names_of(has_byte, buf), names_below(has_byte, 256)),
                names_below(has_byte, 256),
            ),
        ) == buf,
{
    let k = names_below(has_byte, 256);
    let names = names_of(has_byte, buf);
    lemma_names_below_bounds(has_byte, 256);
    assert forall|i: int| 0 <= i < names.len() implies 0 <= #[trigger] names[i] < k by {
        let b = buf[i] as int;
        lemma_names_below_bounds(has_byte, b);
        lemma_names_below_mono(has_byte, b, 256);
    }
    assert(0 <= names[0] < k);
    lemma_places_decode(names, k);
    lemma_symbols_decode(places(names, k), k);
    assert forall|i: int| 0 <= i < buf.len() implies unnames(has_byte, names)[i] == buf[i] by {
        lemma_byte_named(has_byte, buf[i]);
    }
    assert(unnames(has_byte, names) =~= buf);
}

/// Counts one more occurrence of `sym`, which has just been appended.
fn count(output: &Vec<u16>, freqs: &mut Vec<usize>, sym: u16, Ghost(before): Ghost<Seq<u16>>)
    requires
        old(freqs)@.len() == NUM_FREQS,
        sym < NUM_FREQS,
        output@ == before.push(sym),
        forall|s: int| 0 <= s < NUM_FREQS ==> #[trigger] old(freqs)@[s] == occurrences(before, s),
    ensures
        final(freqs)@.len() == NUM_FREQS,
        forall|s: int|
            0 <= s < NUM_FREQS ==> #[trigger] final(freqs)@[s] == occurrences(output@, s),
{
    let n: usize = output.len();
    proof {
        lemma_occurrences_bound(before, sym as int);
        assert forall|s: int| 0 <= s < NUM_FREQS implies occurrences(output@, s) == occurrences(
            before,
            s,
        ) + if sym == s {
            1int
        } else {
            0int
        } by {
            lemma_occurrences_push(before, sym, s);
        }
    }
    let f: usize = freqs[sym as usize];
    freqs[sym as usize] = f + 1;
}

/// Appends the digits for a run of `zero_count` zeros.
fn push_run(output: &mut Vec<u16>, freqs: &mut Vec<usize>, zero_count: usize)
    requires
        old(freqs)@.len() == NUM_FREQS,
        zero_count < usize::MAX,
        forall|s: int|
            0 <= s < NUM_FREQS ==> #[trigger] old(freqs)@[s] == occurrences(old(output)@, s),
    ensures
        final(output)@ == old(output)@ + run_code(zero_count + 1),
        final(freqs)@.len() == NUM_FREQS,
        forall|s: int|
            0 <= s < NUM_FREQS ==> #[trigger] final(freqs)@[s] == occurrences(final(output)@, s),
{
    let mut code: usize = zero_count + 1;
    assert(old(output)@ + run_code(code as int) =~= old(output)@ + run_code(zero_count + 1));
    while code > 1
        invariant
            1 <= code,
            freqs@.len() == NUM_FREQS,
            output@ + run_code(code as int) == old(output)@ + run_code(zero_count + 1),
            forall|s: int| 0 <= s < NUM_FREQS ==> #[trigger] freqs@[s] == occurrences(output@, s),
        decreases code,
    {
        let digit: u16 = if code % 2 == 0 {
            RUN_A
        } else {
            RUN_B
        };
        let ghost before = output@;
        output.push(digit);
        count(output, freqs, digit, Ghost(before));
        proof {
            assert(run_code(code as int) == seq![(code as int % 2) as u16] + run_code(
                code as int / 2,
            ));
            assert(output@ + run_code(code as int / 2) =~= before + run_code(code as int));
        }
        code = code / 2;
    }
    assert(run_code(code as int) =~= Seq::<u16>::empty());
    assert(output@ + run_code(code as int) =~= output@);
}

/// The name of each byte value.
fn name_bytes(has_byte: &Vec<bool>) -> (r: (Vec<u8>, usize))
    requires
        has_byte@.len() == 256,
    ensures
        r.0@.len() == 256,
        r.1 == names_below(has_byte@, 256),
        forall|b: int| 0 <= b < 256 ==> #[trigger] r.0@[b] == name_of(has_byte@, b),
{
    let mut names: Vec<u8> = Vec::new();
    let mut num_names: usize = 0;
    let mut b: usize = 0;
    while b < 256
        invariant
            b <= 256,
            has_byte@.len() == 256,
            names@.len() == b,
            num_names == names_below(has_byte@, b as int),
            forall|j: int| 0 <= j < b ==> #[trigger] names@[j] == name_of(has_byte@, j),
        decreases 256 - b,
    {
        proof {
            lemma_names_below_bounds(has_byte@, b as int);
        }
        if has_byte[b] {
            names.push(num_names as u8);
            num_names += 1;
        } else {
            names.push(0u8);
        }
        b += 1;
    }
    (names, num_names)
}

/// Moves `name` to the front of the recency list and returns the place it
/// had, which is not the front.
pub(crate) fn move_to_front(
    recency: &mut Vec<u8>,
    name: u8,
    Ghost(list): Ghost<Seq<int>>,
) -> (r: usize)
    requires
        old(recency)@.len() == list.len(),
        forall|j: int| 0 <= j < list.len() ==> #[trigger] old(recency)@[j] == list[j],
        list.contains(name as int),
        list.len() >= 1,
        list[0] != name,
    ensures
        r == place(list, name as int),
        1 <= r < list.len(),
        final(recency)@.len() == list.len(),
        forall|j: int|
            0 <= j < list.len() ==> #[trigger] final(recency)@[j] == moved(list, name as int)[j],
{
    let k: usize = recency.len();
    let ghost w = choose|i: int| 0 <= i < list.len() && list[i] == name as int;
    let mut n0: u8 = recency[0];
    recency[0] = name;
    let mut r: usize = 1;
    loop
        invariant_except_break
            n0 == list[r - 1],
            forall|j: int| 1 <= j < r ==> #[trigger] recency@[j] == list[j - 1],
            forall|j: int| r <= j < k ==> #[trigger] recency@[j] == list[j],
        invariant
            1 <= r <= k,
            k == list.len(),
            recency@.len() == k,
            0 <= w < k,
            list[w] == name as int,
            recency@[0] == name,
            forall|j: int| 0 <= j < r ==> #[trigger] list[j] != name as int,
        ensures
            1 <= r < k,
            recency@.len() == k,
            recency@[0] == name,
            list[r as int] == name as int,
            forall|j: int| 1 <= j <= r ==> #[trigger] recency@[j] == list[j - 1],
            forall|j: int| r < j < k ==> #[trigger] recency@[j] == list[j],
            forall|j: int| 0 <= j < r ==> #[trigger] list[j] != name as int,
        decreases k - r,
    {
        assert(r <= w);
        let n1: u8 = recency[r];
        recency[r] = n0;
        n0 = n1;
        if n0 == name {
            break;
        }
        r += 1;
    }
    proof {
        lemma_place_is(list, name as int, r as int);
    }
    r
}

/// Names the bytes that occur, replaces each byte of `buf` by the place of
/// its name in the recency list, and codes the runs of place 0.
pub fn mtf_and_rle(buf: Vec<u8>, has_byte: Vec<bool>) -> (mtf: Mtf)
    requires
        has_byte@.len() == 256,
        exists|b: int| 0 <= b < 256 && has_byte@[b],
        buf@.len() < usize::MAX,
    ensures
        mtf.wf(),
        mtf.num_syms == names_below(has_byte@, 256) + 2,
        mtf.output@ == symbols(
            places(names_of(has_byte@, buf@), names_below(has_byte@, 256)),
            names_below(has_byte@, 256),
        ),
        mtf.output@.len() <= buf@.len() + 1,
        mtf.output@.last() == mtf.num_syms - 1,
{
    let named = name_bytes(&has_byte);
    let names = named.0;
    let num_names: usize = named.1;
    let ghost k = num_names as int;
    let ghost all = names_of(has_byte@, buf@);
    let ghost pl = places(all, k);
    proof {
        let b0 = choose|b: int| 0 <= b < 256 && has_byte@[b];
        lemma_names_below_mono(has_byte@, b0, 256);
        lemma_names_below_bounds(has_byte@, b0);
        lemma_names_below_bounds(has_byte@, 256);
        assert forall|i: int| 0 <= i < all.len() implies 0 <= #[trigger] all[i] < k by {
            let b = buf@[i] as int;
            lemma_names_below_bounds(has_byte@, b);
            if has_byte@[b] {
                lemma_names_below_mono(has_byte@, b, 256);
            }
        }
    }
    let eob: u16 = (num_names + 1) as u16;

    let mut freqs: Vec<usize> = Vec::new();
    let mut s: usize = 0;
    while s < NUM_FREQS
        invariant
            s <= NUM_FREQS,
            freqs@.len() == s,
            forall|j: int| 0 <= j < s ==> #[trigger] freqs@[j] == 0,
        decreases NUM_FREQS - s,
    {
        freqs.push(0);
        s += 1;
    }
    let mut output: Vec<u16> = Vec::new();
    let mut recency: Vec<u8> = Vec::new();
    let mut r: usize = 0;
    while r < num_names
        invariant
            r <= num_names <= 256,
            recency@.len() == r,
            forall|j: int| 0 <= j < r ==> #[trigger] recency@[j] == j,
        decreases num_names - r,
    {
        recency.push(r as u8);
        r += 1;
    }

    let n: usize = buf.len();
    let mut i: usize = 0;
    let mut zero_count: usize = 0;
    assert(pl.take(0) =~= Seq::<int>::empty());
    assert(all.take(0) =~= Seq::<int>::empty());
    while i < n
        invariant
            i <= n,
            n == buf@.len(),
            names@.len() == 256,
            has_byte@.len() == 256,
            forall|b: int| 0 <= b < 256 ==> #[trigger] names@[b] == name_of(has_byte@, b),
            all == names_of(has_byte@, buf@),
            pl == places(all, k),
            k == num_names,
            1 <= k <= 256,
            forall|j: int| 0 <= j < all.len() ==> 0 <= #[trigger] all[j] < k,
            recency@.len() == k,
            forall|j: int|
                0 <= j < k ==> #[trigger] recency@[j] == recency_after(all.take(i as int), k)[j],
            output@ == settled(pl.take(i as int)),
            zero_count == zeros_at_end(pl.take(i as int)),
            freqs@.len() == NUM_FREQS,
            forall|s: int| 0 <= s < NUM_FREQS ==> #[trigger] freqs@[s] == occurrences(output@, s),
        decreases n - i,
    {
        let name: u8 = names[buf[i] as usize];
        let ghost list = recency_after(all.take(i as int), k);
        let ghost done = pl.take(i as int);
        proof {
            assert(all.take(i + 1).drop_last() =~= all.take(i as int));
            assert(pl.take(i + 1).drop_last() =~= done);
            assert(pl.take(i + 1).last() == place(list, name as int));
            assert(name as int == all[i as int]);
            lemma_recency_complete(all.take(i as int), k);
            lemma_place_bounds(list, name as int);
            assert forall|j: int| 0 <= j < done.len() implies 0 <= #[trigger] done[j] < k by {
                lemma_recency_complete(all.take(j), k);
                lemma_place_bounds(recency_after(all.take(j), k), all[j]);
                let l2 = recency_after(all.take(j), k);
                assert(l2.contains(all[j]));
            }
            lemma_settled(done, k);
        }
        if name == recency[0] {
            proof {
                lemma_place_is(list, name as int, 0);
                assert forall|j: int| 0 <= j < k implies #[trigger] recency@[j] == recency_after(
                    all.take(i + 1),
                    k,
                )[j] by {
                    assert(moved(list, name as int) =~= list);
                }
            }
            zero_count += 1;
        } else {
            if zero_count != 0 {
                push_run(&mut output, &mut freqs, zero_count);
            }
            assert(output@ =~= settled(done) + run_code(zeros_at_end(done) + 1));
            assert(list.contains(name as int));
            let pos: usize = move_to_front(&mut recency, name, Ghost(list));
            let ghost before = output@;
            let sym: u16 = (pos + 1) as u16;
            output.push(sym);
            count(&output, &mut freqs, sym, Ghost(before));
            zero_count = 0;
        }
        i += 1;
    }
    assert(pl.take(n as int) =~= pl);
    proof {
        assert forall|j: int| 0 <= j < pl.len() implies 0 <= #[trigger] pl[j] < k by {
            lemma_recency_complete(all.take(j), k);
            lemma_place_bounds(recency_after(all.take(j), k), all[j]);
            let l2 = recency_after(all.take(j), k);
            assert(l2.contains(all[j]));
        }
        lemma_settled(pl, k);
        lemma_run_code(zeros_at_end(pl) + 1);
    }
    if zero_count != 0 {
        push_run(&mut output, &mut freqs, zero_count);
    }
    assert(output@ =~= settled(pl) + run_code(zeros_at_end(pl) + 1));
    let ghost before = output@;
    output.push(eob);
    count(&output, &mut freqs, eob, Ghost(before));
    assert(output@ =~= symbols(pl, k));
    Mtf { output, num_syms: num_names + 2, freqs }
}

} // verus!
