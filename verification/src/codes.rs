//! Why the canonical codewords of a table are a prefix code: each fits in
//! its length, and none begins another.

use crate::huffman::{lemma_word_sum_bound, precedes, word, word_sum};
use crate::kraft::{
    codable, kraft, lemma_two_to, lemma_two_to_pos, lemma_two_to_sum, two_to,
};
use crate::out::{bit, bits_of, lemma_bits_split};
use crate::tree::CODEWORD_MAX_LEN;
use vstd::prelude::*;

verus! {

/// The codeword of symbol `s`, most significant bit first.
pub open spec fn codeword(table: Seq<u8>, s: int) -> Seq<bool> {
    bits_of(word(table, s) as u32, table[s] as int)
}

/// The weight, in units of `2^-17`, of those of the first `upto` symbols
/// that precede a symbol `s` of length `l`.
pub open spec fn weight_before(table: Seq<u8>, l: int, s: int, upto: int) -> int
    decreases upto,
{
    if upto <= 0 {
        0
    } else {
        weight_before(table, l, s, upto - 1) + if precedes(table, l, s, upto - 1) {
            two_to(CODEWORD_MAX_LEN - table[upto - 1])
        } else {
            0
        }
    }
}

/// The codewords of length `l` that the symbols before rule out, counted in
/// units of `2^-17`, are the weight of those symbols.
pub proof fn lemma_word_in_units(table: Seq<u8>, l: int, s: int, upto: int)
    requires
        0 <= upto <= table.len(),
        0 <= l <= CODEWORD_MAX_LEN,
    ensures
        word_sum(table, l, s, upto) * two_to(CODEWORD_MAX_LEN - l) == weight_before(
            table,
            l,
            s,
            upto,
        ),
    decreases upto,
{
    let c = two_to(CODEWORD_MAX_LEN - l);
    if upto > 0 {
        lemma_word_in_units(table, l, s, upto - 1);
        let w0 = word_sum(table, l, s, upto - 1);
        if precedes(table, l, s, upto - 1) {
            let tx = table[upto - 1] as int;
            lemma_two_to_sum(l - tx, CODEWORD_MAX_LEN - l);
            let d = two_to(l - tx);
            assert((w0 + d) * c == w0 * c + d * c) by (nonlinear_arith);
        }
    } else {
        assert(0 * c == 0);
    }
}

/// A symbol and the symbols before it weigh no more than all symbols.
pub proof fn lemma_weight_before(table: Seq<u8>, s: int, upto: int)
    requires
        0 <= s < table.len(),
        0 <= upto <= table.len(),
    ensures
        weight_before(table, table[s] as int, s, upto) + (if s < upto {
            two_to(CODEWORD_MAX_LEN - table[s])
        } else {
            0
        }) <= kraft(table, upto),
    decreases upto,
{
    if upto > 0 {
        lemma_weight_before(table, s, upto - 1);
        lemma_two_to_pos(CODEWORD_MAX_LEN - table[upto - 1]);
    }
}

/// Every codeword fits in its length.
pub proof fn lemma_word_fits(table: Seq<u8>, s: int)
    requires
        codable(table),
        0 <= s < table.len(),
    ensures
        0 <= word(table, s) < two_to(table[s] as int),
{
    let l = table[s] as int;
    let n = table.len() as int;
    let w = word(table, s);
    let c = two_to(CODEWORD_MAX_LEN - l);
    lemma_word_in_units(table, l, s, n);
    lemma_weight_before(table, s, n);
    lemma_two_to_sum(l, CODEWORD_MAX_LEN - l);
    lemma_two_to_pos(CODEWORD_MAX_LEN - l);
    lemma_word_sum_bound(table, l, s, n);
    let t = two_to(l);
    assert(w + 1 <= t) by (nonlinear_arith)
        requires
            w * c + c <= t * c,
            c >= 1,
    ;
}

/// A symbol rules out, for every symbol after it, the codewords that begin
/// with its own.
pub proof fn lemma_word_gap(table: Seq<u8>, s: int, t: int, upto: int)
    requires
        0 <= s < table.len(),
        0 <= t < table.len(),
        0 <= upto <= table.len(),
        precedes(table, table[t] as int, t, s),
    ensures
        word_sum(table, table[t] as int, t, upto) >= two_to(table[t] - table[s]) * (word_sum(
            table,
            table[s] as int,
            s,
            upto,
        ) + if s < upto {
            1int
        } else {
            0int
        }),
    decreases upto,
{
    let ls = table[s] as int;
    let lt = table[t] as int;
    let g = two_to(lt - ls);
    if upto > 0 {
        lemma_word_gap(table, s, t, upto - 1);
        let x = upto - 1;
        let a0 = word_sum(table, ls, s, x) + if s < x {
            1int
        } else {
            0int
        };
        lemma_two_to_pos(lt - table[x]);
        if x == s {
            assert(g * (a0 + 1) == g * a0 + g) by (nonlinear_arith);
        } else if precedes(table, ls, s, x) {
            let tx = table[x] as int;
            lemma_two_to_sum(lt - ls, ls - tx);
            let d = two_to(ls - tx);
            assert(g * (a0 + d) == g * a0 + g * d) by (nonlinear_arith);
        }
    } else {
        assert(g * 0 == 0);
    }
}

/// Shifting right by `k` divides by `2^k`, dropping the rest.
pub proof fn lemma_shift_bounds(x: u32, k: int)
    requires
        0 <= k <= 17,
    ensures
        (x >> (k as u32)) * two_to(k) <= x < ((x >> (k as u32)) + 1) * two_to(k),
    decreases k,
{
    if k == 0 {
        assert(x >> 0u32 == x) by (bit_vector);
    } else {
        lemma_shift_bounds(x, k - 1);
        let k1: u32 = (k - 1) as u32;
        let kk: u32 = k as u32;
        let u0: u32 = x >> k1;
        let u1: u32 = x >> kk;
        assert(2 * u1 <= u0 && u0 <= 2 * u1 + 1 && u1 <= 0x7FFF_FFFF) by (bit_vector)
            requires
                1 <= kk <= 17,
                k1 == kk - 1,
                u0 == x >> k1,
                u1 == x >> kk,
        ;
        let t = two_to(k - 1);
        lemma_two_to_pos(k - 1);
        assert(u1 * (2 * t) <= x && x < (u1 + 1) * (2 * t)) by (nonlinear_arith)
            requires
                u0 * t <= x,
                x < (u0 + 1) * t,
                2 * u1 <= u0,
                u0 <= 2 * u1 + 1,
                t >= 1,
        ;
    }
}

/// Two numbers of `l` bits with the same bits are the same.
pub proof fn lemma_bits_injective(u: u32, v: u32, l: int)
    requires
        0 <= l <= 17,
        u < two_to(l),
        v < two_to(l),
        bits_of(u, l) == bits_of(v, l),
    ensures
        u == v,
    decreases l,
{
    if l > 0 {
        let u1: u32 = u >> 1u32;
        let v1: u32 = v >> 1u32;
        lemma_bits_split(u, l - 1, 1);
        lemma_bits_split(v, l - 1, 1);
        let bu = bits_of(u, l);
        let bv = bits_of(v, l);
        assert(bits_of(u1, l - 1) =~= bu.take(l - 1));
        assert(bits_of(v1, l - 1) =~= bv.take(l - 1));
        assert(bu[l - 1] == bit(u, 0));
        assert(bv[l - 1] == bit(v, 0));
        assert(2 * u1 <= u && 2 * v1 <= v) by (bit_vector)
            requires
                u1 == u >> 1u32,
                v1 == v >> 1u32,
        ;
        lemma_bits_injective(u1, v1, l - 1);
        assert(u == v) by (bit_vector)
            requires
                u >> 1u32 == v >> 1u32,
                ((u >> 0u32) & 1 == 1) <==> ((v >> 0u32) & 1 == 1),
        ;
    }
}

/// No codeword begins another.
pub proof fn lemma_prefix_free(table: Seq<u8>, s: int, t: int)
    requires
        codable(table),
        0 <= s < table.len(),
        0 <= t < table.len(),
        s != t,
    ensures
        !codeword(table, s).is_prefix_of(codeword(table, t)),
{
    let ls = table[s] as int;
    let lt = table[t] as int;
    let n = table.len() as int;
    lemma_word_fits(table, s);
    lemma_word_fits(table, t);
    lemma_two_to(ls);
    lemma_two_to(lt);
    let ws = word(table, s) as u32;
    let wt = word(table, t) as u32;
    if codeword(table, s).is_prefix_of(codeword(table, t)) {
        assert(ls <= lt);
        let k = lt - ls;
        let u: u32 = wt >> (k as u32);
        lemma_bits_split(wt, ls, k);
        assert(bits_of(u, ls) =~= codeword(table, t).take(ls));
        assert(codeword(table, t).take(ls) =~= codeword(table, s));
        lemma_shift_bounds(wt, k);
        lemma_two_to_sum(ls, k);
        lemma_two_to_pos(k);
        let g = two_to(k);
        let cap = two_to(ls);
        assert(u < cap) by (nonlinear_arith)
            requires
                u * g <= wt,
                wt < cap * g,
                g >= 1,
        ;
        lemma_bits_injective(u, ws, ls);
        if precedes(table, lt, t, s) {
            lemma_word_gap(table, s, t, n);
            assert(false) by (nonlinear_arith)
                requires
                    wt >= g * (ws + 1),
                    wt < (u + 1) * g,
                    u == ws,
            ;
        } else {
            assert(precedes(table, ls, s, t));
            assert(lt == ls);
            lemma_word_gap(table, t, s, n);
            assert(two_to(0) == 1);
            assert(u == wt) by {
                assert(wt >> 0u32 == wt) by (bit_vector);
            }
            assert(word(table, s) >= 1 * (word(table, t) + 1));
        }
    }
}

} // verus!
