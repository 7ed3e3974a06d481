//! Why the code lengths of a table can be met by a prefix code: they come
//! from a binary tree in which every inner node has two children, so that
//! the leaves, a leaf at depth `d` weighing `2^-d`, weigh one in all
//! (Kraft's equality).
//!
//! The weights are counted in units of `2^-deep()`, which keeps them whole.

use crate::queue::{
    all_sound, count_of, extracted, filled, inserted, leaf, lemma_count_bounds, lemma_extracted,
    lemma_extracted_count, lemma_inserted, lemma_inserted_count, lemma_total_nonneg, total, Entry,
    MAX_FREQ, MAX_SYMS,
};
use crate::shallow::lemma_flat_fits;
use crate::tree::{
    code_lengths, depth, fits, flattened, lengths_at, links_up, merged, merged_queue, tied,
    untied, CODEWORD_MAX_LEN,
};
use vstd::prelude::*;

verus! {

/// Two to the power `e`.
pub open spec fn two_to(e: int) -> int
    decreases e,
{
    if e <= 0 {
        1
    } else {
        2 * two_to(e - 1)
    }
}

/// A depth that no tree of a table reaches.
pub open spec fn deep() -> int {
    600
}

/// The root of the tree in which `v` stands.
pub open spec fn root_of(parent: Seq<usize>, v: int) -> int
    decreases parent.len() - v,
{
    if 0 <= v < parent.len() && v < parent[v] < parent.len() {
        root_of(parent, parent[v] as int)
    } else {
        v
    }
}

/// The weight of leaf `s`.
pub open spec fn leaf_weight(parent: Seq<usize>, s: int) -> int {
    two_to(deep() - depth(parent, s))
}

/// The weight of those of the first `upto` leaves that stand below `r`.
pub open spec fn below(parent: Seq<usize>, r: int, upto: int) -> int
    decreases upto,
{
    if upto <= 0 {
        0
    } else {
        below(parent, r, upto - 1) + if root_of(parent, upto - 1) == r {
            leaf_weight(parent, upto - 1)
        } else {
            0
        }
    }
}

/// The weight of the first `upto` symbols, a symbol of length `l` weighing
/// `2^(deep() - l)`.
pub open spec fn deep_weight(lengths: Seq<int>, upto: int) -> int
    decreases upto,
{
    if upto <= 0 {
        0
    } else {
        deep_weight(lengths, upto - 1) + two_to(deep() - lengths[upto - 1])
    }
}

/// The weight of the first `upto` symbols of a table, a symbol of length
/// `l` weighing `2^(17 - l)`.
pub open spec fn kraft(table: Seq<u8>, upto: int) -> int
    decreases upto,
{
    if upto <= 0 {
        0
    } else {
        kraft(table, upto - 1) + two_to(CODEWORD_MAX_LEN - table[upto - 1])
    }
}

/// The lengths of a table can be met by a prefix code: each is from one to
/// the cap, and the symbols weigh no more than one in all.
pub open spec fn codable(table: Seq<u8>) -> bool {
    &&& forall|s: int| 0 <= s < table.len() ==> 1 <= #[trigger] table[s] <= CODEWORD_MAX_LEN
    &&& kraft(table, table.len() as int) <= two_to(CODEWORD_MAX_LEN as int)
}

/// The powers of two up to the seventeenth.
pub proof fn lemma_two_to(e: int)
    requires
        0 <= e <= 17,
    ensures
        1 <= two_to(e) <= 131072,
        two_to(e + 1) == 2 * two_to(e),
        two_to(17) == 131072,
        two_to(8) == 256,
{
    reveal_with_fuel(two_to, 20);
}

/// The powers of two rise with the exponent.
pub proof fn lemma_two_to_mono(a: int, b: int)
    requires
        a <= b,
    ensures
        1 <= two_to(a) <= two_to(b),
    decreases b,
{
    if b > 0 {
        if a < b {
            lemma_two_to_mono(a, b - 1);
        } else {
            lemma_two_to_mono(a - 1, b - 1);
        }
    }
}

/// A power of two is at least one.
pub proof fn lemma_two_to_pos(e: int)
    ensures
        two_to(e) >= 1,
    decreases e,
{
    if e > 0 {
        lemma_two_to_pos(e - 1);
    }
}

/// The power of a sum is the product of the powers.
pub proof fn lemma_two_to_sum(a: int, b: int)
    requires
        0 <= a,
        0 <= b,
    ensures
        two_to(a + b) == two_to(a) * two_to(b),
    decreases a,
{
    if a > 0 {
        lemma_two_to_sum(a - 1, b);
        assert(2 * (two_to(a - 1) * two_to(b)) == (2 * two_to(a - 1)) * two_to(b))
            by (nonlinear_arith);
    } else {
        assert(1 * two_to(b) == two_to(b));
    }
}

/// Along the links a node reaches its root, which is no further than the
/// nodes after it.
pub proof fn lemma_path(parent: Seq<usize>, v: int)
    requires
        links_up(parent),
        0 <= v < parent.len(),
    ensures
        0 <= depth(parent, v) <= parent.len() - 1 - v,
        v <= root_of(parent, v) < parent.len(),
        parent[root_of(parent, v)] == root_of(parent, v),
        depth(parent, v) == 0 <==> parent[v] == v,
    decreases parent.len() - v,
{
    assert(v <= parent[v] < parent.len());
    if v < parent[v] {
        lemma_path(parent, parent[v] as int);
    }
}

/// What tying the roots `a` and `b` does to the path from `v`.
pub proof fn lemma_tied_path(parent: Seq<usize>, a: int, b: int, v: int)
    requires
        links_up(parent),
        parent.len() < usize::MAX,
        0 <= a < parent.len(),
        0 <= b < parent.len(),
        parent[a] == a,
        parent[b] == b,
        0 <= v < parent.len(),
    ensures
        root_of(tied(parent, a, b), v) == if root_of(parent, v) == a || root_of(parent, v) == b {
            parent.len() as int
        } else {
            root_of(parent, v)
        },
        depth(tied(parent, a, b), v) == depth(parent, v) + if root_of(parent, v) == a || root_of(
            parent,
            v,
        ) == b {
            1int
        } else {
            0int
        },
    decreases parent.len() - v,
{
    let t = tied(parent, a, b);
    let id = parent.len() as int;
    assert(t.len() == id + 1);
    assert(t[id] == id);
    assert(root_of(t, id) == id);
    assert(depth(t, id) == 0);
    assert(v <= parent[v] < parent.len());
    if v < parent[v] {
        assert(v != a && v != b);
        assert(t[v] == parent[v]);
        lemma_tied_path(parent, a, b, parent[v] as int);
    } else {
        if v == a || v == b {
            assert(t[v] == id);
        } else {
            assert(t[v] == v);
        }
    }
}

/// What tying the roots `a` and `b` does to the weights below the roots.
pub proof fn lemma_tied_below(parent: Seq<usize>, a: int, b: int, r: int, upto: int)
    requires
        links_up(parent),
        parent.len() < deep(),
        0 <= a < parent.len(),
        0 <= b < parent.len(),
        a != b,
        parent[a] == a,
        parent[b] == b,
        0 <= upto <= parent.len(),
    ensures
        2 * below(tied(parent, a, b), parent.len() as int, upto) == below(parent, a, upto)
            + below(parent, b, upto),
        r != a && r != b && r != parent.len() ==> below(tied(parent, a, b), r, upto) == below(
            parent,
            r,
            upto,
        ),
    decreases upto,
{
    if upto > 0 {
        lemma_tied_below(parent, a, b, r, upto - 1);
        lemma_tied_path(parent, a, b, upto - 1);
        lemma_path(parent, upto - 1);
        let d = depth(parent, upto - 1);
        assert(two_to(deep() - d) == 2 * two_to(deep() - d - 1));
    }
}

/// Before any leaf is tied, each weighs one and stands below itself.
pub proof fn lemma_untied_below(n: int, r: int, upto: int)
    requires
        0 <= upto <= n <= MAX_SYMS,
    ensures
        below(untied(n), r, upto) == if 0 <= r < upto {
            two_to(deep())
        } else {
            0
        },
    decreases upto,
{
    if upto > 0 {
        lemma_untied_below(n, r, upto - 1);
        let p = untied(n);
        assert(p[upto - 1] == upto - 1);
        assert(root_of(p, upto - 1) == upto - 1);
        assert(depth(p, upto - 1) == 0);
    }
}

/// The weight below `r` is at least that of any two leaves below it.
pub proof fn lemma_below_lower(parent: Seq<usize>, r: int, upto: int, s: int, t: int)
    requires
        0 <= s < upto,
        0 <= t < upto,
        s != t,
        root_of(parent, s) == r,
        root_of(parent, t) == r,
    ensures
        below(parent, r, upto) >= leaf_weight(parent, s) + leaf_weight(parent, t),
    decreases upto,
{
    lemma_below_nonneg(parent, r, upto - 1);
    if s < upto - 1 && t < upto - 1 {
        lemma_below_lower(parent, r, upto - 1, s, t);
        lemma_two_to_pos(deep() - depth(parent, upto - 1));
    } else if s == upto - 1 {
        lemma_below_one(parent, r, upto - 1, t);
    } else {
        lemma_below_one(parent, r, upto - 1, s);
    }
}

/// No weight is negative.
pub proof fn lemma_below_nonneg(parent: Seq<usize>, r: int, upto: int)
    ensures
        below(parent, r, upto) >= 0,
    decreases upto,
{
    if upto > 0 {
        lemma_below_nonneg(parent, r, upto - 1);
        lemma_two_to_pos(deep() - depth(parent, upto - 1));
    }
}

/// The weight below `r` is at least that of any leaf below it.
pub proof fn lemma_below_one(parent: Seq<usize>, r: int, upto: int, s: int)
    requires
        0 <= s < upto,
        root_of(parent, s) == r,
    ensures
        below(parent, r, upto) >= leaf_weight(parent, s),
    decreases upto,
{
    lemma_below_nonneg(parent, r, upto - 1);
    if s < upto - 1 {
        lemma_below_one(parent, r, upto - 1, s);
        lemma_two_to_pos(deep() - depth(parent, upto - 1));
    }
}

/// Where all leaves stand below `r`, the weight below `r` is that of all
/// leaves.
pub proof fn lemma_below_all(parent: Seq<usize>, r: int, lengths: Seq<int>, upto: int)
    requires
        0 <= upto <= lengths.len(),
        forall|s: int| 0 <= s < upto ==> root_of(parent, s) == r,
        forall|s: int| 0 <= s < upto ==> #[trigger] lengths[s] == depth(parent, s),
    ensures
        below(parent, r, upto) == deep_weight(lengths, upto),
    decreases upto,
{
    if upto > 0 {
        lemma_below_all(parent, r, lengths, upto - 1);
    }
}

/// A forest on the way to a coding tree: the queue holds the roots, each
/// once, and the leaves below each root weigh one.
pub open spec fn forest(h: Seq<Entry>, parent: Seq<usize>, n: int) -> bool {
    &&& 2 <= n <= MAX_SYMS
    &&& links_up(parent)
    &&& h.len() >= 1
    &&& h.len() + parent.len() == 2 * n
    &&& n <= parent.len()
    &&& all_sound(h, parent.len() as int)
    &&& total(h) <= MAX_SYMS * (MAX_FREQ + 1)
    &&& forall|v: int|
        0 <= v < parent.len() ==> #[trigger] count_of(h, v) == if parent[v] == v {
            1int
        } else {
            0int
        }
    &&& forall|r: int|
        0 <= r < parent.len() && parent[r] == r ==> #[trigger] below(parent, r, n) == two_to(
            deep(),
        )
}

/// One step of the construction keeps the forest a forest.
pub proof fn lemma_forest_step(h: Seq<Entry>, parent: Seq<usize>, n: int)
    requires
        forest(h, parent, n),
        h.len() >= 2,
    ensures
        forest(
            merged_queue(h, parent.len() as int),
            tied(parent, h[0].node as int, extracted(h)[0].node as int),
            n,
        ),
{
    let len = parent.len() as int;
    let h1 = extracted(h);
    let h2 = extracted(h1);
    lemma_extracted(h, len);
    lemma_extracted(h1, len);
    let a = h[0].node as int;
    let b = h1[0].node as int;
    lemma_count_bounds(h, a, 0);
    lemma_count_bounds(h1, b, 0);
    lemma_extracted_count(h, b);
    lemma_extracted_count(h, a);
    assert(parent[a] == a);
    assert(count_of(h, b) >= 1);
    assert(a != b);
    assert(parent[b] == b);
    let e = Entry { node: len as usize, pri: h[0].pri.joined(h1[0].pri) };
    let h3 = inserted(h2, e);
    let t = tied(parent, a, b);
    assert(h3 == merged_queue(h, len));
    assert(t.len() == len + 1);
    assert(links_up(t)) by {
        assert forall|v: int| 0 <= v < t.len() implies v <= #[trigger] t[v] < t.len() by {
            if v < len {
                assert(v <= parent[v] < len);
            }
        }
    }
    assert(e.pri.sound()) by {
        assert(h[0].pri.sound());
        assert(h1[0].pri.sound());
        lemma_total_nonneg(h2);
        assert(h[0].pri.freq + h1[0].pri.freq <= total(h));
    }
    assert(all_sound(h2, len + 1));
    lemma_inserted(h2, e, len + 1);
    assert forall|v: int| 0 <= v < t.len() implies #[trigger] count_of(h3, v) == if t[v] == v {
        1int
    } else {
        0int
    } by {
        lemma_extracted_count(h, v);
        lemma_extracted_count(h1, v);
        lemma_inserted_count(h2, e, v);
        if v == len {
            lemma_count_absent(h, v, len);
        }
    }
    assert forall|r: int| 0 <= r < t.len() && t[r] == r implies #[trigger] below(t, r, n)
        == two_to(deep()) by {
        lemma_tied_below(parent, a, b, r, n);
        if r < len {
            assert(r != a && r != b);
            assert(parent[r] == r);
        } else {
            assert(below(parent, a, n) == two_to(deep()));
            assert(below(parent, b, n) == two_to(deep()));
        }
    }
}

/// The queue of the first `k` leaves holds each of them once.
pub proof fn lemma_filled(freqs: Seq<usize>, scaling: int, k: int, v: int)
    requires
        1 <= scaling,
        0 <= k <= freqs.len(),
        k <= MAX_SYMS,
        forall|s: int| 0 <= s < k ==> #[trigger] freqs[s] <= MAX_FREQ,
    ensures
        filled(freqs, scaling, k).len() == k,
        all_sound(filled(freqs, scaling, k), k),
        total(filled(freqs, scaling, k)) <= k * (MAX_FREQ + 1),
        count_of(filled(freqs, scaling, k), v) == if 0 <= v < k {
            1int
        } else {
            0int
        },
    decreases k,
{
    if k > 0 {
        lemma_filled(freqs, scaling, k - 1, v);
        let h = filled(freqs, scaling, k - 1);
        let e = leaf(freqs, scaling, k - 1);
        assert(0 <= freqs[k - 1] as int / scaling <= MAX_FREQ) by (nonlinear_arith)
            requires
                0 <= freqs[k - 1] <= MAX_FREQ,
                1 <= scaling,
        ;
        assert(all_sound(h, k)) by {
            assert forall|i: int| 0 <= i < h.len() implies (#[trigger] h[i]).pri.sound() && h[i].node
                < k by {
                assert(h[i].node < k - 1);
            }
        }
        lemma_inserted(h, e, k);
        lemma_inserted_count(h, e, v);
        assert(k * (MAX_FREQ + 1) == (k - 1) * (MAX_FREQ + 1) + (MAX_FREQ + 1))
            by (nonlinear_arith);
    } else {
        assert(total(filled(freqs, scaling, k)) == 0);
    }
}

/// The leaves, none tied, are a forest.
pub proof fn lemma_forest_start(n: int, freqs: Seq<usize>, scaling: int)
    requires
        1 <= scaling,
        2 <= n <= MAX_SYMS,
        n <= freqs.len(),
        forall|s: int| 0 <= s < n ==> #[trigger] freqs[s] <= MAX_FREQ,
    ensures
        forest(filled(freqs, scaling, n), untied(n), n),
{
    let h = filled(freqs, scaling, n);
    let p = untied(n);
    lemma_filled(freqs, scaling, n, 0);
    assert(n * (MAX_FREQ + 1) <= MAX_SYMS * (MAX_FREQ + 1)) by (nonlinear_arith)
        requires
            0 <= n <= MAX_SYMS,
    ;
    assert forall|v: int| 0 <= v < p.len() implies #[trigger] count_of(h, v) == if p[v] == v {
        1int
    } else {
        0int
    } by {
        lemma_filled(freqs, scaling, n, v);
    }
    assert forall|r: int| 0 <= r < p.len() && p[r] == r implies #[trigger] below(p, r, n)
        == two_to(deep()) by {
        lemma_untied_below(n, r, n);
    }
}

/// The leaf depths of a finished tree.
pub open spec fn leaf_depths(parent: Seq<usize>, n: int) -> Seq<int> {
    Seq::new(n as nat, |s: int| depth(parent, s))
}

/// When a forest has been merged into one tree, every leaf hangs below the
/// root and the leaves weigh one in all.
pub proof fn lemma_merged(h: Seq<Entry>, parent: Seq<usize>, n: int, fuel: nat)
    requires
        forest(h, parent, n),
        fuel >= h.len() - 1,
    ensures
        forall|s: int| 0 <= s < n ==> depth(merged(h, parent, fuel), s) >= 1,
        deep_weight(leaf_depths(merged(h, parent, fuel), n), n) == two_to(deep()),
    decreases fuel,
{
    if h.len() >= 2 {
        lemma_forest_step(h, parent, n);
        lemma_extracted(h, parent.len() as int);
        lemma_extracted(extracted(h), parent.len() as int);
        let e = Entry {
            node: parent.len() as usize,
            pri: h[0].pri.joined(extracted(h)[0].pri),
        };
        lemma_inserted_len(extracted(extracted(h)), e);
        lemma_merged(
            merged_queue(h, parent.len() as int),
            tied(parent, h[0].node as int, extracted(h)[0].node as int),
            n,
            (fuel - 1) as nat,
        );
    } else {
        let r = h[0].node as int;
        lemma_count_bounds(h, r, 0);
        assert(parent[r] == r);
        assert forall|s: int| 0 <= s < n implies root_of(parent, s) == r by {
            lemma_path(parent, s);
            let q = root_of(parent, s);
            assert(count_of(h, q) == 1);
            assert(h.drop_last() =~= Seq::<Entry>::empty());
            assert(count_of(h.drop_last(), q) == 0);
        }
        let lengths = leaf_depths(parent, n);
        lemma_below_all(parent, r, lengths, n);
        assert forall|s: int| 0 <= s < n implies depth(parent, s) >= 1 by {
            lemma_path(parent, s);
            if depth(parent, s) == 0 {
                assert(root_of(parent, s) == s);
                let t = if s == 0 {
                    1int
                } else {
                    0int
                };
                lemma_below_lower(parent, r, n, s, t);
                lemma_two_to_pos(deep() - depth(parent, t));
            }
        }
    }
}

/// Adding an entry makes the queue one longer.
pub proof fn lemma_inserted_len(h: Seq<Entry>, e: Entry)
    ensures
        inserted(h, e).len() == h.len() + 1,
{
    lemma_sift_up_len(h.push(e), h.len() as int + 1, e);
}

/// An entry that rises leaves the queue as long as it was.
pub proof fn lemma_sift_up_len(h: Seq<Entry>, idx: int, e: Entry)
    requires
        1 <= idx <= h.len(),
    ensures
        crate::queue::sift_up(h, idx, e).len() == h.len(),
    decreases idx,
{
    if 1 < idx && e.pri.less(h[idx / 2 - 1].pri) {
        lemma_sift_up_len(h.update(idx - 1, h[idx / 2 - 1]), idx / 2, e);
    }
}

/// In units of `2^-17` the symbols weigh what they weigh in units of
/// `2^-deep()`, but for the change of unit.
pub proof fn lemma_change_unit(lengths: Seq<int>, table: Seq<u8>, upto: int)
    requires
        0 <= upto <= lengths.len(),
        upto <= table.len(),
        forall|s: int| 0 <= s < upto ==> #[trigger] table[s] == lengths[s],
        forall|s: int| 0 <= s < upto ==> 1 <= #[trigger] lengths[s] <= CODEWORD_MAX_LEN,
    ensures
        deep_weight(lengths, upto) == two_to(deep() - CODEWORD_MAX_LEN) * kraft(table, upto),
    decreases upto,
{
    if upto > 0 {
        lemma_change_unit(lengths, table, upto - 1);
        let l = lengths[upto - 1];
        assert(table[upto - 1] == l);
        lemma_two_to_sum(deep() - CODEWORD_MAX_LEN, CODEWORD_MAX_LEN - l);
        let c = two_to(deep() - CODEWORD_MAX_LEN);
        let k0 = kraft(table, upto - 1);
        let w = two_to(CODEWORD_MAX_LEN - l);
        assert(c * (k0 + w) == c * k0 + c * w) by (nonlinear_arith);
    } else {
        assert(two_to(deep() - CODEWORD_MAX_LEN) * 0 == 0);
    }
}

/// The code lengths of a table can be met by a prefix code.
pub proof fn lemma_code_lengths(n: int, freqs: Seq<usize>, scaling: int, table: Seq<u8>)
    requires
        1 <= scaling,
        2 <= n <= MAX_SYMS,
        n <= freqs.len(),
        forall|s: int| 0 <= s < n ==> #[trigger] freqs[s] <= MAX_FREQ,
        table.len() == n,
        forall|s: int| 0 <= s < n ==> #[trigger] table[s] == code_lengths(n, freqs, scaling)[s],
    ensures
        codable(table),
    decreases 2 * MAX_FREQ + 2 - scaling,
{
    let l = lengths_at(n, freqs, scaling);
    lemma_two_to(17);
    if fits(l) {
        let h = filled(freqs, scaling, n);
        let p = merged(h, untied(n), n as nat);
        lemma_forest_start(n, freqs, scaling);
        lemma_merged(h, untied(n), n, n as nat);
        assert(l =~= leaf_depths(p, n));
        assert forall|s: int| 0 <= s < n implies 1 <= #[trigger] l[s] <= CODEWORD_MAX_LEN by {
            assert(l[s] == depth(p, s));
        }
        lemma_change_unit(l, table, n);
        lemma_two_to_sum(deep() - CODEWORD_MAX_LEN, CODEWORD_MAX_LEN as int);
        lemma_two_to_pos(deep() - CODEWORD_MAX_LEN);
        let c = two_to(deep() - CODEWORD_MAX_LEN);
        let k = kraft(table, n);
        let t = two_to(CODEWORD_MAX_LEN as int);
        assert(k == t) by (nonlinear_arith)
            requires
                c * k == c * t,
                c >= 1,
        ;
    } else if scaling > MAX_FREQ {
        assert(flattened(n, freqs, scaling));
        lemma_flat_fits(n, freqs, scaling);
    } else {
        lemma_code_lengths(n, freqs, 2 * scaling, table);
    }
}

/// Every code length is from one to the cap.
pub proof fn lemma_code_lengths_range(n: int, freqs: Seq<usize>, scaling: int)
    requires
        1 <= scaling,
        2 <= n <= MAX_SYMS,
        n <= freqs.len(),
        forall|s: int| 0 <= s < n ==> #[trigger] freqs[s] <= MAX_FREQ,
    ensures
        code_lengths(n, freqs, scaling).len() == n,
        forall|s: int|
            0 <= s < n ==> 1 <= #[trigger] code_lengths(n, freqs, scaling)[s] <= CODEWORD_MAX_LEN,
    decreases 2 * MAX_FREQ + 2 - scaling,
{
    let l = lengths_at(n, freqs, scaling);
    if fits(l) {
        let h = filled(freqs, scaling, n);
        let p = merged(h, untied(n), n as nat);
        lemma_forest_start(n, freqs, scaling);
        lemma_merged(h, untied(n), n, n as nat);
        assert forall|s: int| 0 <= s < n implies 1 <= #[trigger] l[s] <= CODEWORD_MAX_LEN by {
            assert(l[s] == depth(p, s));
        }
    } else if scaling > MAX_FREQ {
        assert(flattened(n, freqs, scaling));
        lemma_flat_fits(n, freqs, scaling);
    } else {
        lemma_code_lengths_range(n, freqs, 2 * scaling);
    }
}

/// No entry stands for a node that is out of the queue's range.
pub proof fn lemma_count_absent(h: Seq<Entry>, v: int, bound: int)
    requires
        all_sound(h, bound),
        v >= bound,
    ensures
        count_of(h, v) == 0,
    decreases h.len(),
{
    if h.len() > 0 {
        assert(h.last() == h[h.len() - 1]);
        assert forall|i: int| 0 <= i < h.drop_last().len() implies (
        #[trigger] h.drop_last()[i]).pri.sound() && h.drop_last()[i].node < bound by {
            assert(h.drop_last()[i] == h[i]);
        }
        lemma_count_absent(h.drop_last(), v, bound);
    }
}

} // verus!
