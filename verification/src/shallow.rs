//! Why the halving of the frequencies ends: a coding tree is no deeper
//! than the Fibonacci numbers let its weight be, so that a tree whose
//! leaves all weigh one is shallow enough.
//!
//! The two nodes that are tied are the lightest, so the weights of the
//! nodes that are made never fall; a node of depth `d` therefore weighs at
//! least what a node of depth `d - 1` and a node of depth `d - 2` weigh.

use crate::kraft::{forest, lemma_forest_start, lemma_forest_step, lemma_path, lemma_tied_path, root_of};
use crate::queue::{
    all_sound, count_of, extracted, filled, inserted, is_heap, leaf, lemma_count_bounds,
    lemma_extracted, lemma_extracted_count, lemma_extracted_heap, lemma_extracted_members,
    lemma_heap_first, lemma_inserted, lemma_inserted_heap, lemma_inserted_members,
    lemma_total_nonneg, total, Entry, MAX_FREQ, MAX_SYMS,
};
use crate::tree::{
    depth, fits, flattened, lengths_at, merged, merged_queue, tied, untied,
    CODEWORD_MAX_LEN,
};
use vstd::prelude::*;

verus! {

/// The Fibonacci numbers: 0, 1, 1, 2, 3, 5, ...
pub open spec fn fib(k: int) -> int
    decreases k,
{
    if k <= 0 {
        0
    } else if k == 1 {
        1
    } else {
        fib(k - 1) + fib(k - 2)
    }
}

/// The Fibonacci numbers do not fall.
pub proof fn lemma_fib_mono(a: int, b: int)
    requires
        a <= b,
    ensures
        0 <= fib(a) <= fib(b),
    decreases b,
{
    if b > 1 {
        if a < b {
            lemma_fib_mono(a, b - 1);
        } else {
            lemma_fib_mono(a - 1, b - 1);
        }
        lemma_fib_mono(a - 2, b - 2);
        lemma_fib_mono(0, b - 2);
    } else if b == 1 && a < 1 {
    }
}

/// The entry weighs at least `floor` and at least what its depth asks, and
/// a node of the depth below weighs at most `floor`'s due.
pub open spec fn grown(e: Entry, floor: int) -> bool {
    &&& e.pri.freq >= floor
    &&& e.pri.freq >= fib(e.pri.depth + 1)
    &&& (e.pri.depth >= 1 ==> fib(e.pri.depth as int) <= floor)
}

/// No leaf below the node of the entry is deeper than the entry says.
pub open spec fn covers(parent: Seq<usize>, e: Entry, n: int) -> bool {
    forall|s: int|
        0 <= s < n && #[trigger] root_of(parent, s) == e.node ==> depth(parent, s) <= e.pri.depth
}

/// A forest whose queue is a heap of entries that have grown to `floor`
/// and cover their leaves.
pub open spec fn shallow_forest(h: Seq<Entry>, parent: Seq<usize>, n: int, floor: int) -> bool {
    &&& forest(h, parent, n)
    &&& is_heap(h)
    &&& 0 <= floor
    &&& forall|i: int| 0 <= i < h.len() ==> grown(#[trigger] h[i], floor)
    &&& forall|i: int| 0 <= i < h.len() ==> covers(parent, #[trigger] h[i], n)
}

/// One step of the construction keeps the forest shallow and its weight.
pub proof fn lemma_shallow_step(h: Seq<Entry>, parent: Seq<usize>, n: int, floor: int)
    requires
        shallow_forest(h, parent, n, floor),
        h.len() >= 2,
    ensures
        shallow_forest(
            merged_queue(h, parent.len() as int),
            tied(parent, h[0].node as int, extracted(h)[0].node as int),
            n,
            extracted(h)[0].pri.freq as int,
        ),
        total(merged_queue(h, parent.len() as int)) == total(h),
{
    let len = parent.len() as int;
    let h1 = extracted(h);
    let h2 = extracted(h1);
    let a = h[0];
    let b = h1[0];
    let e = Entry { node: len as usize, pri: a.pri.joined(b.pri) };
    let h3 = inserted(h2, e);
    let t = tied(parent, a.node as int, b.node as int);
    let f2 = b.pri.freq as int;
    lemma_forest_step(h, parent, n);
    lemma_extracted(h, len);
    lemma_extracted(h1, len);
    lemma_extracted_heap(h);
    lemma_extracted_heap(h1);
    lemma_inserted_heap(h2, e);
    lemma_total_nonneg(h2);
    assert(a.pri.sound() && b.pri.sound());
    assert(a.pri.freq + b.pri.freq <= total(h));
    assert(e.pri.sound());
    assert(all_sound(h2, len + 1));
    lemma_inserted(h2, e, len + 1);
    // The second is no lighter than the first, and the rest no lighter
    // than the second.
    lemma_extracted_members(h, 0);
    let jb = choose|j: int| 1 <= j < h.len() && h1[0] == #[trigger] h[j];
    lemma_heap_first(h, jb + 1);
    assert(a.pri.freq <= b.pri.freq);
    assert(grown(b, floor));
    assert(floor <= f2);
    assert(grown(e, f2)) by {
        let deep = if a.pri.depth > b.pri.depth {
            a.pri.depth as int
        } else {
            b.pri.depth as int
        };
        assert(grown(a, floor));
        assert(fib(deep + 2) == fib(deep + 1) + fib(deep));
        lemma_fib_mono(0, deep);
        if a.pri.depth > b.pri.depth {
            lemma_fib_mono(b.pri.depth + 1, deep + 1);
        } else {
            lemma_fib_mono(a.pri.depth + 1, deep + 1);
        }
    }
    // The nodes of `a` and `b` are roots, and no other entry stands for
    // them.
    lemma_count_bounds(h, a.node as int, 0);
    lemma_count_bounds(h1, b.node as int, 0);
    lemma_extracted_count(h, a.node as int);
    lemma_extracted_count(h, b.node as int);
    lemma_extracted_count(h1, a.node as int);
    lemma_extracted_count(h1, b.node as int);
    assert(parent[a.node as int] == a.node);
    assert(a.node != b.node);
    assert(parent[b.node as int] == b.node);
    assert(covers(parent, a, n));
    assert(covers(parent, b, n)) by {
        assert(covers(parent, h[jb], n));
    }
    assert forall|i: int| 0 <= i < h3.len() implies grown(#[trigger] h3[i], f2) && covers(
        t,
        h3[i],
        n,
    ) by {
        lemma_inserted_members(h2, e, i);
        let x = h3[i];
        if x == e {
            assert forall|s: int| 0 <= s < n && #[trigger] root_of(t, s) == e.node implies depth(
                t,
                s,
            ) <= e.pri.depth by {
                lemma_tied_path(parent, a.node as int, b.node as int, s);
                lemma_path(parent, s);
            }
        } else {
            let j2 = choose|j: int| 0 <= j < h2.len() && h3[i] == #[trigger] h2[j];
            lemma_extracted_members(h1, j2);
            let j1 = choose|j: int| 1 <= j < h1.len() && h2[j2] == #[trigger] h1[j];
            lemma_extracted_members(h, j1);
            let j0 = choose|j: int| 1 <= j < h.len() && h1[j1] == #[trigger] h[j];
            assert(x == h[j0]);
            lemma_heap_first(h1, j1 + 1);
            assert(grown(h[j0], floor));
            assert(covers(parent, h[j0], n));
            lemma_count_bounds(h2, x.node as int, j2);
            assert(x.node != a.node && x.node != b.node);
            assert forall|s: int| 0 <= s < n && #[trigger] root_of(t, s) == x.node implies depth(
                t,
                s,
            ) <= x.pri.depth by {
                lemma_tied_path(parent, a.node as int, b.node as int, s);
                lemma_path(parent, s);
            }
        }
    }
}

/// The deepest leaf of the finished tree is no deeper than the Fibonacci
/// numbers let the weight of the tree be.
pub proof fn lemma_shallow_merged(
    h: Seq<Entry>,
    parent: Seq<usize>,
    n: int,
    floor: int,
    fuel: nat,
    s: int,
)
    requires
        shallow_forest(h, parent, n, floor),
        fuel >= h.len() - 1,
        0 <= s < n,
    ensures
        0 <= depth(merged(h, parent, fuel), s),
        fib(depth(merged(h, parent, fuel), s) + 1) <= total(h),
    decreases fuel,
{
    if h.len() >= 2 {
        lemma_shallow_step(h, parent, n, floor);
        lemma_extracted(h, parent.len() as int);
        lemma_extracted(extracted(h), parent.len() as int);
        let e = Entry {
            node: parent.len() as usize,
            pri: h[0].pri.joined(extracted(h)[0].pri),
        };
        crate::kraft::lemma_inserted_len(extracted(extracted(h)), e);
        lemma_shallow_merged(
            merged_queue(h, parent.len() as int),
            tied(parent, h[0].node as int, extracted(h)[0].node as int),
            n,
            extracted(h)[0].pri.freq as int,
            (fuel - 1) as nat,
            s,
        );
    } else {
        let root = h[0];
        lemma_path(parent, s);
        let q = root_of(parent, s);
        assert(count_of(h, q) == 1);
        assert(h.drop_last() =~= Seq::<Entry>::empty());
        assert(count_of(h.drop_last(), q) == 0);
        assert(q == root.node);
        assert(covers(parent, h[0], n));
        assert(grown(h[0], floor));
        assert(total(h) == root.pri.freq) by {
            assert(total(h.drop_last()) == 0);
        }
        lemma_fib_mono(depth(parent, s) + 1, root.pri.depth + 1);
    }
}

/// The queue of the leaves is a heap, and its entries have grown to
/// nothing and cover themselves.
pub proof fn lemma_filled_shallow(freqs: Seq<usize>, scaling: int, k: int, i: int)
    requires
        1 <= scaling,
        0 <= k <= freqs.len(),
        k <= MAX_SYMS,
        forall|s: int| 0 <= s < k ==> #[trigger] freqs[s] <= MAX_FREQ,
        0 <= i < k,
    ensures
        filled(freqs, scaling, k).len() == k,
        is_heap(filled(freqs, scaling, k)),
        filled(freqs, scaling, k)[i].pri.depth == 0,
        filled(freqs, scaling, k)[i].pri.freq >= 1,
        flattened(k, freqs, scaling) ==> total(filled(freqs, scaling, k)) == k,
    decreases k,
{
    let h = filled(freqs, scaling, k - 1);
    let e = leaf(freqs, scaling, k - 1);
    crate::kraft::lemma_filled(freqs, scaling, k - 1, 0);
    crate::kraft::lemma_filled(freqs, scaling, k, 0);
    assert(0 <= freqs[k - 1] as int / scaling <= MAX_FREQ) by (nonlinear_arith)
        requires
            0 <= freqs[k - 1] <= MAX_FREQ,
            1 <= scaling,
    ;
    if k > 1 {
        lemma_filled_shallow(freqs, scaling, k - 1, 0);
        if i < k - 1 {
            lemma_filled_shallow(freqs, scaling, k - 1, i);
        }
    } else {
        assert(is_heap(h));
        assert(total(h) == 0);
    }
    lemma_inserted_heap(h, e);
    lemma_inserted_members(h, e, i);
    let r = filled(freqs, scaling, k)[i];
    if r != e {
        let j = choose|j: int| 0 <= j < h.len() && r == #[trigger] h[j];
        lemma_filled_shallow(freqs, scaling, k - 1, j);
    }
    lemma_inserted(h, e, k);
    if flattened(k, freqs, scaling) {
        assert(flattened(k - 1, freqs, scaling));
        assert(freqs[k - 1] < scaling);
        assert(freqs[k - 1] as int / scaling == 0) by (nonlinear_arith)
            requires
                0 <= freqs[k - 1] < scaling,
        ;
    }
}

/// A tree whose leaves all weigh one is no deeper than the cap.
pub proof fn lemma_flat_fits(n: int, freqs: Seq<usize>, scaling: int)
    requires
        1 <= scaling,
        2 <= n <= MAX_SYMS,
        n <= freqs.len(),
        forall|s: int| 0 <= s < n ==> #[trigger] freqs[s] <= MAX_FREQ,
        flattened(n, freqs, scaling),
    ensures
        fits(lengths_at(n, freqs, scaling)),
{
    let h = filled(freqs, scaling, n);
    let p = untied(n);
    lemma_forest_start(n, freqs, scaling);
    lemma_filled_shallow(freqs, scaling, n, 0);
    assert forall|i: int| 0 <= i < h.len() implies grown(#[trigger] h[i], 0) && covers(
        p,
        h[i],
        n,
    ) by {
        lemma_filled_shallow(freqs, scaling, n, i);
        assert(fib(1) == 1);
        assert forall|s: int| 0 <= s < n && #[trigger] root_of(p, s) == h[i].node implies depth(
            p,
            s,
        ) <= h[i].pri.depth by {
            assert(p[s] == s);
        }
    }
    assert(shallow_forest(h, p, n, 0));
    let l = lengths_at(n, freqs, scaling);
    reveal_with_fuel(fib, 20);
    assert(fib(19) == 4181);
    assert forall|s: int| 0 <= s < l.len() implies #[trigger] l[s] <= CODEWORD_MAX_LEN by {
        lemma_shallow_merged(h, p, n, 0, n as nat, s);
        let d = depth(merged(h, p, n as nat), s);
        if d > 17 {
            lemma_fib_mono(19, d + 1);
        }
    }
}

} // verus!
