//! The order of the suffixes of a string, a check that an array lists them
//! in that order, and a plain sort that puts them in it.

use crate::sais::IDX_MAX;
use vstd::prelude::*;

verus! {

/// Whether the suffix of `x` that starts at `i` comes before the one that
/// starts at `j`: at the first place where they differ the lesser symbol
/// decides, and a suffix that ends there comes first.
pub open spec fn suffix_less(x: Seq<u8>, i: int, j: int) -> bool
    decreases x.len() - i,
{
    if i < 0 || j < 0 || j >= x.len() {
        false
    } else if i >= x.len() {
        true
    } else if x[i] != x[j] {
        x[i] < x[j]
    } else {
        suffix_less(x, i + 1, j + 1)
    }
}

/// The suffix that starts at `i` is listed in `order`.
pub open spec fn lists(order: Seq<i32>, i: int) -> bool {
    exists|k: int| 0 <= k < order.len() && #[trigger] order[k] == i
}

/// `order` lists the suffixes of `x` that start below `n`, each of them, in
/// rising order.
pub open spec fn is_sorted_order(x: Seq<u8>, n: int, order: Seq<i32>) -> bool {
    &&& order.len() == n
    &&& forall|k: int| 0 <= k < n ==> 0 <= #[trigger] order[k] < n
    &&& forall|i: int| 0 <= i < n ==> #[trigger] lists(order, i)
    &&& forall|k: int, l: int|
        0 <= k < l < n ==> suffix_less(x, #[trigger] order[k] as int, #[trigger] order[l] as int)
}

/// No suffix comes before itself.
pub proof fn lemma_irreflexive(x: Seq<u8>, i: int)
    ensures
        !suffix_less(x, i, i),
    decreases x.len() - i,
{
    if 0 <= i < x.len() {
        lemma_irreflexive(x, i + 1);
    }
}

/// Of two suffixes at most one comes before the other.
pub proof fn lemma_asymmetric(x: Seq<u8>, i: int, j: int)
    requires
        suffix_less(x, i, j),
    ensures
        !suffix_less(x, j, i),
    decreases x.len() - i,
{
    if 0 <= i < x.len() && 0 <= j < x.len() && x[i] == x[j] {
        lemma_asymmetric(x, i + 1, j + 1);
    }
}

/// Of two different suffixes one comes before the other.
pub proof fn lemma_total(x: Seq<u8>, i: int, j: int)
    requires
        0 <= i <= x.len(),
        0 <= j <= x.len(),
        i != j,
    ensures
        suffix_less(x, i, j) || suffix_less(x, j, i),
    decreases x.len() - i,
{
    if i < x.len() && j < x.len() && x[i] == x[j] {
        lemma_total(x, i + 1, j + 1);
    }
}

/// What comes before a suffix comes before all that the suffix comes before.
pub proof fn lemma_transitive(x: Seq<u8>, i: int, j: int, k: int)
    requires
        suffix_less(x, i, j),
        suffix_less(x, j, k),
    ensures
        suffix_less(x, i, k),
    decreases x.len() - i,
{
    if 0 <= i < x.len() && x[i] == x[j] && x[j] == x[k] {
        lemma_transitive(x, i + 1, j + 1, k + 1);
    }
}

/// Two lists of the same suffixes in rising order agree up to `upto`.
pub proof fn lemma_unique_upto(x: Seq<u8>, n: int, a: Seq<i32>, b: Seq<i32>, upto: int)
    requires
        is_sorted_order(x, n, a),
        is_sorted_order(x, n, b),
        0 <= upto <= n,
    ensures
        forall|k: int| 0 <= k < upto ==> a[k] == b[k],
    decreases upto,
{
    if upto > 0 {
        lemma_unique_upto(x, n, a, b, upto - 1);
        let k = upto - 1;
        if a[k] != b[k] {
            assert(lists(b, a[k] as int));
            assert(lists(a, b[k] as int));
            let l = choose|l: int| 0 <= l < n && #[trigger] b[l] == a[k] as int;
            let m = choose|m: int| 0 <= m < n && #[trigger] a[m] == b[k] as int;
            lemma_irreflexive(x, a[k] as int);
            lemma_irreflexive(x, b[k] as int);
            if l < k {
                assert(suffix_less(x, a[l] as int, a[k] as int));
            }
            if m < k {
                assert(suffix_less(x, b[m] as int, b[k] as int));
            }
            assert(suffix_less(x, b[k] as int, b[l] as int));
            assert(suffix_less(x, a[k] as int, a[m] as int));
            lemma_asymmetric(x, a[k] as int, b[k] as int);
        }
    }
}

/// There is one list of the suffixes in rising order, if any.
pub proof fn lemma_unique(x: Seq<u8>, n: int, a: Seq<i32>, b: Seq<i32>)
    requires
        is_sorted_order(x, n, a),
        is_sorted_order(x, n, b),
    ensures
        a == b,
{
    lemma_unique_upto(x, n, a, b, n);
    assert(a =~= b);
}

/// Whether the suffix at `i` comes before the suffix at `j`.
pub fn suffix_lt(x: &Vec<u8>, i: usize, j: usize) -> (less: bool)
    requires
        i <= x@.len(),
        j <= x@.len(),
    ensures
        less == suffix_less(x@, i as int, j as int),
{
    let n: usize = x.len();
    let mut a: usize = i;
    let mut b: usize = j;
    while a < n && b < n && x[a] == x[b]
        invariant
            a <= n,
            b <= n,
            n == x@.len(),
            suffix_less(x@, a as int, b as int) == suffix_less(x@, i as int, j as int),
        decreases n - a,
    {
        a += 1;
        b += 1;
    }
    if b >= n {
        false
    } else if a >= n {
        true
    } else {
        x[a] < x[b]
    }
}

/// The suffixes of `x` that start below `n`, in rising order, by insertion.
pub fn sort_suffixes(x: &Vec<u8>, n: usize) -> (order: Vec<i32>)
    requires
        n <= x@.len(),
        n <= IDX_MAX,
    ensures
        is_sorted_order(x@, n as int, order@),
{
    let mut order: Vec<i32> = Vec::new();
    let mut v: usize = 0;
    while v < n
        invariant
            v <= n <= x@.len(),
            n <= IDX_MAX,
            is_sorted_order(x@, v as int, order@),
        decreases n - v,
    {
        let mut pos: usize = v;
        while pos > 0 && suffix_lt(x, v, order[pos - 1] as usize)
            invariant
                pos <= v < n <= x@.len(),
                n <= IDX_MAX,
                is_sorted_order(x@, v as int, order@),
                forall|k: int| pos <= k < v ==> suffix_less(x@, v as int, #[trigger] order@[k] as int),
            decreases pos,
        {
            pos -= 1;
        }
        let ghost before = order@;
        order.insert(pos, v as i32);
        proof {
            let after = order@;
            assert(after.len() == v + 1);
            assert forall|k: int| 0 <= k < v + 1 implies 0 <= #[trigger] after[k] < v + 1 by {
                if k < pos {
                    assert(after[k] == before[k]);
                } else if k > pos {
                    assert(after[k] == before[k - 1]);
                }
            }
            assert forall|i: int| 0 <= i < v + 1 implies #[trigger] lists(after, i) by {
                if i == v {
                    assert(after[pos as int] == i);
                } else {
                    assert(lists(before, i));
                    let k0 = choose|k: int| 0 <= k < v && #[trigger] before[k] == i;
                    if k0 < pos {
                        assert(after[k0] == i);
                    } else {
                        assert(after[k0 + 1] == i);
                    }
                }
            }
            if pos > 0 {
                let p = before[pos - 1] as int;
                assert(p != v);
                lemma_total(x@, v as int, p);
                assert(suffix_less(x@, p, v as int));
            }
            assert forall|k: int, l: int| 0 <= k < l < v + 1 implies suffix_less(
                x@,
                #[trigger] after[k] as int,
                #[trigger] after[l] as int,
            ) by {
                if l < pos {
                    assert(after[k] == before[k] && after[l] == before[l]);
                } else if l == pos {
                    assert(after[k] == before[k]);
                    if k < pos - 1 {
                        assert(suffix_less(x@, before[k] as int, before[pos - 1] as int));
                        lemma_transitive(
                            x@,
                            before[k] as int,
                            before[pos - 1] as int,
                            v as int,
                        );
                    }
                } else if k == pos {
                    assert(after[l] == before[l - 1]);
                } else if k > pos {
                    assert(after[k] == before[k - 1] && after[l] == before[l - 1]);
                } else {
                    assert(after[k] == before[k] && after[l] == before[l - 1]);
                    if l - 1 > k {
                    } else {
                        assert(k == pos - 1 && l - 1 == pos);
                        lemma_transitive(
                            x@,
                            before[k] as int,
                            v as int,
                            before[l - 1] as int,
                        );
                    }
                }
            }
        }
        v += 1;
    }
    order
}

/// What the check of two neighbours in the array asks of the suffixes `a`
/// and `b`: the first symbol of `a` is less, or it is the same and what
/// follows `a` stands before what follows `b`.
pub open spec fn in_order(x: Seq<u8>, rank: Seq<i32>, a: int, b: int) -> bool {
    x[a] < x[b] || (x[a] == x[b] && rank[a + 1] < rank[b + 1])
}

/// The places and the array agree: each suffix stands at its place, the
/// empty suffix before the first.
pub open spec fn ranked(x: Seq<u8>, sa: Seq<i32>, rank: Seq<i32>) -> bool {
    &&& sa.len() == x.len()
    &&& rank.len() == x.len() + 1
    &&& rank[x.len() as int] == -1
    &&& forall|p: int| 0 <= p < sa.len() ==> 0 <= #[trigger] sa[p] < x.len()
    &&& forall|p: int| 0 <= p < sa.len() ==> rank[#[trigger] sa[p] as int] == p
    &&& forall|v: int| 0 <= v < x.len() ==> 0 <= #[trigger] rank[v] < x.len() && sa[rank[v] as int] == v
}

/// Neighbours in order put any two entries in order.
pub proof fn lemma_chain(x: Seq<u8>, sa: Seq<i32>, rank: Seq<i32>, p: int, q: int)
    requires
        ranked(x, sa, rank),
        0 <= p < q < sa.len(),
        forall|r: int|
            0 <= r < sa.len() - 1 ==> in_order(x, rank, #[trigger] sa[r] as int, sa[r + 1] as int),
    ensures
        in_order(x, rank, sa[p] as int, sa[q] as int),
    decreases q - p,
{
    assert(in_order(x, rank, sa[q - 1] as int, sa[q] as int));
    if p < q - 1 {
        lemma_chain(x, sa, rank, p, q - 1);
    }
}

/// Where neighbours are in order, a suffix with a lesser place comes
/// before one with a greater.
pub proof fn lemma_checked(x: Seq<u8>, sa: Seq<i32>, rank: Seq<i32>, i: int, j: int)
    requires
        ranked(x, sa, rank),
        forall|r: int|
            0 <= r < sa.len() - 1 ==> in_order(x, rank, #[trigger] sa[r] as int, sa[r + 1] as int),
        0 <= i <= x.len(),
        0 <= j <= x.len(),
        rank[i] < rank[j],
    ensures
        suffix_less(x, i, j),
    decreases x.len() - i,
{
    if j == x.len() {
        if i < x.len() {
            assert(0 <= rank[i]);
        }
    } else if i == x.len() {
    } else {
        let p = rank[i] as int;
        let q = rank[j] as int;
        assert(sa[p] == i && sa[q] == j);
        lemma_chain(x, sa, rank, p, q);
        if x[i] == x[j] {
            lemma_checked(x, sa, rank, i + 1, j + 1);
        }
    }
}

/// In a sorted array a suffix that comes before another has the lesser
/// place.
pub proof fn lemma_places_rise(x: Seq<u8>, sa: Seq<i32>, rank: Seq<i32>, u: int, v: int)
    requires
        ranked(x, sa, rank),
        is_sorted_order(x, x.len() as int, sa),
        0 <= u <= x.len(),
        0 <= v <= x.len(),
        suffix_less(x, u, v),
    ensures
        rank[u] < rank[v],
{
    if u < x.len() {
        let p = rank[u] as int;
        let q = rank[v] as int;
        if p > q {
            assert(suffix_less(x, sa[q] as int, sa[p] as int));
            lemma_asymmetric(x, u, v);
        } else if p == q {
            lemma_irreflexive(x, u);
        }
    }
}

/// Whether `sa` lists the suffixes of `x` in rising order.
pub fn check_sorted(x: &Vec<u8>, sa: &Vec<i32>) -> (ok: bool)
    requires
        x@.len() < IDX_MAX,
    ensures
        ok == is_sorted_order(x@, x@.len() as int, sa@),
{
    let n: usize = x.len();
    if sa.len() != n {
        return false;
    }
    let mut rank: Vec<i32> = Vec::new();
    let mut v: usize = 0;
    while v < n
        invariant
            v <= n,
            rank@.len() == v,
            forall|u: int| 0 <= u < v ==> #[trigger] rank@[u] == -1,
        decreases n - v,
    {
        rank.push(-1);
        v += 1;
    }
    rank.push(-1);
    let mut p: usize = 0;
    while p < n
        invariant
            p <= n,
            n == x@.len(),
            n == sa@.len(),
            n < IDX_MAX,
            rank@.len() == n + 1,
            rank@[n as int] == -1,
            forall|r: int| 0 <= r < p ==> 0 <= #[trigger] sa@[r] < n,
            forall|r: int| 0 <= r < p ==> rank@[#[trigger] sa@[r] as int] == r,
            forall|u: int|
                0 <= u < n ==> (#[trigger] rank@[u] == -1 || (0 <= rank@[u] < p && sa@[rank@[u] as int]
                    == u)),
        decreases n - p,
    {
        let s: i32 = sa[p];
        if s < 0 || s as usize >= n {
            return false;
        }
        if rank[s as usize] != -1 {
            proof {
                let r = rank@[s as int] as int;
                if is_sorted_order(x@, n as int, sa@) {
                    assert(suffix_less(x@, sa@[r] as int, sa@[p as int] as int));
                    lemma_irreflexive(x@, s as int);
                }
            }
            return false;
        }
        rank[s as usize] = p as i32;
        p += 1;
    }
    let mut v: usize = 0;
    while v < n
        invariant
            v <= n,
            n == x@.len(),
            n == sa@.len(),
            rank@.len() == n + 1,
            forall|r: int| 0 <= r < n ==> rank@[#[trigger] sa@[r] as int] == r,
            forall|r: int| 0 <= r < n ==> 0 <= #[trigger] sa@[r] < n,
            forall|u: int| 0 <= u < v ==> #[trigger] rank@[u] != -1,
        decreases n - v,
    {
        if rank[v] == -1 {
            proof {
                if lists(sa@, v as int) {
                    let k = choose|k: int| 0 <= k < sa@.len() && #[trigger] sa@[k] == v as int;
                    assert(rank@[sa@[k] as int] == k);
                }
            }
            return false;
        }
        v += 1;
    }
    assert(ranked(x@, sa@, rank@));
    let mut r: usize = 0;
    while r + 1 < n
        invariant
            r <= n,
            n == x@.len(),
            n < IDX_MAX,
            ranked(x@, sa@, rank@),
            forall|t: int|
                0 <= t < r && t < n - 1 ==> in_order(
                    x@,
                    rank@,
                    #[trigger] sa@[t] as int,
                    sa@[t + 1] as int,
                ),
        decreases n - r,
    {
        let a: usize = sa[r] as usize;
        let b: usize = sa[r + 1] as usize;
        let first_a: u8 = x[a];
        let first_b: u8 = x[b];
        if !(first_a < first_b || (first_a == first_b && rank[a + 1] < rank[b + 1])) {
            proof {
                if is_sorted_order(x@, n as int, sa@) {
                    assert(suffix_less(x@, sa@[r as int] as int, sa@[r + 1] as int));
                    lemma_places_rise(x@, sa@, rank@, a + 1, b + 1);
                }
            }
            return false;
        }
        r += 1;
    }
    proof {
        assert forall|k: int, l: int| 0 <= k < l < n implies suffix_less(
            x@,
            #[trigger] sa@[k] as int,
            #[trigger] sa@[l] as int,
        ) by {
            lemma_checked(x@, sa@, rank@, sa@[k] as int, sa@[l] as int);
        }
        assert forall|i: int| 0 <= i < n implies #[trigger] lists(sa@, i) by {
            assert(sa@[rank@[i] as int] == i);
        }
    }
    true
}

/// How many of the first `upto` entries are below `n`.
pub open spec fn count_below(sa: Seq<i32>, n: int, upto: int) -> int
    decreases upto,
{
    if upto <= 0 {
        0
    } else {
        count_below(sa, n, upto - 1) + if 0 <= sa[upto - 1] < n {
            1int
        } else {
            0int
        }
    }
}

/// How many of the first `upto` entries are `v`.
pub open spec fn count_equal(sa: Seq<i32>, v: int, upto: int) -> int
    decreases upto,
{
    if upto <= 0 {
        0
    } else {
        count_equal(sa, v, upto - 1) + if sa[upto - 1] == v {
            1int
        } else {
            0int
        }
    }
}

/// In a sorted array a suffix stands once.
pub proof fn lemma_stands_once(x: Seq<u8>, sa: Seq<i32>, v: int, at: int, upto: int)
    requires
        is_sorted_order(x, x.len() as int, sa),
        0 <= at < sa.len(),
        sa[at] == v,
        0 <= upto <= sa.len(),
    ensures
        count_equal(sa, v, upto) == if at < upto {
            1int
        } else {
            0int
        },
    decreases upto,
{
    if upto > 0 {
        lemma_stands_once(x, sa, v, at, upto - 1);
        if upto - 1 != at && sa[upto - 1] == v {
            lemma_irreflexive(x, v);
            if upto - 1 < at {
                assert(suffix_less(x, sa[upto - 1] as int, sa[at] as int));
            } else {
                assert(suffix_less(x, sa[at] as int, sa[upto - 1] as int));
            }
        }
    }
}

/// The entries below `n + 1` are those below `n` and those that are `n`.
pub proof fn lemma_count_below_next(sa: Seq<i32>, n: int, upto: int)
    requires
        0 <= n,
    ensures
        count_below(sa, n + 1, upto) == count_below(sa, n, upto) + count_equal(sa, n, upto),
    decreases upto,
{
    if upto > 0 {
        lemma_count_below_next(sa, n, upto - 1);
    }
}

/// A sorted array holds `n` suffixes that start below `n`.
pub proof fn lemma_count_below(x: Seq<u8>, sa: Seq<i32>, n: int)
    requires
        is_sorted_order(x, x.len() as int, sa),
        0 <= n <= x.len(),
    ensures
        count_below(sa, n, sa.len() as int) == n,
    decreases n,
{
    if n > 0 {
        lemma_count_below(x, sa, n - 1);
        lemma_count_below_next(sa, n - 1, sa.len() as int);
        assert(lists(sa, n - 1));
        let at = choose|k: int| 0 <= k < sa.len() && #[trigger] sa[k] == n - 1;
        lemma_stands_once(x, sa, n - 1, at, sa.len() as int);
    } else {
        lemma_count_none(sa, sa.len() as int);
    }
}

/// No entry is below zero.
pub proof fn lemma_count_none(sa: Seq<i32>, upto: int)
    ensures
        count_below(sa, 0, upto) == 0,
    decreases upto,
{
    if upto > 0 {
        lemma_count_none(sa, upto - 1);
    }
}

} // verus!
