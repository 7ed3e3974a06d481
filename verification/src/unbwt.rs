//! Why the transform of a block loses nothing: the block can be read back
//! from the last column of its sorted rotations and the row in which it
//! stands.
//!
//! The reading goes backwards. The row that holds a rotation tells the
//! symbol before it, which is the last of the row; and the row that holds
//! the rotation begun by that symbol is found by counting, in the column,
//! the lesser symbols and the equal symbols above.

use crate::bwt::{
    cyclic, doubled, is_rotation_order, last_column, lemma_suffix_less_rotation, rotation_le,
};
use crate::suffix::{lemma_irreflexive, lists, suffix_less};
use vstd::prelude::*;

verus! {

/// How many of the first `upto` marks are set.
pub open spec fn count(marks: Seq<bool>, upto: int) -> int
    decreases upto,
{
    if upto <= 0 {
        0
    } else {
        count(marks, upto - 1) + if marks[upto - 1] {
            1int
        } else {
            0int
        }
    }
}

/// `order` lists each of `0, ..., n - 1` once.
pub open spec fn is_perm(order: Seq<int>, n: int) -> bool {
    &&& order.len() == n
    &&& forall|j: int| 0 <= j < n ==> 0 <= #[trigger] order[j] < n
    &&& forall|j: int, k: int| 0 <= j < k < n ==> #[trigger] order[j] != #[trigger] order[k]
    &&& forall|q: int| 0 <= q < n ==> #[trigger] stands(order, q)
}

/// `q` stands in `order`.
pub open spec fn stands(order: Seq<int>, q: int) -> bool {
    exists|j: int| 0 <= j < order.len() && #[trigger] order[j] == q
}

/// The count lies between nothing and all.
pub proof fn lemma_count_bounds(marks: Seq<bool>, upto: int)
    requires
        0 <= upto,
    ensures
        0 <= count(marks, upto) <= upto,
    decreases upto,
{
    if upto > 0 {
        lemma_count_bounds(marks, upto - 1);
    }
}

/// Marks that are set only where others are, and only below `k`, are no
/// more than those others below `k`.
pub proof fn lemma_count_le(a: Seq<bool>, b: Seq<bool>, n: int, k: int)
    requires
        0 <= k <= n,
        forall|j: int| 0 <= j < n && #[trigger] a[j] ==> j < k && b[j],
    ensures
        count(a, n) <= count(b, k),
    decreases n,
{
    if n > 0 {
        if n > k {
            lemma_count_le(a, b, n - 1, k);
        } else {
            lemma_count_le(a, b, n - 1, k - 1);
        }
    }
}

/// Marks of which each is set where one of two others is, which are never
/// both set, are as many as the two together.
pub proof fn lemma_count_split(m: Seq<bool>, a: Seq<bool>, b: Seq<bool>, n: int)
    requires
        forall|j: int| 0 <= j < n ==> (#[trigger] m[j] <==> a[j] || b[j]),
        forall|j: int| 0 <= j < n ==> !(#[trigger] a[j] && b[j]),
    ensures
        count(m, n) == count(a, n) + count(b, n),
    decreases n,
{
    if n > 0 {
        lemma_count_split(m, a, b, n - 1);
    }
}

/// The marks of those of the first `upto` rows whose entry is below `v`.
pub open spec fn count_under(marks: Seq<bool>, order: Seq<int>, v: int, upto: int) -> int
    decreases upto,
{
    if upto <= 0 {
        0
    } else {
        count_under(marks, order, v, upto - 1) + if marks[upto - 1] && order[upto - 1] < v {
            1int
        } else {
            0int
        }
    }
}

/// The marks of those of the first `upto` rows whose entry is `v`.
pub open spec fn count_at(marks: Seq<bool>, order: Seq<int>, v: int, upto: int) -> int
    decreases upto,
{
    if upto <= 0 {
        0
    } else {
        count_at(marks, order, v, upto - 1) + if marks[upto - 1] && order[upto - 1] == v {
            1int
        } else {
            0int
        }
    }
}

proof fn lemma_count_at(marks: Seq<bool>, order: Seq<int>, n: int, v: int, at: int, upto: int)
    requires
        is_perm(order, n),
        0 <= at < n,
        order[at] == v,
        0 <= upto <= n,
    ensures
        count_at(marks, order, v, upto) == if at < upto && marks[at] {
            1int
        } else {
            0int
        },
    decreases upto,
{
    if upto > 0 {
        lemma_count_at(marks, order, n, v, at, upto - 1);
        if upto - 1 != at {
            if upto - 1 < at {
                assert(order[upto - 1] != order[at]);
            } else {
                assert(order[at] != order[upto - 1]);
            }
        }
    }
}

proof fn lemma_count_under_next(marks: Seq<bool>, order: Seq<int>, v: int, upto: int)
    ensures
        count_under(marks, order, v + 1, upto) == count_under(marks, order, v, upto) + count_at(
            marks,
            order,
            v,
            upto,
        ),
    decreases upto,
{
    if upto > 0 {
        lemma_count_under_next(marks, order, v, upto - 1);
    }
}

proof fn lemma_count_under_all(marks: Seq<bool>, order: Seq<int>, n: int, upto: int)
    requires
        is_perm(order, n),
        0 <= upto <= n,
    ensures
        count_under(marks, order, n, upto) == count(marks, upto),
        count_under(marks, order, 0, upto) == 0,
    decreases upto,
{
    if upto > 0 {
        lemma_count_under_all(marks, order, n, upto - 1);
    }
}

proof fn lemma_count_perm_upto(a: Seq<bool>, b: Seq<bool>, order: Seq<int>, n: int, v: int)
    requires
        is_perm(order, n),
        0 <= v <= n,
        forall|j: int| 0 <= j < n ==> #[trigger] a[j] == b[order[j]],
    ensures
        count_under(a, order, v, n) == count(b, v),
    decreases v,
{
    if v > 0 {
        lemma_count_perm_upto(a, b, order, n, v - 1);
        lemma_count_under_next(a, order, v - 1, n);
        assert(stands(order, v - 1));
        let at = choose|j: int| 0 <= j < order.len() && #[trigger] order[j] == v - 1;
        lemma_count_at(a, order, n, v - 1, at, n);
    } else {
        lemma_count_under_all(a, order, n, n);
    }
}

/// Marks on the rows that are the marks on the entries of the rows are as
/// many as these.
pub proof fn lemma_count_perm(a: Seq<bool>, b: Seq<bool>, order: Seq<int>, n: int)
    requires
        is_perm(order, n),
        forall|j: int| 0 <= j < n ==> #[trigger] a[j] == b[order[j]],
    ensures
        count(a, n) == count(b, n),
{
    lemma_count_perm_upto(a, b, order, n, n);
    lemma_count_under_all(a, order, n, n);
}

/// Marks that are set above no mark that is not set are set on the first
/// rows, as many as they are.
pub proof fn lemma_count_prefix(marks: Seq<bool>, n: int, upto: int)
    requires
        0 <= upto <= n,
        forall|j: int, k: int| 0 <= j < k < n && #[trigger] marks[k] ==> #[trigger] marks[j],
    ensures
        0 <= count(marks, upto) <= upto,
        forall|j: int| 0 <= j < upto ==> (#[trigger] marks[j] <==> j < count(marks, upto)),
    decreases upto,
{
    if upto > 0 {
        lemma_count_prefix(marks, n, upto - 1);
        let j = upto - 1;
        if marks[j] && j > 0 {
            assert(marks[j - 1]);
        }
    }
}

/// Whether the rotation by `a` comes no later than the rotation by `b`.
pub open spec fn rot_le(t: Seq<u8>, a: int, b: int) -> bool {
    rotation_le(t, a, b, t.len() as int)
}

/// Whether the rotations by `a` and by `b` are the same string.
pub open spec fn rot_eq(t: Seq<u8>, a: int, b: int) -> bool {
    rot_le(t, a, b) && rot_le(t, b, a)
}

/// Whether the rotation by `a` comes before the rotation by `b`.
pub open spec fn rot_lt(t: Seq<u8>, a: int, b: int) -> bool {
    !rot_le(t, b, a)
}

/// The rotation before the rotation by `q`.
pub open spec fn before(t: Seq<u8>, q: int) -> int {
    (q + t.len() - 1) % (t.len() as int)
}

/// Read round and round, the block comes back after its length.
pub proof fn lemma_cyclic(t: Seq<u8>, i: int)
    requires
        0 <= i,
        t.len() > 0,
    ensures
        cyclic(t, i + t.len()) == cyclic(t, i),
        0 <= i % (t.len() as int) < t.len(),
        i < t.len() ==> i % (t.len() as int) == i,
        cyclic(t, before(t, i) + 1) == cyclic(t, i),
        i >= 1 ==> before(t, i) == (i - 1) % (t.len() as int),
{
    let n = t.len() as int;
    assert((i + n) % n == i % n) by (nonlinear_arith)
        requires
            0 <= i,
            0 < n,
    ;
    assert(0 <= i % n < n) by (nonlinear_arith)
        requires
            0 <= i,
            0 < n,
    ;
    if i < n {
        assert(i % n == i) by (nonlinear_arith)
            requires
                0 <= i < n,
        ;
    }
    assert(((i + n - 1) % n + 1) % n == i % n) by (nonlinear_arith)
        requires
            0 <= i,
            0 < n,
    ;
    if i >= 1 {
        assert((i + n - 1) % n == (i - 1) % n) by (nonlinear_arith)
            requires
                1 <= i,
                0 < n,
        ;
    }
}

/// A rotation by a length more is the same rotation.
pub proof fn lemma_rotation_wraps(t: Seq<u8>, a: int, b: int, m: int)
    requires
        0 <= a,
        0 <= b,
        t.len() > 0,
    ensures
        rotation_le(t, a + t.len(), b, m) == rotation_le(t, a, b, m),
        rotation_le(t, a, b + t.len(), m) == rotation_le(t, a, b, m),
    decreases m,
{
    if m > 0 {
        lemma_cyclic(t, a);
        lemma_cyclic(t, b);
        lemma_rotation_wraps(t, a + 1, b + 1, m - 1);
    }
}

/// Of two rotations one comes no later than the other.
pub proof fn lemma_rotation_total(t: Seq<u8>, a: int, b: int, m: int)
    ensures
        rotation_le(t, a, b, m) || rotation_le(t, b, a, m),
        rotation_le(t, a, a, m),
    decreases m,
{
    if m > 0 {
        lemma_rotation_total(t, a + 1, b + 1, m - 1);
        lemma_rotation_total(t, a + 1, a + 1, m - 1);
    }
}

/// What comes no later than a rotation comes no later than all that the
/// rotation comes no later than.
pub proof fn lemma_rotation_trans(t: Seq<u8>, a: int, b: int, c: int, m: int)
    requires
        rotation_le(t, a, b, m),
        rotation_le(t, b, c, m),
    ensures
        rotation_le(t, a, c, m),
        !rotation_le(t, b, a, m) || !rotation_le(t, c, b, m) ==> !rotation_le(t, c, a, m),
    decreases m,
{
    if m > 0 {
        if cyclic(t, a) == cyclic(t, b) && cyclic(t, b) == cyclic(t, c) {
            lemma_rotation_trans(t, a + 1, b + 1, c + 1, m - 1);
        }
    }
}

/// Rotations of which each comes no later than the other agree symbol by
/// symbol, and rotations that agree come no later than each other.
pub proof fn lemma_rotation_same(t: Seq<u8>, a: int, b: int, m: int, at: int)
    requires
        0 <= at < m,
    ensures
        rotation_le(t, a, b, m) && rotation_le(t, b, a, m) ==> cyclic(t, a + at) == cyclic(
            t,
            b + at,
        ),
    decreases m,
{
    if at > 0 && rotation_le(t, a, b, m) && rotation_le(t, b, a, m) {
        lemma_rotation_same(t, a + 1, b + 1, m - 1, at - 1);
    }
}

/// Rotations that agree over their first `m` symbols come no later than
/// each other.
pub proof fn lemma_rotation_agree(t: Seq<u8>, a: int, b: int, m: int)
    requires
        forall|at: int| 0 <= at < m ==> #[trigger] cyclic(t, a + at) == cyclic(t, b + at),
    ensures
        rotation_le(t, a, b, m),
        rotation_le(t, b, a, m),
    decreases m,
{
    if m > 0 {
        assert(cyclic(t, a + 0) == cyclic(t, b + 0));
        assert forall|at: int| 0 <= at < m - 1 implies #[trigger] cyclic(t, a + 1 + at) == cyclic(
            t,
            b + 1 + at,
        ) by {
            assert(cyclic(t, a + (at + 1)) == cyclic(t, b + (at + 1)));
        }
        lemma_rotation_agree(t, a + 1, b + 1, m - 1);
    }
}

/// One symbol more decides between rotations that agree so far, and
/// changes nothing between others.
pub proof fn lemma_rotation_longer(t: Seq<u8>, a: int, b: int, m: int)
    requires
        0 <= m,
    ensures
        rotation_le(t, a, b, m + 1) == (!rotation_le(t, b, a, m) || (rotation_le(t, a, b, m)
            && cyclic(t, a + m) <= cyclic(t, b + m))),
    decreases m,
{
    if m > 0 {
        lemma_rotation_longer(t, a + 1, b + 1, m - 1);
        assert(a + 1 + (m - 1) == a + m && b + 1 + (m - 1) == b + m);
    } else {
        assert(rotation_le(t, a + 1, b + 1, 0));
        assert(rotation_le(t, a, b, 0) && rotation_le(t, b, a, 0));
        assert(a + 0 == a && b + 0 == b);
    }
    lemma_rotation_total(t, a, b, m);
}

/// Rotations that begin with the same symbol are in the order of the
/// rotations after them.
pub proof fn lemma_rotation_shift(t: Seq<u8>, a: int, b: int)
    requires
        0 <= a,
        0 <= b,
        t.len() > 0,
        cyclic(t, a) == cyclic(t, b),
    ensures
        rot_le(t, a, b) == rot_le(t, a + 1, b + 1),
{
    let n = t.len() as int;
    lemma_rotation_longer(t, a + 1, b + 1, n - 1);
    lemma_rotation_total(t, a + 1, b + 1, n - 1);
    lemma_cyclic(t, a);
    lemma_cyclic(t, b);
}

/// Rotations are in the order of their first symbols and, where these are
/// the same, of the rotations after them.
pub proof fn lemma_rotation_first(t: Seq<u8>, a: int, b: int)
    requires
        0 <= a,
        0 <= b,
        t.len() > 0,
    ensures
        rot_le(t, a, b) == (cyclic(t, a) < cyclic(t, b) || (cyclic(t, a) == cyclic(t, b)
            && rot_le(t, a + 1, b + 1))),
        rot_lt(t, a, b) == (cyclic(t, a) < cyclic(t, b) || (cyclic(t, a) == cyclic(t, b)
            && rot_lt(t, a + 1, b + 1))),
{
    if cyclic(t, a) == cyclic(t, b) {
        lemma_rotation_shift(t, a, b);
        lemma_rotation_shift(t, b, a);
    }
}

/// The rotations before two rotations that are the same string are the
/// same string.
pub proof fn lemma_rotation_before(t: Seq<u8>, a: int, b: int)
    requires
        0 <= a,
        0 <= b,
        t.len() > 0,
        rot_eq(t, a, b),
    ensures
        rot_eq(t, before(t, a), before(t, b)),
{
    let n = t.len() as int;
    let pa = a + n - 1;
    let pb = b + n - 1;
    assert forall|at: int| 0 <= at < n implies #[trigger] cyclic(t, pa + at) == cyclic(
        t,
        pb + at,
    ) by {
        if at == 0 {
            lemma_rotation_same(t, a, b, n, n - 1);
        } else {
            lemma_rotation_same(t, a, b, n, at - 1);
            lemma_cyclic(t, a + at - 1);
            lemma_cyclic(t, b + at - 1);
        }
    }
    lemma_rotation_agree(t, pa, pb, n);
    lemma_rotation_mod(t, pa, pb, n);
    lemma_rotation_mod(t, pb, pa, n);
}

/// A rotation is the rotation by the remainder.
pub proof fn lemma_rotation_mod(t: Seq<u8>, a: int, b: int, m: int)
    requires
        0 <= a,
        0 <= b,
        t.len() > 0,
    ensures
        rotation_le(t, a % (t.len() as int), b % (t.len() as int), m) == rotation_le(t, a, b, m),
    decreases m,
{
    let n = t.len() as int;
    if m > 0 {
        lemma_rotation_mod_one(t, a, b, m);
    }
}

proof fn lemma_rotation_mod_one(t: Seq<u8>, a: int, b: int, m: int)
    requires
        0 <= a,
        0 <= b,
        t.len() > 0,
    ensures
        rotation_le(t, a % (t.len() as int), b % (t.len() as int), m) == rotation_le(t, a, b, m),
    decreases a + b,
{
    let n = t.len() as int;
    if a >= n {
        lemma_rotation_wraps(t, a - n, b, m);
        assert((a - n) % n == a % n) by (nonlinear_arith)
            requires
                n <= a,
                0 < n,
        ;
        lemma_rotation_mod_one(t, a - n, b, m);
    } else if b >= n {
        lemma_rotation_wraps(t, a, b - n, m);
        assert((b - n) % n == b % n) by (nonlinear_arith)
            requires
                n <= b,
                0 < n,
        ;
        lemma_rotation_mod_one(t, a, b - n, m);
    } else {
        lemma_cyclic(t, a);
        lemma_cyclic(t, b);
    }
}

/// The rotation of each row.
pub open spec fn rows(order: Seq<i32>) -> Seq<int> {
    Seq::new(order.len(), |j: int| order[j] as int)
}

/// The rotation before that of each row.
pub open spec fn rows_before(t: Seq<u8>, order: Seq<i32>) -> Seq<int> {
    Seq::new(order.len(), |j: int| before(t, order[j] as int))
}

/// How many symbols of the column are less than `c`.
pub open spec fn smaller(col: Seq<u8>, c: u8) -> int {
    count(Seq::new(col.len(), |j: int| col[j] < c), col.len() as int)
}

/// How many symbols of the column above row `k` are the symbol of row `k`.
pub open spec fn equal_above(col: Seq<u8>, k: int) -> int {
    count(Seq::new(col.len(), |j: int| col[j] == col[k]), k)
}

/// The row of the rotation that the symbol of row `k` begins.
pub open spec fn row_before(col: Seq<u8>, k: int) -> int {
    smaller(col, col[k]) + equal_above(col, k)
}

/// The row that is reached from row `ptr` in `i` steps back.
pub open spec fn row_back(col: Seq<u8>, ptr: int, i: int) -> int
    decreases i,
{
    if i <= 0 {
        ptr
    } else {
        row_before(col, row_back(col, ptr, i - 1))
    }
}

/// The block whose sorted rotations have the last column `col`, the block
/// itself standing in row `ptr`.
pub open spec fn unbwt(col: Seq<u8>, ptr: int) -> Seq<u8> {
    Seq::new(col.len(), |p: int| col[row_back(col, ptr, col.len() - 1 - p)])
}

/// The sorted order lists each rotation once, and so do the rotations
/// before those of the rows.
pub proof fn lemma_rows(t: Seq<u8>, order: Seq<i32>)
    requires
        t.len() > 0,
        is_rotation_order(t, order),
    ensures
        is_perm(rows(order), t.len() as int),
        is_perm(rows_before(t, order), t.len() as int),
        forall|j: int, k: int|
            0 <= j < k < t.len() ==> rot_le(t, #[trigger] order[j] as int, #[trigger] order[k] as int),
{
    let n = t.len() as int;
    let r = rows(order);
    let b = rows_before(t, order);
    assert forall|j: int, k: int| 0 <= j < k < n implies #[trigger] r[j] != #[trigger] r[k] by {
        assert(suffix_less(doubled(t), order[j] as int, order[k] as int));
        lemma_irreflexive(doubled(t), order[j] as int);
    }
    assert forall|q: int| 0 <= q < n implies #[trigger] stands(r, q) by {
        assert(lists(order, q));
        let j = choose|j: int| 0 <= j < order.len() && #[trigger] order[j] == q;
        assert(r[j] == q);
    }
    assert forall|j: int| 0 <= j < n implies 0 <= #[trigger] b[j] < n by {
        lemma_cyclic(t, order[j] as int + n - 1);
    }
    assert forall|j: int, k: int| 0 <= j < k < n implies #[trigger] b[j] != #[trigger] b[k] by {
        assert(r[j] != r[k]);
        lemma_before(t, order[j] as int);
        lemma_before(t, order[k] as int);
    }
    assert forall|q: int| 0 <= q < n implies #[trigger] stands(b, q) by {
        let next = if q + 1 < n {
            q + 1
        } else {
            0
        };
        assert(lists(order, next));
        let j = choose|j: int| 0 <= j < order.len() && #[trigger] order[j] == next;
        lemma_before(t, next);
        assert(b[j] == q);
    }
    assert forall|j: int, k: int| 0 <= j < k < n implies rot_le(
        t,
        #[trigger] order[j] as int,
        #[trigger] order[k] as int,
    ) by {
        assert(suffix_less(doubled(t), order[j] as int, order[k] as int));
        lemma_suffix_less_rotation(t, order[j] as int, order[k] as int, n);
    }
}

/// The rotation before the first is the last; before any other it is the
/// one with the index before.
pub proof fn lemma_before(t: Seq<u8>, q: int)
    requires
        t.len() > 0,
        0 <= q < t.len(),
    ensures
        before(t, q) == if q == 0 {
            t.len() - 1
        } else {
            q - 1
        },
{
    let n = t.len() as int;
    if q == 0 {
        assert((0 + n - 1) % n == n - 1) by (nonlinear_arith)
            requires
                0 < n,
        ;
    } else {
        assert((q + n - 1) % n == q - 1) by (nonlinear_arith)
            requires
                1 <= q < n,
        ;
    }
}

/// The rotation after the rotation before a rotation is that rotation.
pub proof fn lemma_after_before(t: Seq<u8>, x: int, y: int)
    requires
        t.len() > 0,
        0 <= x < t.len(),
        0 <= y,
    ensures
        rot_le(t, before(t, x) + 1, y) == rot_le(t, x, y),
        rot_le(t, y, before(t, x) + 1) == rot_le(t, y, x),
{
    lemma_before(t, x);
    if x == 0 {
        lemma_rotation_wraps(t, 0, y, t.len() as int);
        lemma_rotation_wraps(t, y, 0, t.len() as int);
    }
}

/// The row that is found by counting holds the rotation before that of
/// row `k`, or a rotation that is the same string.
pub proof fn lemma_row_before(t: Seq<u8>, order: Seq<i32>, k: int)
    requires
        t.len() > 0,
        is_rotation_order(t, order),
        0 <= k < t.len(),
    ensures
        0 <= row_before(last_column(t, order), k) < t.len(),
        rot_eq(
            t,
            order[row_before(last_column(t, order), k)] as int,
            before(t, order[k] as int),
        ),
{
    let n = t.len() as int;
    let col = last_column(t, order);
    let i = order[k] as int;
    let p = before(t, i);
    let c = col[k];
    let r = rows(order);
    let rb = rows_before(t, order);
    lemma_rows(t, order);
    lemma_before(t, i);
    lemma_cyclic(t, p);
    assert(c == t[p]);
    // The symbols of the column are those of the block.
    let col_lt = Seq::new(n as nat, |j: int| col[j] < c);
    let blk_lt = Seq::new(n as nat, |q: int| t[q] < c);
    let col_eq = Seq::new(n as nat, |j: int| col[j] == col[k]);
    let col_eq_lt = Seq::new(n as nat, |j: int| col[j] == c && rot_lt(t, order[j] as int, i));
    let blk_eq_lt = Seq::new(n as nat, |q: int| t[q] == c && rot_lt(t, q + 1, i));
    let col_eq_le = Seq::new(n as nat, |j: int| col[j] == c && rot_le(t, order[j] as int, i));
    let blk_eq_le = Seq::new(n as nat, |q: int| t[q] == c && rot_le(t, q + 1, i));
    assert forall|j: int| 0 <= j < n implies col[j] == t[rb[j]] by {
        lemma_before(t, order[j] as int);
    }
    assert forall|j: int| 0 <= j < n implies #[trigger] col_eq_lt[j] == blk_eq_lt[rb[j]] by {
        lemma_after_before(t, order[j] as int, i);
    }
    assert forall|j: int| 0 <= j < n implies #[trigger] col_eq_le[j] == blk_eq_le[rb[j]] by {
        lemma_after_before(t, order[j] as int, i);
    }
    lemma_count_perm(col_lt, blk_lt, rb, n);
    lemma_count_perm(col_eq_lt, blk_eq_lt, rb, n);
    lemma_count_perm(col_eq_le, blk_eq_le, rb, n);
    // The rotations before, and no later than, the rotation sought.
    let rot_before = Seq::new(n as nat, |q: int| rot_lt(t, q, p));
    let rot_upto = Seq::new(n as nat, |q: int| rot_le(t, q, p));
    assert forall|q: int| 0 <= q < n implies (#[trigger] rot_before[q] <==> blk_lt[q]
        || blk_eq_lt[q]) by {
        lemma_rotation_first(t, q, p);
        lemma_cyclic(t, q);
        lemma_after_before(t, i, q + 1);
    }
    assert forall|q: int| 0 <= q < n implies (#[trigger] rot_upto[q] <==> blk_lt[q]
        || blk_eq_le[q]) by {
        lemma_rotation_first(t, q, p);
        lemma_cyclic(t, q);
        lemma_after_before(t, i, q + 1);
    }
    lemma_count_split(rot_before, blk_lt, blk_eq_lt, n);
    lemma_count_split(rot_upto, blk_lt, blk_eq_le, n);
    // The rows above row `k` with its symbol lie between.
    assert forall|j: int| 0 <= j < n && #[trigger] col_eq_lt[j] implies j < k && col_eq[j] by {
        if j > k {
            assert(rot_le(t, order[k] as int, order[j] as int));
        } else if j == k {
            lemma_rotation_total(t, i, i, n);
        }
    }
    lemma_count_le(col_eq_lt, col_eq, n, k);
    let above = Seq::new(n as nat, |j: int| j <= k && col[j] == c);
    assert forall|j: int| 0 <= j < n && #[trigger] above[j] implies j < n && col_eq_le[j] by {
        if j < k {
            assert(rot_le(t, order[j] as int, order[k] as int));
        } else {
            lemma_rotation_total(t, i, i, n);
        }
    }
    lemma_count_le(above, col_eq_le, n, n);
    lemma_count_upto(above, col_eq, n, k + 1);
    assert(count(col_eq, k + 1) == count(col_eq, k) + 1);
    let lo = count(rot_before, n);
    let hi = count(rot_upto, n);
    let row = row_before(col, k);
    assert(col_lt =~= Seq::new(col.len(), |j: int| col[j] < col[k]));
    assert(col_eq =~= Seq::new(col.len(), |j: int| col[j] == col[k]));
    assert(row == count(col_lt, n) + count(col_eq, k));
    assert(lo <= row < hi);
    lemma_count_bounds(rot_upto, n);
    lemma_count_bounds(col_lt, n);
    lemma_count_bounds(col_eq, k);
    // The rows of the rotations before, and no later, are the first rows.
    let row_lt = Seq::new(n as nat, |j: int| rot_lt(t, order[j] as int, p));
    let row_le = Seq::new(n as nat, |j: int| rot_le(t, order[j] as int, p));
    lemma_count_perm(row_lt, rot_before, r, n);
    lemma_count_perm(row_le, rot_upto, r, n);
    assert forall|j: int, l: int| 0 <= j < l < n && #[trigger] row_lt[l] implies #[trigger] row_lt[j] by {
        assert(rot_le(t, order[j] as int, order[l] as int));
        if rot_le(t, p, order[j] as int) {
            lemma_rotation_trans(t, p, order[j] as int, order[l] as int, n);
        }
    }
    assert forall|j: int, l: int| 0 <= j < l < n && #[trigger] row_le[l] implies #[trigger] row_le[j] by {
        assert(rot_le(t, order[j] as int, order[l] as int));
        lemma_rotation_trans(t, order[j] as int, order[l] as int, p, n);
    }
    lemma_count_prefix(row_lt, n, n);
    lemma_count_prefix(row_le, n, n);
    assert(!row_lt[row]);
    assert(row_le[row]);
    lemma_rotation_total(t, order[row] as int, p, n);
}

/// Marks that are set nowhere from `k` on are as many as below `k`, and
/// there as many as marks that agree with them there.
pub proof fn lemma_count_upto(a: Seq<bool>, b: Seq<bool>, n: int, k: int)
    requires
        0 <= k <= n,
        forall|j: int| 0 <= j < n ==> (#[trigger] a[j] <==> j < k && b[j]),
    ensures
        count(a, n) == count(b, k),
    decreases n,
{
    if n > k {
        lemma_count_upto(a, b, n - 1, k);
    } else if n > 0 {
        lemma_count_upto(a, b, n - 1, k - 1);
    }
}

/// The rotation that is reached from the first in `i` steps back.
pub open spec fn back(t: Seq<u8>, i: int) -> int
    decreases i,
{
    if i <= 0 {
        0
    } else {
        before(t, back(t, i - 1))
    }
}

/// Back from the first rotation the steps lead through the rotations from
/// the last down.
pub proof fn lemma_back(t: Seq<u8>, i: int)
    requires
        t.len() > 0,
        0 <= i <= t.len(),
    ensures
        back(t, i) == if i == 0 {
            0
        } else {
            t.len() - i
        },
    decreases i,
{
    if i > 0 {
        lemma_back(t, i - 1);
        lemma_before(t, back(t, i - 1));
    }
}

/// After `i` steps back the row holds the rotation that is `i` steps back
/// from the first, or a rotation that is the same string.
pub proof fn lemma_row_back(t: Seq<u8>, order: Seq<i32>, ptr: int, i: int)
    requires
        t.len() > 0,
        is_rotation_order(t, order),
        0 <= ptr < t.len(),
        order[ptr] == 0,
        0 <= i < t.len(),
    ensures
        0 <= row_back(last_column(t, order), ptr, i) < t.len(),
        rot_eq(t, order[row_back(last_column(t, order), ptr, i)] as int, back(t, i)),
    decreases i,
{
    let n = t.len() as int;
    let col = last_column(t, order);
    if i == 0 {
        lemma_rotation_total(t, 0, 0, n);
    } else {
        lemma_row_back(t, order, ptr, i - 1);
        let k = row_back(col, ptr, i - 1);
        lemma_row_before(t, order, k);
        lemma_back(t, i - 1);
        lemma_rotation_before(t, order[k] as int, back(t, i - 1));
        let a = order[row_before(col, k)] as int;
        let b = before(t, order[k] as int);
        let c = back(t, i);
        lemma_rotation_trans(t, a, b, c, n);
        lemma_rotation_trans(t, c, b, a, n);
    }
}

/// The block can be read back from its transform.
pub proof fn lemma_unbwt(t: Seq<u8>, order: Seq<i32>, ptr: int)
    requires
        t.len() > 0,
        is_rotation_order(t, order),
        0 <= ptr < t.len(),
        order[ptr] == 0,
    ensures
        unbwt(last_column(t, order), ptr) == t,
{
    let n = t.len() as int;
    let col = last_column(t, order);
    assert forall|pos: int| 0 <= pos < n implies unbwt(col, ptr)[pos] == t[pos] by {
        let i = n - 1 - pos;
        lemma_row_back(t, order, ptr, i);
        let row = row_back(col, ptr, i);
        lemma_back(t, i);
        lemma_back(t, i + 1);
        lemma_rotation_before(t, order[row] as int, back(t, i));
        lemma_rotation_same(t, before(t, order[row] as int), back(t, i + 1), n, 0);
        lemma_before(t, order[row] as int);
        lemma_cyclic(t, before(t, order[row] as int));
        lemma_cyclic(t, pos);
    }
    assert(unbwt(col, ptr) =~= t);
}

} // verus!
