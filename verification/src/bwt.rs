//! The Burrows-Wheeler transform of a block.
//!
//! The rotations of the block are put in order by sorting the suffixes of
//! the block written twice: the suffix that starts at `i` begins with the
//! rotation by `i`, and of two equal rotations the later one comes first.
//! The order is found by induced sorting and checked before it is used;
//! should the check ever fail, a plain sort finds it.

use crate::sais::{empty_slots, sais_bytes, sorted_by_induction, values, IDX_MAX};
use crate::suffix::{
    check_sorted, count_below, is_sorted_order, lemma_count_below, lemma_irreflexive,
    lemma_unique, lists, sort_suffixes, suffix_less,
};
use vstd::prelude::*;

verus! {

/// A block of this length or more is not transformed.
pub const MAX_LEN: usize = 0x4000_0000;

/// The block written twice.
pub open spec fn doubled(data: Seq<u8>) -> Seq<u8> {
    data + data
}

/// `order` lists the rotations of `data` in rising order.
pub open spec fn is_rotation_order(data: Seq<u8>, order: Seq<i32>) -> bool {
    is_sorted_order(doubled(data), data.len() as int, order)
}

/// The rotations of `data` in rising order.
pub open spec fn rotation_order(data: Seq<u8>) -> Seq<i32> {
    choose|order: Seq<i32>| is_rotation_order(data, order)
}

/// The last symbol of each rotation, the rotations taken in `order`.
pub open spec fn last_column(data: Seq<u8>, order: Seq<i32>) -> Seq<u8> {
    Seq::new(data.len(), |k: int| data[(order[k] + data.len() - 1) % (data.len() as int)])
}

/// For each byte value whether it occurs in `data`.
pub open spec fn marks(data: Seq<u8>) -> Seq<bool> {
    Seq::new(256, |b: int| data.contains(b as u8))
}

/// The symbol at place `i` of the block read round and round.
pub open spec fn cyclic(data: Seq<u8>, i: int) -> u8 {
    data[i % (data.len() as int)]
}

/// Whether, over their first `m` symbols, the rotation by `i` comes no later
/// than the rotation by `j`.
pub open spec fn rotation_le(data: Seq<u8>, i: int, j: int, m: int) -> bool
    decreases m,
{
    if m <= 0 {
        true
    } else if cyclic(data, i) != cyclic(data, j) {
        cyclic(data, i) < cyclic(data, j)
    } else {
        rotation_le(data, i + 1, j + 1, m - 1)
    }
}

/// The transform of a block: the last column of its sorted rotations, the
/// row in which the block itself stands, and which byte values occur.
pub struct Bwt {
    pub bwt: Vec<u8>,
    pub ptr: usize,
    pub has_byte: Vec<bool>,
}

/// The order of the rotations is the one order there is.
pub proof fn lemma_rotation_order(data: Seq<u8>, order: Seq<i32>)
    requires
        is_rotation_order(data, order),
    ensures
        rotation_order(data) == order,
{
    lemma_unique(doubled(data), data.len() as int, rotation_order(data), order);
}

/// The block written twice is the block read round and round.
pub proof fn lemma_doubled(data: Seq<u8>, i: int)
    requires
        0 <= i < 2 * data.len(),
    ensures
        doubled(data)[i] == cyclic(data, i),
{
    let n = data.len() as int;
    if i < n {
        assert(i % n == i) by (nonlinear_arith)
            requires
                0 <= i < n,
        ;
    } else {
        assert(i % n == i - n) by (nonlinear_arith)
            requires
                n <= i < 2 * n,
        ;
    }
}

/// Where a suffix of the block written twice comes before another, its
/// first symbols come no later than the other's.
pub proof fn lemma_suffix_less_rotation(data: Seq<u8>, i: int, j: int, m: int)
    requires
        0 <= i,
        0 <= j,
        0 <= m,
        i + m <= 2 * data.len(),
        j + m <= 2 * data.len(),
        suffix_less(doubled(data), i, j),
    ensures
        rotation_le(data, i, j, m),
    decreases m,
{
    if m > 0 {
        lemma_doubled(data, i);
        lemma_doubled(data, j);
        if doubled(data)[i] == doubled(data)[j] {
            lemma_suffix_less_rotation(data, i + 1, j + 1, m - 1);
        }
    }
}

/// The order of the rotations lists every rotation once, and of two rows
/// the upper holds a rotation that comes no later than that of the lower.
pub proof fn lemma_sorted_rotations(data: Seq<u8>, order: Seq<i32>, k: int, l: int)
    requires
        is_rotation_order(data, order),
        0 <= k < l < data.len(),
    ensures
        0 <= order[k] < data.len(),
        0 <= order[l] < data.len(),
        order[k] != order[l],
        forall|i: int| 0 <= i < data.len() ==> #[trigger] lists(order, i),
        rotation_le(data, order[k] as int, order[l] as int, data.len() as int),
{
    lemma_irreflexive(doubled(data), order[k] as int);
    assert(suffix_less(doubled(data), order[k] as int, order[l] as int));
    lemma_suffix_less_rotation(data, order[k] as int, order[l] as int, data.len() as int);
}

/// The suffixes of `x` that start below `n`, in rising order, as induced
/// sorting finds them; `None` if it gives up or the array it leaves is not
/// the sorted one.
pub fn induced_order(x: &Vec<u8>, n: usize) -> (r: Option<Vec<i32>>)
    requires
        n <= x@.len(),
        2 <= x@.len() < IDX_MAX,
    ensures
        r.is_some() == match sorted_by_induction(256, values(x@), empty_slots(x@.len() as int)) {
            Some(sa) => is_sorted_order(x@, x@.len() as int, sa),
            None => false,
        },
        match r {
            Some(order) => is_sorted_order(x@, n as int, order@),
            None => true,
        },
{
    let total: usize = x.len();
    let mut sa: Vec<i32> = Vec::new();
    let mut p: usize = 0;
    while p < total
        invariant
            p <= total,
            sa@.len() == p,
            forall|q: int| 0 <= q < p ==> #[trigger] sa@[q] == 0,
        decreases total - p,
    {
        sa.push(0);
        p += 1;
    }
    assert(sa@ =~= empty_slots(total as int));
    if !sais_bytes(x, &mut sa) {
        return None;
    }
    if !check_sorted(x, &sa) {
        return None;
    }
    let mut order: Vec<i32> = Vec::new();
    let ghost mut at: Seq<int> = Seq::empty();
    let mut p: usize = 0;
    while p < total
        invariant
            p <= total,
            total == x@.len(),
            total == sa@.len(),
            n <= total,
            total < IDX_MAX,
            is_sorted_order(x@, total as int, sa@),
            order@.len() == at.len(),
            order@.len() == count_below(sa@, n as int, p as int),
            forall|k: int| 0 <= k < at.len() ==> 0 <= #[trigger] at[k] < p && order@[k] == sa@[at[k]],
            forall|k: int, l: int| 0 <= k < l < at.len() ==> #[trigger] at[k] < #[trigger] at[l],
            forall|k: int| 0 <= k < order@.len() ==> 0 <= #[trigger] order@[k] < n,
            forall|q: int| 0 <= q < p && sa@[q] < n ==> lists(order@, #[trigger] sa@[q] as int),
        decreases total - p,
    {
        let s: i32 = sa[p];
        if s >= 0 && (s as usize) < n {
            let ghost before = order@;
            order.push(s);
            proof {
                at = at.push(p as int);
                assert forall|q: int| 0 <= q < p + 1 && sa@[q] < n implies lists(
                    order@,
                    #[trigger] sa@[q] as int,
                ) by {
                    if q < p {
                        assert(lists(before, sa@[q] as int));
                        let k = choose|k: int| 0 <= k < before.len() && #[trigger] before[k]
                            == sa@[q] as int;
                        assert(order@[k] == sa@[q]);
                    } else {
                        assert(order@[order@.len() - 1] == sa@[q]);
                    }
                }
            }
        }
        p += 1;
    }
    proof {
        lemma_count_below(x@, sa@, n as int);
        assert forall|i: int| 0 <= i < n implies #[trigger] lists(order@, i) by {
            assert(lists(sa@, i));
            let q = choose|q: int| 0 <= q < sa@.len() && #[trigger] sa@[q] == i;
            assert(lists(order@, sa@[q] as int));
        }
        assert forall|k: int, l: int| 0 <= k < l < n implies suffix_less(
            x@,
            #[trigger] order@[k] as int,
            #[trigger] order@[l] as int,
        ) by {
            assert(at[k] < at[l]);
            assert(suffix_less(x@, sa@[at[k]] as int, sa@[at[l]] as int));
        }
    }
    Some(order)
}

/// The suffixes of `x` that start below `n`, in rising order.
pub fn sorted_order(x: &Vec<u8>, n: usize) -> (order: Vec<i32>)
    requires
        n <= x@.len(),
        2 <= x@.len() < IDX_MAX,
    ensures
        is_sorted_order(x@, n as int, order@),
{
    match induced_order(x, n) {
        Some(order) => order,
        None => sort_suffixes(x, n),
    }
}

/// Which byte values occur in `data`.
pub fn has_byte(data: &Vec<u8>) -> (marked: Vec<bool>)
    ensures
        marked@ == marks(data@),
{
    let mut marked: Vec<bool> = Vec::new();
    let mut b: usize = 0;
    while b < 256
        invariant
            b <= 256,
            marked@.len() == b,
            forall|c: int| 0 <= c < b ==> !#[trigger] marked@[c],
        decreases 256 - b,
    {
        marked.push(false);
        b += 1;
    }
    let n: usize = data.len();
    let mut j: usize = 0;
    while j < n
        invariant
            j <= n,
            n == data@.len(),
            marked@.len() == 256,
            forall|c: int| 0 <= c < 256 ==> (#[trigger] marked@[c] <==> data@.take(j as int).contains(c as u8)),
        decreases n - j,
    {
        let ghost seen = data@.take(j as int);
        marked[data[j] as usize] = true;
        proof {
            let now = data@.take(j + 1);
            assert(now =~= seen.push(data@[j as int]));
            assert forall|c: int| 0 <= c < 256 implies (#[trigger] marked@[c] <==> now.contains(
                c as u8,
            )) by {
                if seen.contains(c as u8) {
                    let w = choose|w: int| 0 <= w < seen.len() && seen[w] == c as u8;
                    assert(now[w] == c as u8);
                }
                if c == data@[j as int] {
                    assert(now[j as int] == c as u8);
                }
                if now.contains(c as u8) {
                    let w = choose|w: int| 0 <= w < now.len() && now[w] == c as u8;
                    if w < j {
                        assert(seen[w] == c as u8);
                    }
                }
            }
        }
        j += 1;
    }
    assert(data@.take(n as int) =~= data@);
    assert(marked@ =~= marks(data@));
    marked
}

/// The Burrows-Wheeler transform of `input`. An empty block, and one of
/// `MAX_LEN` bytes or more, gives an empty transform with the greatest
/// number in place of the row.
pub fn bwt(input: Vec<u8>) -> (out: Bwt)
    ensures
        out.has_byte@.len() == 256,
        input@.len() == 0 || input@.len() >= MAX_LEN ==> out.bwt@.len() == 0 && out.ptr
            == usize::MAX && forall|b: int| 0 <= b < 256 ==> !#[trigger] out.has_byte@[b],
        0 < input@.len() < MAX_LEN ==> {
            &&& is_rotation_order(input@, rotation_order(input@))
            &&& out.bwt@ == last_column(input@, rotation_order(input@))
            &&& out.ptr < input@.len()
            &&& rotation_order(input@)[out.ptr as int] == 0
            &&& out.has_byte@ == marks(input@)
            &&& out.has_byte@[input@[0] as int]
        },
{
    let n: usize = input.len();
    if n == 0 || n >= MAX_LEN {
        let mut none: Vec<bool> = Vec::new();
        let mut b: usize = 0;
        while b < 256
            invariant
                b <= 256,
                none@.len() == b,
                forall|c: int| 0 <= c < b ==> !#[trigger] none@[c],
            decreases 256 - b,
        {
            none.push(false);
            b += 1;
        }
        return Bwt { bwt: Vec::new(), ptr: usize::MAX, has_byte: none };
    }
    let marked = has_byte(&input);
    assert(input@.contains(input@[0]));
    let mut x: Vec<u8> = Vec::new();
    x.extend_from_slice(input.as_slice());
    x.extend_from_slice(input.as_slice());
    assert(x@ =~= doubled(input@));
    let order = sorted_order(&x, n);
    proof {
        lemma_rotation_order(input@, order@);
    }
    let mut column: Vec<u8> = Vec::new();
    let mut ptr: usize = usize::MAX;
    let mut k: usize = 0;
    while k < n
        invariant
            k <= n,
            n == input@.len(),
            0 < n < MAX_LEN,
            is_rotation_order(input@, order@),
            column@.len() == k,
            forall|j: int| 0 <= j < k ==> #[trigger] column@[j] == last_column(input@, order@)[j],
            forall|j: int| 0 <= j < k && #[trigger] order@[j] == 0 ==> ptr != usize::MAX,
            ptr == usize::MAX || (ptr < k && order@[ptr as int] == 0),
        decreases n - k,
    {
        let i: i32 = order[k];
        proof {
            assert(0 <= order@[k as int] < n);
            if i >= 1 {
                assert(((i - 1) + n) % (n as int) == i - 1) by (nonlinear_arith)
                    requires
                        1 <= i < n,
                ;
            } else {
                assert((n - 1) % (n as int) == n - 1) by (nonlinear_arith)
                    requires
                        0 < n,
                ;
            }
        }
        if i == 0 {
            ptr = k;
            column.push(input[n - 1]);
        } else {
            column.push(input[(i - 1) as usize]);
        }
        k += 1;
    }
    proof {
        assert(lists(order@, 0));
        assert(column@ =~= last_column(input@, order@));
    }
    Bwt { bwt: column, ptr, has_byte: marked }
}

} // verus!
