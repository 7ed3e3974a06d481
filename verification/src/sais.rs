//! Suffix sorting by induced sorting (SA-IS).
//!
//! The passes work in place on an array of signed indices: a positive entry
//! is a suffix, a complemented (negative) entry is one that a later pass
//! comes back to, and zero is an empty slot. Each pass is specified as the
//! scan that it is, slot by slot, and proved to make that scan and to stay
//! inside its buffers; a step that would leave a buffer gives the sort up.
//! That the array which the scans leave is the sorted one is not proved
//! here: the caller checks it.

use vstd::prelude::*;

verus! {

/// The greatest index, also the mark of an empty slot while names are made.
pub const IDX_MAX: i32 = 0x7FFF_FFFF;

/// A symbol of a string to be sorted.
pub trait Word: Copy {
    /// The symbol as a number.
    spec fn value(&self) -> int;

    fn as_usize(&self) -> (r: usize)
        ensures
            r == self.value(),
    ;
}

impl Word for u8 {
    open spec fn value(&self) -> int {
        *self as int
    }

    fn as_usize(&self) -> usize {
        *self as usize
    }
}

impl Word for u32 {
    open spec fn value(&self) -> int {
        *self as int
    }

    fn as_usize(&self) -> usize {
        *self as usize
    }
}

/// The symbols of a string as numbers.
pub open spec fn values<W: Word>(data: Seq<W>) -> Seq<int> {
    Seq::new(data.len(), |i: int| data[i].value())
}

/// The bitwise complement of an index.
pub fn flip(i: i32) -> (r: i32)
    ensures
        r == -1 - i,
{
    -1 - i
}

/// The suffix array and the cursors into its buckets.
pub struct Slots {
    pub sa: Seq<i32>,
    pub bptrs: Seq<u32>,
}

/// The cursors when each of the symbols from `sigma[k]` on points at the
/// first slot of its bucket, the buckets before taking `acc` slots; `None`
/// if the slots are too many to count.
pub open spec fn heads(sigma: Seq<usize>, sizes: Seq<u32>, bptrs: Seq<u32>, k: int, acc: int) -> Option<
    Seq<u32>,
>
    decreases sigma.len() - k,
{
    if k < 0 || k >= sigma.len() {
        Some(bptrs)
    } else if acc + sizes[sigma[k] as int] > u32::MAX {
        None
    } else {
        heads(
            sigma,
            sizes,
            bptrs.update(sigma[k] as int, acc as u32),
            k + 1,
            acc + sizes[sigma[k] as int],
        )
    }
}

/// The cursors when each of the symbols from `sigma[k]` on points at the
/// last slot of its bucket; `None` if the slots are too many to count or a
/// bucket is empty where none is before it.
pub open spec fn tails(sigma: Seq<usize>, sizes: Seq<u32>, bptrs: Seq<u32>, k: int, acc: int) -> Option<
    Seq<u32>,
>
    decreases sigma.len() - k,
{
    if k < 0 || k >= sigma.len() {
        Some(bptrs)
    } else if acc + sizes[sigma[k] as int] > u32::MAX || acc + sizes[sigma[k] as int] == 0 {
        None
    } else {
        tails(
            sigma,
            sizes,
            bptrs.update(sigma[k] as int, (acc + sizes[sigma[k] as int] - 1) as u32),
            k + 1,
            acc + sizes[sigma[k] as int],
        )
    }
}

/// How often symbol `c` stands among the first `upto` symbols.
pub open spec fn tally(data: Seq<int>, c: int, upto: int) -> int
    decreases upto,
{
    if upto <= 0 {
        0
    } else {
        tally(data, c, upto - 1) + if data[upto - 1] == c {
            1int
        } else {
            0int
        }
    }
}

/// A symbol stands at most as often as there are symbols.
pub proof fn lemma_tally_bound(data: Seq<int>, c: int, upto: int)
    requires
        0 <= upto,
    ensures
        0 <= tally(data, c, upto) <= upto,
    decreases upto,
{
    if upto > 0 {
        lemma_tally_bound(data, c, upto - 1);
    }
}

/// Those of the symbols below `upto` that occur, in rising order.
pub open spec fn present(sizes: Seq<u32>, upto: int) -> Seq<usize>
    decreases upto,
{
    if upto <= 0 {
        Seq::empty()
    } else if sizes[upto - 1] != 0 {
        present(sizes, upto - 1).push((upto - 1) as usize)
    } else {
        present(sizes, upto - 1)
    }
}

/// A symbol that is counted is among those that occur.
pub proof fn lemma_present(sizes: Seq<u32>, upto: int, c: int)
    requires
        0 <= c < upto,
        sizes[c] != 0,
    ensures
        present(sizes, upto).len() >= 1,
    decreases upto,
{
    if c < upto - 1 {
        lemma_present(sizes, upto - 1, c);
    }
}

/// A symbol that stands in the string is counted.
pub proof fn lemma_tally_some(data: Seq<int>, at: int, upto: int)
    requires
        0 <= at < upto,
    ensures
        tally(data, data[at], upto) >= 1,
    decreases upto,
{
    lemma_tally_bound(data, data[at], upto - 1);
    if at < upto - 1 {
        lemma_tally_some(data, at, upto - 1);
    }
}

/// After `i` has been written at the cursor of symbol `w` and the cursor
/// has moved down; `None` if there is no such cursor or it points outside.
pub open spec fn tail_pushed(s: Slots, w: int, i: i32) -> Option<Slots> {
    if 0 <= w < s.bptrs.len() && s.bptrs[w] < s.sa.len() {
        Some(
            Slots {
                sa: s.sa.update(s.bptrs[w] as int, i),
                bptrs: s.bptrs.update(
                    w,
                    if s.bptrs[w] == 0 {
                        u32::MAX
                    } else {
                        (s.bptrs[w] - 1) as u32
                    },
                ),
            },
        )
    } else {
        None
    }
}

/// After `i` has been written at the cursor of symbol `w` and the cursor
/// has moved up; `None` if there is no such cursor or it points outside.
pub open spec fn head_pushed(s: Slots, w: int, i: i32) -> Option<Slots> {
    if 0 <= w < s.bptrs.len() && s.bptrs[w] < s.sa.len() && s.bptrs[w] != u32::MAX {
        Some(
            Slots {
                sa: s.sa.update(s.bptrs[w] as int, i),
                bptrs: s.bptrs.update(w, (s.bptrs[w] + 1) as u32),
            },
        )
    } else {
        None
    }
}

/// The index to push for the suffix before suffix `i`: `i - 1`,
/// complemented if the symbol before it compares with it as `rising` says
/// (less if `rising`, greater if not) or if there is none.
pub open spec fn marked(data: Seq<int>, i: int, rising: bool) -> int {
    if i - 1 == 0 || (rising && data[i - 2] < data[i - 1]) || (!rising && data[i - 2] > data[i
        - 1]) {
        -i
    } else {
        i - 1
    }
}

/// The upward scan from slot `p` on: for each suffix found, the suffix
/// before it goes to the head of its bucket, and the entry found is emptied
/// if `wipe`, else complemented; a complemented entry found is restored.
pub open spec fn fwd_scan(data: Seq<int>, s: Slots, p: int, n: int, wipe: bool) -> Option<Slots>
    decreases n - p,
{
    if p < 0 || p >= n {
        Some(s)
    } else if s.sa[p] > 0 {
        if s.sa[p] > n {
            None
        } else {
            match head_pushed(s, data[s.sa[p] - 1], marked(data, s.sa[p] as int, true) as i32) {
                None => None,
                Some(s2) => fwd_scan(
                    data,
                    Slots {
                        sa: s2.sa.update(
                            p,
                            if wipe {
                                0i32
                            } else {
                                (-1 - s2.sa[p]) as i32
                            },
                        ),
                        bptrs: s2.bptrs,
                    },
                    p + 1,
                    n,
                    wipe,
                ),
            }
        }
    } else if s.sa[p] < 0 {
        fwd_scan(
            data,
            Slots { sa: s.sa.update(p, (-1 - s.sa[p]) as i32), bptrs: s.bptrs },
            p + 1,
            n,
            wipe,
        )
    } else {
        fwd_scan(data, s, p + 1, n, wipe)
    }
}

/// The downward scan from slot `p - 1` on: for each suffix found, the
/// suffix before it goes to the tail of its bucket, and the entry found is
/// emptied if `wipe`; a complemented entry found is restored if `unflip`.
pub open spec fn bck_scan(data: Seq<int>, s: Slots, p: int, n: int, wipe: bool, unflip: bool) -> Option<
    Slots,
>
    decreases p,
{
    if p <= 0 || p > n {
        Some(s)
    } else if s.sa[p - 1] > 0 {
        if s.sa[p - 1] > n {
            None
        } else {
            match tail_pushed(
                s,
                data[s.sa[p - 1] - 1],
                marked(data, s.sa[p - 1] as int, false) as i32,
            ) {
                None => None,
                Some(s2) => bck_scan(
                    data,
                    if wipe {
                        Slots { sa: s2.sa.update(p - 1, 0i32), bptrs: s2.bptrs }
                    } else {
                        s2
                    },
                    p - 1,
                    n,
                    wipe,
                    unflip,
                ),
            }
        }
    } else if unflip && s.sa[p - 1] < 0 {
        bck_scan(
            data,
            Slots { sa: s.sa.update(p - 1, (-1 - s.sa[p - 1]) as i32), bptrs: s.bptrs },
            p - 1,
            n,
            wipe,
            unflip,
        )
    } else {
        bck_scan(data, s, p - 1, n, wipe, unflip)
    }
}

/// The forward pass: the cursors go to the heads of the buckets, the last
/// suffix is pushed, and the array is scanned upwards.
pub open spec fn fwd_pass(
    data: Seq<int>,
    sa: Seq<i32>,
    sigma: Seq<usize>,
    sizes: Seq<u32>,
    bptrs: Seq<u32>,
    wipe: bool,
) -> Option<Slots> {
    match heads(sigma, sizes, bptrs, 0, 0) {
        None => None,
        Some(h) => match head_pushed(
            Slots { sa, bptrs: h },
            data[sa.len() - 1],
            marked(data, sa.len() as int, true) as i32,
        ) {
            None => None,
            Some(s) => fwd_scan(data, s, 0, sa.len() as int, wipe),
        },
    }
}

/// The backward pass: the cursors go to the tails of the buckets, and the
/// array is scanned downwards.
pub open spec fn bck_pass(
    data: Seq<int>,
    sa: Seq<i32>,
    sigma: Seq<usize>,
    sizes: Seq<u32>,
    bptrs: Seq<u32>,
    wipe: bool,
    unflip: bool,
) -> Option<Slots> {
    match tails(sigma, sizes, bptrs, 0, 0) {
        None => None,
        Some(t) => bck_scan(data, Slots { sa, bptrs: t }, sa.len() as int, sa.len() as int, wipe, unflip),
    }
}

/// For each symbol its count and a cursor into its bucket of the suffix
/// array, and the symbols that occur, in rising order.
pub struct Buckets {
    pub sigma: Vec<usize>,
    pub sizes: Vec<u32>,
    pub bptrs: Vec<u32>,
}

impl Buckets {
    /// The counts and cursors are as many, and each symbol that occurs has
    /// one of each.
    pub open spec fn wf(&self) -> bool {
        &&& self.sizes@.len() == self.bptrs@.len()
        &&& forall|k: int| 0 <= k < self.sigma@.len() ==> #[trigger] self.sigma@[k] < self.sizes@.len()
    }

    /// The array `sa` with the cursors.
    pub open spec fn slots(&self, sa: Seq<i32>) -> Slots {
        Slots { sa, bptrs: self.bptrs@ }
    }

    /// Points each cursor at the first slot of its bucket.
    pub fn set_ptrs_to_bucket_heads(&mut self) -> (ok: bool)
        requires
            old(self).wf(),
        ensures
            final(self).wf(),
            final(self).sizes@ == old(self).sizes@,
            final(self).sigma@ == old(self).sigma@,
            ok == heads(old(self).sigma@, old(self).sizes@, old(self).bptrs@, 0, 0).is_some(),
            ok ==> Some(final(self).bptrs@) == heads(
                old(self).sigma@,
                old(self).sizes@,
                old(self).bptrs@,
                0,
                0,
            ),
    {
        let mut acc: u32 = 0;
        let mut k: usize = 0;
        let ghost goal = heads(self.sigma@, self.sizes@, self.bptrs@, 0, 0);
        while k < self.sigma.len()
            invariant
                self.wf(),
                self.sizes@ == old(self).sizes@,
                self.sigma@ == old(self).sigma@,
                k <= self.sigma@.len(),
                goal == heads(old(self).sigma@, old(self).sizes@, old(self).bptrs@, 0, 0),
                heads(self.sigma@, self.sizes@, self.bptrs@, k as int, acc as int) == goal,
            decreases self.sigma@.len() - k,
        {
            let w: usize = self.sigma[k];
            let size: u32 = self.sizes[w];
            if size > u32::MAX - acc {
                return false;
            }
            self.bptrs[w] = acc;
            acc += size;
            k += 1;
        }
        true
    }

    /// Points each cursor at the last slot of its bucket.
    pub fn set_ptrs_to_bucket_tails(&mut self) -> (ok: bool)
        requires
            old(self).wf(),
        ensures
            final(self).wf(),
            final(self).sizes@ == old(self).sizes@,
            final(self).sigma@ == old(self).sigma@,
            ok == tails(old(self).sigma@, old(self).sizes@, old(self).bptrs@, 0, 0).is_some(),
            ok ==> Some(final(self).bptrs@) == tails(
                old(self).sigma@,
                old(self).sizes@,
                old(self).bptrs@,
                0,
                0,
            ),
    {
        let mut acc: u32 = 0;
        let mut k: usize = 0;
        let ghost goal = tails(self.sigma@, self.sizes@, self.bptrs@, 0, 0);
        while k < self.sigma.len()
            invariant
                self.wf(),
                self.sizes@ == old(self).sizes@,
                self.sigma@ == old(self).sigma@,
                k <= self.sigma@.len(),
                goal == tails(old(self).sigma@, old(self).sizes@, old(self).bptrs@, 0, 0),
                tails(self.sigma@, self.sizes@, self.bptrs@, k as int, acc as int) == goal,
            decreases self.sigma@.len() - k,
        {
            let w: usize = self.sigma[k];
            let size: u32 = self.sizes[w];
            if size > u32::MAX - acc || acc + size == 0 {
                return false;
            }
            acc += size;
            self.bptrs[w] = acc - 1;
            k += 1;
        }
        true
    }

    /// Counts the symbols of `data` and lists those that occur; `None` if a
    /// symbol is not below `max_sigma_size`.
    pub fn build<W: Word>(data: &Vec<W>, max_sigma_size: usize) -> (r: Option<Buckets>)
        requires
            data@.len() <= IDX_MAX,
        ensures
            r.is_some() == (forall|j: int|
                0 <= j < data@.len() ==> (#[trigger] values(data@)[j]) < max_sigma_size),
            match r {
                Some(b) => {
                    &&& b.wf()
                    &&& b.sizes@.len() == max_sigma_size
                    &&& forall|c: int|
                        0 <= c < max_sigma_size ==> #[trigger] b.sizes@[c] == tally(
                            values(data@),
                            c,
                            data@.len() as int,
                        )
                    &&& b.sigma@ == present(b.sizes@, max_sigma_size as int)
                    &&& data@.len() > 0 ==> b.sigma@.len() >= 1
                    &&& forall|c: int| 0 <= c < max_sigma_size ==> #[trigger] b.bptrs@[c] == 0
                },
                None => true,
            },
    {
        let ghost vals = values(data@);
        let mut sizes: Vec<u32> = Vec::new();
        let mut bptrs: Vec<u32> = Vec::new();
        let mut w: usize = 0;
        while w < max_sigma_size
            invariant
                w <= max_sigma_size,
                sizes@.len() == w,
                bptrs@.len() == w,
                forall|c: int| 0 <= c < w ==> #[trigger] sizes@[c] == 0,
                forall|c: int| 0 <= c < w ==> #[trigger] bptrs@[c] == 0,
            decreases max_sigma_size - w,
        {
            sizes.push(0);
            bptrs.push(0);
            w += 1;
        }
        let n: usize = data.len();
        let mut j: usize = 0;
        while j < n
            invariant
                j <= n,
                n == data@.len(),
                n <= IDX_MAX,
                vals == values(data@),
                sizes@.len() == max_sigma_size,
                forall|i: int| 0 <= i < j ==> 0 <= (#[trigger] vals[i]) < max_sigma_size,
                forall|c: int|
                    0 <= c < max_sigma_size ==> #[trigger] sizes@[c] == tally(vals, c, j as int),
            decreases n - j,
        {
            let c: usize = data[j].as_usize();
            assert(vals[j as int] == c);
            if c >= max_sigma_size {
                return None;
            }
            let size: u32 = sizes[c];
            proof {
                lemma_tally_bound(vals, c as int, j as int);
            }
            sizes[c] = size + 1;
            j += 1;
        }
        let mut sigma: Vec<usize> = Vec::new();
        let mut w: usize = 0;
        while w < max_sigma_size
            invariant
                w <= max_sigma_size,
                sizes@.len() == max_sigma_size,
                sigma@ == present(sizes@, w as int),
                forall|k: int| 0 <= k < sigma@.len() ==> #[trigger] sigma@[k] < max_sigma_size,
            decreases max_sigma_size - w,
        {
            if sizes[w] != 0 {
                sigma.push(w);
            }
            w += 1;
        }
        proof {
            if n > 0 {
                lemma_tally_some(vals, 0, n as int);
                lemma_present(sizes@, max_sigma_size as int, vals[0]);
            }
        }
        Some(Buckets { sigma, sizes, bptrs })
    }
}

/// Writes `i` at the cursor of symbol `w` and moves the cursor down.
pub fn tail_push(sa: &mut Vec<i32>, buckets: &mut Buckets, w: usize, i: i32) -> (ok: bool)
    requires
        old(buckets).wf(),
    ensures
        final(buckets).wf(),
        final(buckets).sizes@ == old(buckets).sizes@,
        final(buckets).sigma@ == old(buckets).sigma@,
        final(sa)@.len() == old(sa)@.len(),
        ok == tail_pushed(old(buckets).slots(old(sa)@), w as int, i).is_some(),
        ok ==> Some(final(buckets).slots(final(sa)@)) == tail_pushed(
            old(buckets).slots(old(sa)@),
            w as int,
            i,
        ),
{
    if w >= buckets.bptrs.len() {
        return false;
    }
    let bptr: u32 = buckets.bptrs[w];
    if bptr as usize >= sa.len() {
        return false;
    }
    sa[bptr as usize] = i;
    buckets.bptrs[w] = if bptr == 0 {
        u32::MAX
    } else {
        bptr - 1
    };
    true
}

/// Writes `i` at the cursor of symbol `w` and moves the cursor up.
pub fn head_push(sa: &mut Vec<i32>, buckets: &mut Buckets, w: usize, i: i32) -> (ok: bool)
    requires
        old(buckets).wf(),
    ensures
        final(buckets).wf(),
        final(buckets).sizes@ == old(buckets).sizes@,
        final(buckets).sigma@ == old(buckets).sigma@,
        final(sa)@.len() == old(sa)@.len(),
        ok == head_pushed(old(buckets).slots(old(sa)@), w as int, i).is_some(),
        ok ==> Some(final(buckets).slots(final(sa)@)) == head_pushed(
            old(buckets).slots(old(sa)@),
            w as int,
            i,
        ),
{
    if w >= buckets.bptrs.len() {
        return false;
    }
    let bptr: u32 = buckets.bptrs[w];
    if bptr as usize >= sa.len() || bptr == u32::MAX {
        return false;
    }
    sa[bptr as usize] = i;
    buckets.bptrs[w] = bptr + 1;
    true
}

/// The index to push for the suffix before suffix `i`.
fn marked_before<W: Word>(data: &Vec<W>, i: i32, rising: bool) -> (r: i32)
    requires
        0 < i <= data@.len(),
    ensures
        r == marked(values(data@), i as int, rising),
{
    let i_sup: usize = (i - 1) as usize;
    let mark: bool = if i_sup == 0 {
        true
    } else {
        let a: usize = data[i_sup - 1].as_usize();
        let b: usize = data[i_sup].as_usize();
        assert(values(data@)[i_sup - 1] == a && values(data@)[i_sup as int] == b);
        if rising {
            a < b
        } else {
            a > b
        }
    };
    if mark {
        flip(i - 1)
    } else {
        i - 1
    }
}

/// Scans the array upwards: for each suffix found, the suffix before it
/// goes to the head of its bucket. Entries found are emptied if `wipe`,
/// else complemented; complemented entries found are restored.
pub fn induced_sort_fwd<W: Word>(
    data: &Vec<W>,
    sa: &mut Vec<i32>,
    buckets: &mut Buckets,
    wipe: bool,
) -> (ok: bool)
    requires
        old(buckets).wf(),
        2 <= data@.len() <= IDX_MAX,
        old(sa)@.len() == data@.len(),
    ensures
        final(buckets).wf(),
        final(buckets).sizes@ == old(buckets).sizes@,
        final(buckets).sigma@ == old(buckets).sigma@,
        final(sa)@.len() == old(sa)@.len(),
        ok == fwd_pass(
            values(data@),
            old(sa)@,
            old(buckets).sigma@,
            old(buckets).sizes@,
            old(buckets).bptrs@,
            wipe,
        ).is_some(),
        ok ==> Some(final(buckets).slots(final(sa)@)) == fwd_pass(
            values(data@),
            old(sa)@,
            old(buckets).sigma@,
            old(buckets).sizes@,
            old(buckets).bptrs@,
            wipe,
        ),
{
    let n: usize = sa.len();
    let ghost vals = values(data@);
    let ghost goal = fwd_pass(
        vals,
        sa@,
        buckets.sigma@,
        buckets.sizes@,
        buckets.bptrs@,
        wipe,
    );
    if !buckets.set_ptrs_to_bucket_heads() {
        return false;
    }
    let first: i32 = marked_before(data, n as i32, true);
    assert(vals[n - 1] == data@[n - 1].value());
    if !head_push(sa, buckets, data[n - 1].as_usize(), first) {
        return false;
    }
    let mut p: usize = 0;
    while p < n
        invariant
            p <= n,
            buckets.wf(),
            buckets.sizes@ == old(buckets).sizes@,
            buckets.sigma@ == old(buckets).sigma@,
            sa@.len() == n,
            sa@.len() == old(sa)@.len(),
            n == data@.len(),
            2 <= n <= IDX_MAX,
            vals == values(data@),
            goal == fwd_pass(
                vals,
                old(sa)@,
                old(buckets).sigma@,
                old(buckets).sizes@,
                old(buckets).bptrs@,
                wipe,
            ),
            fwd_scan(vals, buckets.slots(sa@), p as int, n as int, wipe) == goal,
        decreases n - p,
    {
        let i: i32 = sa[p];
        if i > 0 {
            if i as usize > n {
                return false;
            }
            let push_idx: i32 = marked_before(data, i, true);
            assert(vals[i - 1] == data@[i - 1].value());
            if !head_push(sa, buckets, data[(i - 1) as usize].as_usize(), push_idx) {
                return false;
            }
            sa[p] = if wipe {
                0
            } else {
                flip(sa[p])
            };
        } else if i < 0 {
            sa[p] = flip(i);
        }
        p += 1;
    }
    true
}

/// Scans the array downwards: for each suffix found, the suffix before it
/// goes to the tail of its bucket. Entries found are emptied if `wipe`;
/// complemented entries found are restored if `unflip`.
pub fn induced_sort_bck<W: Word>(
    data: &Vec<W>,
    sa: &mut Vec<i32>,
    buckets: &mut Buckets,
    wipe: bool,
    unflip: bool,
) -> (ok: bool)
    requires
        old(buckets).wf(),
        2 <= data@.len() <= IDX_MAX,
        old(sa)@.len() == data@.len(),
    ensures
        final(buckets).wf(),
        final(buckets).sizes@ == old(buckets).sizes@,
        final(buckets).sigma@ == old(buckets).sigma@,
        final(sa)@.len() == old(sa)@.len(),
        ok == bck_pass(
            values(data@),
            old(sa)@,
            old(buckets).sigma@,
            old(buckets).sizes@,
            old(buckets).bptrs@,
            wipe,
            unflip,
        ).is_some(),
        ok ==> Some(final(buckets).slots(final(sa)@)) == bck_pass(
            values(data@),
            old(sa)@,
            old(buckets).sigma@,
            old(buckets).sizes@,
            old(buckets).bptrs@,
            wipe,
            unflip,
        ),
{
    let n: usize = data.len();
    let ghost vals = values(data@);
    let ghost goal = bck_pass(
        vals,
        sa@,
        buckets.sigma@,
        buckets.sizes@,
        buckets.bptrs@,
        wipe,
        unflip,
    );
    if !buckets.set_ptrs_to_bucket_tails() {
        return false;
    }
    let mut p: usize = n;
    while p > 0
        invariant
            p <= n,
            buckets.wf(),
            buckets.sizes@ == old(buckets).sizes@,
            buckets.sigma@ == old(buckets).sigma@,
            sa@.len() == n,
            sa@.len() == old(sa)@.len(),
            n == data@.len(),
            2 <= n <= IDX_MAX,
            vals == values(data@),
            goal == bck_pass(
                vals,
                old(sa)@,
                old(buckets).sigma@,
                old(buckets).sizes@,
                old(buckets).bptrs@,
                wipe,
                unflip,
            ),
            bck_scan(vals, buckets.slots(sa@), p as int, n as int, wipe, unflip) == goal,
        decreases p,
    {
        p -= 1;
        let i: i32 = sa[p];
        if i > 0 {
            if i as usize > n {
                return false;
            }
            let push_idx: i32 = marked_before(data, i, false);
            assert(vals[i - 1] == data@[i - 1].value());
            if !tail_push(sa, buckets, data[(i - 1) as usize].as_usize(), push_idx) {
                return false;
            }
            if wipe {
                sa[p] = 0;
            }
        } else if unflip && i < 0 {
            sa[p] = flip(i);
        }
    }
    true
}

/// Whether the suffix at `j` is less than the one after it: its symbol is
/// less than the next, or the same and that suffix is less than its next.
/// The last suffix is not.
pub open spec fn is_s(data: Seq<int>, j: int) -> bool
    decreases data.len() - j,
{
    if j < 0 || j >= data.len() - 1 {
        false
    } else if data[j] != data[j + 1] {
        data[j] < data[j + 1]
    } else {
        is_s(data, j + 1)
    }
}

/// Whether a rising stretch starts at `i` after a falling one.
pub open spec fn is_lms(data: Seq<int>, i: int) -> bool {
    i >= 1 && is_s(data, i) && !is_s(data, i - 1)
}

/// How many rising stretches start, after a falling one, at `i` or before.
pub open spec fn lms_total(data: Seq<int>, i: int) -> int
    decreases i,
{
    if i < 1 {
        0
    } else {
        lms_total(data, i - 1) + if is_lms(data, i) {
            1int
        } else {
            0int
        }
    }
}

/// Rising stretches start at most once per place.
pub proof fn lemma_lms_total(data: Seq<int>, i: int)
    ensures
        0 <= lms_total(data, i),
        i >= 0 ==> lms_total(data, i) <= i,
    decreases i,
{
    if i >= 1 {
        lemma_lms_total(data, i - 1);
    }
}

/// The walk down the string from `i`: each start of a rising stretch is
/// pushed to the tail of the bucket of its symbol.
pub open spec fn placed(data: Seq<int>, s: Slots, i: int) -> Option<Slots>
    decreases i,
{
    if i < 1 {
        Some(s)
    } else if is_lms(data, i) {
        match tail_pushed(s, data[i], i as i32) {
            None => None,
            Some(s2) => placed(data, s2, i - 1),
        }
    } else {
        placed(data, s, i - 1)
    }
}

/// The scan from slot `p` on that gathers the complemented entries below
/// minus one, restored, at the front, `count` of them being there already,
/// and marks every slot behind them empty.
pub open spec fn gathered(sa: Seq<i32>, p: int, count: int, n: int) -> (Seq<i32>, int)
    decreases n - p,
{
    if p < 0 || p >= n {
        (sa, count)
    } else {
        let sa1 = if sa[p] < -1 {
            sa.update(count, (-1 - sa[p]) as i32)
        } else {
            sa
        };
        let c1 = if sa[p] < -1 {
            count + 1
        } else {
            count
        };
        gathered(
            if p >= c1 {
                sa1.update(p, IDX_MAX)
            } else {
                sa1
            },
            p + 1,
            c1,
            n,
        )
    }
}

/// The walk down the string from `i` that writes, for each start of a
/// rising stretch, the length of its stretch up to the start after it,
/// `last`, into the slot that half its index picks behind the `count`
/// gathered entries; it ends when `unseen` starts have been seen.
pub open spec fn measured(
    data: Seq<int>,
    sa: Seq<i32>,
    count: int,
    i: int,
    last: int,
    unseen: int,
) -> Option<Seq<i32>>
    decreases i,
{
    if i < 1 || unseen <= 0 {
        Some(sa)
    } else if is_lms(data, i) {
        if count + i / 2 >= sa.len() {
            None
        } else {
            measured(
                data,
                sa.update(count + i / 2, (1 + last - i) as i32),
                count,
                i - 1,
                i,
                unseen - 1,
            )
        }
    } else {
        measured(data, sa, count, i - 1, last, unseen)
    }
}

/// Whether the stretch of length `len` at `cur` equals the one before,
/// at `prv` with length `prv_len`; `None` if a stretch leaves the string.
pub open spec fn same_stretch(data: Seq<int>, prv: int, prv_len: int, cur: int, len: int) -> Option<
    bool,
> {
    let n = data.len() as int;
    if prv != 0 && prv_len == len && len <= n && prv_len < n - len {
        if prv > n - prv_len || cur > n - len {
            None
        } else {
            Some(data.subrange(prv, prv + prv_len) == data.subrange(cur, cur + prv_len))
        }
    } else {
        Some(false)
    }
}

/// The scan over the gathered entries from `k` on that replaces the length
/// of each stretch by its name: the number of stretches before it that
/// differ from their predecessor.
pub open spec fn named(
    data: Seq<int>,
    sa: Seq<i32>,
    count: int,
    k: int,
    rword: int,
    prv: int,
    prv_len: int,
) -> Option<(Seq<i32>, int)>
    decreases count - k,
{
    if k < 0 || k >= count {
        Some((sa, rword))
    } else if sa[k] < 0 || count + sa[k] / 2 >= sa.len() || sa[count + sa[k] / 2] < 0 {
        None
    } else {
        let cur = sa[k] as int;
        let slot = count + cur / 2;
        let len = sa[slot] as int;
        match same_stretch(data, prv, prv_len, cur, len) {
            None => None,
            Some(eq) => {
                let rword2 = if !eq && prv != 0 {
                    rword + 1
                } else {
                    rword
                };
                named(
                    data,
                    sa.update(slot, rword2 as i32),
                    count,
                    k + 1,
                    rword2,
                    if eq {
                        prv
                    } else {
                        cur
                    },
                    if eq {
                        prv_len
                    } else {
                        len
                    },
                )
            },
        }
    }
}

/// The scan from slot `p - 1` down to slot `count` that moves every entry
/// which is not marked empty to the end of the array, below `write_ptr`.
pub open spec fn packed(sa: Seq<i32>, count: int, p: int, write_ptr: int) -> Option<Seq<i32>>
    decreases p,
{
    if p <= count || p <= 0 || p > sa.len() {
        Some(sa)
    } else if sa[p - 1] != IDX_MAX {
        if write_ptr <= 0 {
            None
        } else {
            packed(sa.update(write_ptr - 1, sa[p - 1]), count, p - 1, write_ptr - 1)
        }
    } else {
        packed(sa, count, p - 1, write_ptr)
    }
}

/// The reduced string: the array after the stretches were gathered,
/// measured and named and the names packed, the number of stretches, and
/// the number of names.
pub open spec fn reduced(data: Seq<int>, sa: Seq<i32>) -> Option<(Seq<i32>, int, int)> {
    let n = data.len() as int;
    let g = gathered(sa, 0, 0, n);
    if g.1 == 0 || g.1 > n / 2 {
        None
    } else {
        match measured(data, g.0, g.1, n - 1, n - 1, g.1) {
            None => None,
            Some(m) => match named(data, m, g.1, 0, 0, 0, 0) {
                None => None,
                Some(nm) => match packed(nm.0, g.1, n, n) {
                    None => None,
                    Some(pk) => Some((pk, g.1, nm.1 + 1)),
                },
            },
        }
    }
}

/// Whether the `len` symbols from `a` equal those from `b`.
fn substrings_equal<W: Word>(data: &Vec<W>, a: usize, b: usize, len: usize) -> (eq: bool)
    requires
        a + len <= data@.len(),
        b + len <= data@.len(),
    ensures
        eq == (values(data@).subrange(a as int, a + len) == values(data@).subrange(
            b as int,
            b + len,
        )),
{
    let n: usize = data.len();
    let ghost vals = values(data@);
    let ghost left = vals.subrange(a as int, a + len);
    let ghost right = vals.subrange(b as int, b + len);
    let mut k: usize = 0;
    while k < len
        invariant
            k <= len,
            n == data@.len(),
            vals == values(data@),
            a + len <= n,
            b + len <= n,
            left == vals.subrange(a as int, a + len),
            right == vals.subrange(b as int, b + len),
            forall|j: int| 0 <= j < k ==> #[trigger] left[j] == right[j],
        decreases len - k,
    {
        assert(left[k as int] == data@[a + k].value() && right[k as int] == data@[b + k].value());
        if data[a + k].as_usize() != data[b + k].as_usize() {
            return false;
        }
        k += 1;
    }
    assert(left =~= right);
    true
}

/// Turns the sorted stretches, which the passes left complemented, into
/// the reduced string: the stretches are gathered at the front, each gets
/// the number of different stretches before it as its name, and the names
/// go to the end of the array in text order. Returns the number of
/// stretches and the number of names.
pub fn encode_reduced<W: Word>(data: &Vec<W>, sa: &mut Vec<i32>) -> (r: Option<(usize, usize)>)
    requires
        2 <= data@.len() <= IDX_MAX,
        old(sa)@.len() == data@.len(),
    ensures
        final(sa)@.len() == old(sa)@.len(),
        r.is_some() == reduced(values(data@), old(sa)@).is_some(),
        match r {
            Some((lms_count, new_sigma)) => {
                &&& 1 <= lms_count <= data@.len() / 2
                &&& new_sigma <= lms_count
                &&& reduced(values(data@), old(sa)@) == Some(
                    (final(sa)@, lms_count as int, new_sigma as int),
                )
            },
            None => true,
        },
{
    let n: usize = data.len();
    let ghost vals = values(data@);
    let ghost start = sa@;
    let ghost g = gathered(start, 0, 0, n as int);
    let mut lms_count: usize = 0;
    let mut p: usize = 0;
    while p < n
        invariant
            p <= n,
            lms_count <= p,
            sa@.len() == n,
            sa@.len() == old(sa)@.len(),
            n == data@.len(),
            gathered(sa@, p as int, lms_count as int, n as int) == g,
        decreases n - p,
    {
        let v: i32 = sa[p];
        if v < -1 {
            sa[lms_count] = flip(v);
            lms_count += 1;
        }
        if p >= lms_count {
            sa[p] = IDX_MAX;
        }
        p += 1;
    }
    assert(g == (sa@, lms_count as int));
    if lms_count == 0 || lms_count > n / 2 {
        return None;
    }
    // The length of each stretch goes to the slot that its index picks.

    let ghost m_goal = measured(vals, sa@, lms_count as int, n - 1, n - 1, lms_count as int);
    let mut rising: bool = false;
    let mut unseen_lms: usize = lms_count;
    let mut last_lms: usize = n - 1;
    let mut j: usize = n - 1;
    while j > 0 && unseen_lms > 0
        invariant
            j < n,
            j < last_lms || (j == last_lms && last_lms == n - 1),
            last_lms < n,
            1 <= lms_count <= n / 2,
            sa@.len() == n,
            sa@.len() == old(sa)@.len(),
            n == data@.len(),
            2 <= n <= IDX_MAX,
            vals == values(data@),
            start == old(sa)@,
            g == gathered(start, 0, 0, n as int),
            g.1 == lms_count,
            m_goal == measured(vals, g.0, lms_count as int, n - 1, n - 1, lms_count as int),
            rising == is_s(vals, j as int),
            measured(vals, sa@, lms_count as int, j as int, last_lms as int, unseen_lms as int)
                == m_goal,
        decreases j,
    {
        j -= 1;
        let i_sub: usize = j + 1;
        let w: usize = data[j].as_usize();
        let w_sub: usize = data[i_sub].as_usize();
        assert(vals[j as int] == w && vals[i_sub as int] == w_sub);
        if !rising {
            if w < w_sub {
                rising = true;
            }
        } else if w > w_sub {
            let slot: usize = lms_count + i_sub / 2;
            if slot >= n {
                return None;
            }
            sa[slot] = (1 + last_lms - i_sub) as i32;
            last_lms = i_sub;
            unseen_lms -= 1;
            rising = false;
        }
    }
    assert(m_goal == Some(sa@));
    // Each length gives way to the name.

    let ghost measured_sa = sa@;
    let ghost n_goal = named(vals, sa@, lms_count as int, 0, 0, 0, 0);
    let mut rword: usize = 0;
    let mut prv_lms: usize = 0;
    let mut prv_lms_len: usize = 0;
    let mut k: usize = 0;
    while k < lms_count
        invariant
            k <= lms_count <= n / 2,
            1 <= lms_count,
            rword <= k,
            k > 0 ==> rword < k,
            k == 0 ==> prv_lms == 0,
            sa@.len() == n,
            sa@.len() == old(sa)@.len(),
            n == data@.len(),
            2 <= n <= IDX_MAX,
            vals == values(data@),
            start == old(sa)@,
            g == gathered(start, 0, 0, n as int),
            g.1 == lms_count,
            measured(vals, g.0, lms_count as int, n - 1, n - 1, lms_count as int) == Some(
                measured_sa,
            ),
            n_goal == named(vals, measured_sa, lms_count as int, 0, 0, 0, 0),
            named(
                vals,
                sa@,
                lms_count as int,
                k as int,
                rword as int,
                prv_lms as int,
                prv_lms_len as int,
            ) == n_goal,
        decreases lms_count - k,
    {
        let cur: i32 = sa[k];
        if cur < 0 {
            return None;
        }
        let cur_lms: usize = cur as usize;
        let slot: usize = lms_count + cur_lms / 2;
        if slot >= n {
            return None;
        }
        let len: i32 = sa[slot];
        if len < 0 {
            return None;
        }
        let cur_lms_len: usize = len as usize;
        let eq: bool = if prv_lms != 0 && prv_lms_len == cur_lms_len && cur_lms_len <= n
            && prv_lms_len < n - cur_lms_len {
            if prv_lms > n - prv_lms_len || cur_lms > n - cur_lms_len {
                return None;
            }
            substrings_equal(data, prv_lms, cur_lms, prv_lms_len)
        } else {
            false
        };
        assert(Some(eq) == same_stretch(
            vals,
            prv_lms as int,
            prv_lms_len as int,
            cur_lms as int,
            cur_lms_len as int,
        ));
        if !eq {
            if prv_lms != 0 {
                rword += 1;
            }
            prv_lms = cur_lms;
            prv_lms_len = cur_lms_len;
        }
        sa[slot] = rword as i32;
        k += 1;
    }
    assert(n_goal == Some((sa@, rword as int)));
    // The names move to the end.

    let ghost named_sa = sa@;
    let ghost p_goal = packed(sa@, lms_count as int, n as int, n as int);
    let mut write_ptr: usize = n;
    let mut p: usize = n;
    while p > lms_count
        invariant
            lms_count <= p <= n,
            1 <= lms_count <= n / 2,
            write_ptr <= n,
            sa@.len() == n,
            sa@.len() == old(sa)@.len(),
            n == data@.len(),
            vals == values(data@),
            start == old(sa)@,
            g == gathered(start, 0, 0, n as int),
            g.1 == lms_count,
            measured(vals, g.0, lms_count as int, n - 1, n - 1, lms_count as int) == Some(
                measured_sa,
            ),
            named(vals, measured_sa, lms_count as int, 0, 0, 0, 0) == Some(
                (named_sa, rword as int),
            ),
            p_goal == packed(named_sa, lms_count as int, n as int, n as int),
            packed(sa@, lms_count as int, p as int, write_ptr as int) == p_goal,
        decreases p,
    {
        p -= 1;
        let v: i32 = sa[p];
        if v != IDX_MAX {
            if write_ptr == 0 {
                return None;
            }
            write_ptr -= 1;
            sa[write_ptr] = v;
        }
    }
    Some((lms_count, rword + 1))
}

/// The walk down the string from `i` that lists the starts of the rising
/// stretches at the end of the array, below `write_ptr`.
pub open spec fn listed(data: Seq<int>, sa: Seq<i32>, i: int, write_ptr: int) -> Option<Seq<i32>>
    decreases i,
{
    if i < 1 {
        Some(sa)
    } else if is_lms(data, i) {
        if write_ptr <= 0 || write_ptr > sa.len() {
            None
        } else {
            listed(data, sa.update(write_ptr - 1, i as i32), i - 1, write_ptr - 1)
        }
    } else {
        listed(data, sa, i - 1, write_ptr)
    }
}

/// The scan over the first `count` slots from `p` on in which each reduced
/// suffix picks its start from the list at the end.
pub open spec fn picked(sa: Seq<i32>, count: int, p: int) -> Option<Seq<i32>>
    decreases count - p,
{
    if p < 0 || p >= count {
        Some(sa)
    } else if sa[p] < 0 || sa[p] >= count {
        None
    } else {
        picked(sa.update(p, sa[sa.len() - count + sa[p]]), count, p + 1)
    }
}

/// The sorted starts: the array after the starts were listed and picked
/// and the slots behind the first `count` emptied.
pub open spec fn decoded(data: Seq<int>, sa: Seq<i32>, count: int) -> Option<Seq<i32>> {
    let n = data.len() as int;
    match listed(data, sa, n - 1, n) {
        None => None,
        Some(l) => match picked(l, count, 0) {
            None => None,
            Some(pk) => Some(
                Seq::new(
                    n as nat,
                    |q: int|
                        if q < count {
                            pk[q]
                        } else {
                            0i32
                        },
                ),
            ),
        },
    }
}

/// Turns the sorted reduced suffixes at the front of the array into the
/// sorted starts of the rising stretches: the starts are listed at the end
/// in text order, each reduced suffix picks its start, and the rest is
/// emptied.
pub fn decode_reduced<W: Word>(data: &Vec<W>, sa: &mut Vec<i32>, lms_count: usize) -> (ok: bool)
    requires
        2 <= data@.len() <= IDX_MAX,
        old(sa)@.len() == data@.len(),
        lms_count <= data@.len() / 2,
    ensures
        final(sa)@.len() == old(sa)@.len(),
        ok == decoded(values(data@), old(sa)@, lms_count as int).is_some(),
        ok ==> decoded(values(data@), old(sa)@, lms_count as int) == Some(final(sa)@),
{
    let n: usize = data.len();
    let ghost vals = values(data@);
    let ghost l_goal = listed(vals, sa@, n - 1, n as int);
    let mut write_ptr: usize = n;
    let mut rising: bool = false;
    let mut j: usize = n - 1;
    while j > 0
        invariant
            j < n,
            write_ptr <= n,
            sa@.len() == n,
            sa@.len() == old(sa)@.len(),
            n == data@.len(),
            2 <= n <= IDX_MAX,
            vals == values(data@),
            l_goal == listed(vals, old(sa)@, n - 1, n as int),
            rising == is_s(vals, j as int),
            listed(vals, sa@, j as int, write_ptr as int) == l_goal,
        decreases j,
    {
        j -= 1;
        let i_sub: usize = j + 1;
        let w: usize = data[j].as_usize();
        let w_sub: usize = data[i_sub].as_usize();
        assert(vals[j as int] == w && vals[i_sub as int] == w_sub);
        if !rising {
            if w < w_sub {
                rising = true;
            }
        } else if w > w_sub {
            if write_ptr == 0 {
                return false;
            }
            write_ptr -= 1;
            sa[write_ptr] = i_sub as i32;
            rising = false;
        }
    }
    assert(l_goal == Some(sa@));
    let ghost listed_sa = sa@;
    let ghost k_goal = picked(sa@, lms_count as int, 0);
    let mut p: usize = 0;
    while p < lms_count
        invariant
            p <= lms_count <= n / 2,
            sa@.len() == n,
            sa@.len() == old(sa)@.len(),
            n == data@.len(),
            vals == values(data@),
            listed(vals, old(sa)@, n - 1, n as int) == Some(listed_sa),
            k_goal == picked(listed_sa, lms_count as int, 0),
            picked(sa@, lms_count as int, p as int) == k_goal,
        decreases lms_count - p,
    {
        let r: i32 = sa[p];
        if r < 0 || r as usize >= lms_count {
            return false;
        }
        sa[p] = sa[n - lms_count + r as usize];
        p += 1;
    }
    assert(k_goal == Some(sa@));
    let ghost picked_sa = sa@;
    let mut p: usize = lms_count;
    while p < n
        invariant
            lms_count <= p <= n,
            sa@.len() == n,
            sa@.len() == old(sa)@.len(),
            n == data@.len(),
            forall|q: int| 0 <= q < lms_count ==> sa@[q] == picked_sa[q],
            forall|q: int| lms_count <= q < p ==> sa@[q] == 0,
        decreases n - p,
    {
        sa[p] = 0;
        p += 1;
    }
    proof {
        assert(sa@ =~= Seq::new(
            n as nat,
            |q: int|
                if q < lms_count {
                    picked_sa[q]
                } else {
                    0i32
                },
        ));
    }
    true
}

/// What is left to sort after the starts of the rising stretches have been
/// named: how many there are, how many names, and whether two share a name.
pub struct Reduced {
    pub lms_count: usize,
    pub new_sigma_size: usize,
    pub shared: bool,
}

/// The array and cursors after the starts of the rising stretches were
/// placed and, if they are two or more, sorted as far as their stretches
/// differ and named; with the number of starts and of names.
pub open spec fn reduction(
    data: Seq<int>,
    sa: Seq<i32>,
    sigma: Seq<usize>,
    sizes: Seq<u32>,
    bptrs: Seq<u32>,
) -> Option<(Slots, int, int)> {
    let n = data.len() as int;
    match tails(sigma, sizes, bptrs, 0, 0) {
        None => None,
        Some(t) => match placed(data, Slots { sa, bptrs: t }, n - 1) {
            None => None,
            Some(s1) => {
                let count = lms_total(data, n - 1);
                if count > n / 2 {
                    None
                } else if count <= 1 {
                    Some((s1, count, count))
                } else {
                    match fwd_pass(data, s1.sa, sigma, sizes, s1.bptrs, true) {
                        None => None,
                        Some(s2) => match bck_pass(
                            data,
                            s2.sa,
                            sigma,
                            sizes,
                            s2.bptrs,
                            true,
                            false,
                        ) {
                            None => None,
                            Some(s3) => match reduced(data, s3.sa) {
                                None => None,
                                Some(r) => if r.1 < 2 {
                                    None
                                } else {
                                    Some((Slots { sa: r.0, bptrs: s3.bptrs }, r.1, r.2))
                                },
                            },
                        },
                    }
                }
            },
        },
    }
}

/// Puts the starts of the rising stretches that follow a falling one into
/// their buckets and, if there are two or more, sorts them as far as their
/// stretches differ and names them.
pub fn reduce<W: Word>(data: &Vec<W>, sa: &mut Vec<i32>, buckets: &mut Buckets) -> (r: Option<
    Reduced,
>)
    requires
        old(buckets).wf(),
        2 <= data@.len() <= IDX_MAX,
        old(sa)@.len() == data@.len(),
    ensures
        final(buckets).wf(),
        final(buckets).sizes@ == old(buckets).sizes@,
        final(buckets).sigma@ == old(buckets).sigma@,
        final(sa)@.len() == old(sa)@.len(),
        r.is_some() == reduction(
            values(data@),
            old(sa)@,
            old(buckets).sigma@,
            old(buckets).sizes@,
            old(buckets).bptrs@,
        ).is_some(),
        match r {
            Some(red) => {
                &&& red.lms_count <= data@.len() / 2
                &&& red.shared == (red.new_sigma_size != red.lms_count)
                &&& red.shared ==> red.lms_count >= 2
                &&& reduction(
                    values(data@),
                    old(sa)@,
                    old(buckets).sigma@,
                    old(buckets).sizes@,
                    old(buckets).bptrs@,
                ) == Some(
                    (
                        final(buckets).slots(final(sa)@),
                        red.lms_count as int,
                        red.new_sigma_size as int,
                    ),
                )
            },
            None => true,
        },
{
    let n: usize = data.len();
    let ghost vals = values(data@);
    let ghost whole = reduction(vals, sa@, buckets.sigma@, buckets.sizes@, buckets.bptrs@);
    if !buckets.set_ptrs_to_bucket_tails() {
        return None;
    }
    let ghost goal = placed(vals, buckets.slots(sa@), n - 1);
    let mut lms_count: usize = 0;
    let mut rising: bool = false;
    let mut j: usize = n - 1;
    proof {
        lemma_lms_total(vals, n - 1);
    }
    while j > 0
        invariant
            j < n,
            lms_count + lms_total(vals, j as int) == lms_total(vals, n - 1),
            lms_total(vals, n - 1) <= n - 1,
            buckets.wf(),
            buckets.sizes@ == old(buckets).sizes@,
            buckets.sigma@ == old(buckets).sigma@,
            sa@.len() == n,
            sa@.len() == old(sa)@.len(),
            n == data@.len(),
            2 <= n <= IDX_MAX,
            vals == values(data@),
            whole == reduction(
                vals,
                old(sa)@,
                old(buckets).sigma@,
                old(buckets).sizes@,
                old(buckets).bptrs@,
            ),
            tails(old(buckets).sigma@, old(buckets).sizes@, old(buckets).bptrs@, 0, 0).is_some(),
            goal == placed(
                vals,
                Slots {
                    sa: old(sa)@,
                    bptrs: tails(
                        old(buckets).sigma@,
                        old(buckets).sizes@,
                        old(buckets).bptrs@,
                        0,
                        0,
                    ).unwrap(),
                },
                n - 1,
            ),
            rising == is_s(vals, j as int),
            placed(vals, buckets.slots(sa@), j as int) == goal,
        decreases j,
    {
        proof {
            lemma_lms_total(vals, j - 1);
        }
        j -= 1;
        let i_sub: usize = j + 1;
        let w: usize = data[j].as_usize();
        let w_sub: usize = data[i_sub].as_usize();
        assert(vals[j as int] == w && vals[i_sub as int] == w_sub);
        if !rising {
            if w < w_sub {
                rising = true;
            }
        } else if w > w_sub {
            if !tail_push(sa, buckets, w_sub, i_sub as i32) {
                return None;
            }
            lms_count += 1;
            rising = false;
        }
    }
    assert(goal == Some(buckets.slots(sa@)));
    assert(lms_count == lms_total(vals, n - 1));
    if lms_count > n / 2 {
        return None;
    }
    if lms_count <= 1 {
        return Some(Reduced { lms_count, new_sigma_size: lms_count, shared: false });
    }
    if !induced_sort_fwd(data, sa, buckets, true) {
        return None;
    }
    if !induced_sort_bck(data, sa, buckets, true, false) {
        return None;
    }
    let reduced: (usize, usize) = match encode_reduced(data, sa) {
        Some(r) => r,
        None => {
            return None;
        },
    };
    if reduced.0 < 2 {
        return None;
    }
    Some(Reduced { lms_count: reduced.0, new_sigma_size: reduced.1, shared: reduced.1 != reduced.0 })
}

/// The reduced string, read from the end of the array.
pub open spec fn reduced_string(sa: Seq<i32>, count: int) -> Seq<int> {
    Seq::new(count as nat, |p: int| sa[sa.len() - count + p] as int)
}

/// The array with its first `count` slots emptied.
pub open spec fn cleared(sa: Seq<i32>, count: int) -> Seq<i32> {
    Seq::new(
        sa.len(),
        |q: int|
            if q < count {
                0i32
            } else {
                sa[q]
            },
    )
}

/// An empty array of length `count`.
pub open spec fn empty_slots(count: int) -> Seq<i32> {
    Seq::new(count as nat, |q: int| 0i32)
}

/// The reduced string, read from the end of the array, and an empty array
/// for its suffixes; the front of the array is emptied. `None` if a name
/// is negative.
pub fn reduced_problem(sa: &mut Vec<i32>, lms_count: usize) -> (r: Option<(Vec<u32>, Vec<i32>)>)
    requires
        lms_count <= old(sa)@.len() / 2,
    ensures
        final(sa)@.len() == old(sa)@.len(),
        r.is_some() == (forall|p: int|
            0 <= p < lms_count ==> #[trigger] reduced_string(old(sa)@, lms_count as int)[p] >= 0),
        match r {
            Some((rdata, rsa)) => {
                &&& rdata@.len() == lms_count
                &&& rsa@.len() == lms_count
                &&& values(rdata@) == reduced_string(old(sa)@, lms_count as int)
                &&& rsa@ == empty_slots(lms_count as int)
                &&& final(sa)@ == cleared(old(sa)@, lms_count as int)
            },
            None => true,
        },
{
    let n: usize = sa.len();
    let ghost want = reduced_string(sa@, lms_count as int);
    let mut rdata: Vec<u32> = Vec::new();
    let mut rsa: Vec<i32> = Vec::new();
    let mut p: usize = 0;
    while p < lms_count
        invariant
            p <= lms_count <= n / 2,
            sa@.len() == n,
            sa@.len() == old(sa)@.len(),
            want == reduced_string(old(sa)@, lms_count as int),
            rdata@.len() == p,
            rsa@.len() == p,
            forall|q: int| 0 <= q < p ==> #[trigger] want[q] >= 0,
            forall|q: int| 0 <= q < p ==> #[trigger] rdata@[q] == want[q],
            forall|q: int| 0 <= q < p ==> #[trigger] rsa@[q] == 0,
            forall|q: int| 0 <= q < p ==> #[trigger] sa@[q] == 0,
            forall|q: int| p <= q < n ==> #[trigger] sa@[q] == old(sa)@[q],
        decreases lms_count - p,
    {
        let name: i32 = sa[n - lms_count + p];
        assert(want[p as int] == name);
        if name < 0 {
            return None;
        }
        rdata.push(name as u32);
        rsa.push(0);
        sa[p] = 0;
        p += 1;
    }
    proof {
        assert(values(rdata@) =~= want);
        assert(rsa@ =~= empty_slots(lms_count as int));
        assert(sa@ =~= cleared(old(sa)@, lms_count as int));
    }
    Some((rdata, rsa))
}

/// The scan over the reduced string from `p` on in which each name, being
/// the rank of its suffix, says where the suffix goes.
pub open spec fn ranked_by_name(sa: Seq<i32>, count: int, p: int) -> Option<Seq<i32>>
    decreases count - p,
{
    if p < 0 || p >= count {
        Some(sa)
    } else if sa[sa.len() - count + p] < 0 || sa[sa.len() - count + p] >= sa.len() {
        None
    } else {
        ranked_by_name(sa.update(sa[sa.len() - count + p] as int, p as i32), count, p + 1)
    }
}

/// Sorts the reduced suffixes when no two share a name: each name is the
/// rank of its suffix.
pub fn rank_by_name(sa: &mut Vec<i32>, lms_count: usize) -> (ok: bool)
    requires
        lms_count <= old(sa)@.len() / 2,
        old(sa)@.len() <= IDX_MAX,
    ensures
        final(sa)@.len() == old(sa)@.len(),
        ok == ranked_by_name(old(sa)@, lms_count as int, 0).is_some(),
        ok ==> ranked_by_name(old(sa)@, lms_count as int, 0) == Some(final(sa)@),
{
    let n: usize = sa.len();
    let ghost goal = ranked_by_name(sa@, lms_count as int, 0);
    let mut p: usize = 0;
    while p < lms_count
        invariant
            p <= lms_count <= n / 2,
            n <= IDX_MAX,
            sa@.len() == n,
            sa@.len() == old(sa)@.len(),
            goal == ranked_by_name(old(sa)@, lms_count as int, 0),
            ranked_by_name(sa@, lms_count as int, p as int) == goal,
        decreases lms_count - p,
    {
        let w_rank: i32 = sa[n - lms_count + p];
        if w_rank < 0 || w_rank as usize >= n {
            return false;
        }
        sa[w_rank as usize] = p as i32;
        p += 1;
    }
    true
}

/// The array with `solved` at its front.
pub open spec fn fronted(sa: Seq<i32>, solved: Seq<i32>) -> Seq<i32> {
    Seq::new(
        sa.len(),
        |q: int|
            if q < solved.len() {
                solved[q]
            } else {
                sa[q]
            },
    )
}

/// The scan from slot `p - 1` down that takes each sorted start out of the
/// front of the array and pushes it to the tail of the bucket of its
/// symbol.
pub open spec fn spaced(data: Seq<int>, s: Slots, p: int) -> Option<Slots>
    decreases p,
{
    if p <= 0 {
        Some(s)
    } else if s.sa[p - 1] < 0 || s.sa[p - 1] >= data.len() {
        None
    } else {
        match tail_pushed(
            Slots { sa: s.sa.update(p - 1, 0i32), bptrs: s.bptrs },
            data[s.sa[p - 1] as int],
            s.sa[p - 1],
        ) {
            None => None,
            Some(s2) => spaced(data, s2, p - 1),
        }
    }
}

/// The starts of the rising stretches in their buckets in sorted order:
/// with two or more starts, the sorted reduced suffixes at the front,
/// `solved` if it is given, are decoded and spaced out.
pub open spec fn seeded(
    data: Seq<int>,
    sa: Seq<i32>,
    sigma: Seq<usize>,
    sizes: Seq<u32>,
    bptrs: Seq<u32>,
    count: int,
    solved: Option<Seq<i32>>,
) -> Option<Slots> {
    if count <= 1 {
        Some(Slots { sa, bptrs })
    } else if solved.is_some() && solved.unwrap().len() != count {
        None
    } else {
        match decoded(
            data,
            if solved.is_some() {
                fronted(sa, solved.unwrap())
            } else {
                sa
            },
            count,
        ) {
            None => None,
            Some(d) => match tails(sigma, sizes, bptrs, 0, 0) {
                None => None,
                Some(t) => spaced(data, Slots { sa: d, bptrs: t }, count),
            },
        }
    }
}

/// The order of all suffixes as it is induced from the seeded starts: by
/// the forward pass, then the backward pass that restores the entries.
pub open spec fn induced(
    data: Seq<int>,
    sa: Seq<i32>,
    sigma: Seq<usize>,
    sizes: Seq<u32>,
    bptrs: Seq<u32>,
    count: int,
    solved: Option<Seq<i32>>,
) -> Option<Seq<i32>> {
    match seeded(data, sa, sigma, sizes, bptrs, count, solved) {
        None => None,
        Some(s0) => match fwd_pass(data, s0.sa, sigma, sizes, s0.bptrs, false) {
            None => None,
            Some(s1) => match bck_pass(data, s1.sa, sigma, sizes, s1.bptrs, false, true) {
                None => None,
                Some(s2) => Some(s2.sa),
            },
        },
    }
}

/// The array, if there is one.
pub open spec fn solved_view(solved: Option<Vec<i32>>) -> Option<Seq<i32>> {
    match solved {
        Some(v) => Some(v@),
        None => None,
    }
}

/// Induces the order of all suffixes from the sorted reduced suffixes at
/// the front of the array, `solved` if they were sorted apart.
pub fn induce<W: Word>(
    data: &Vec<W>,
    sa: &mut Vec<i32>,
    buckets: &mut Buckets,
    lms_count: usize,
    solved: Option<Vec<i32>>,
) -> (ok: bool)
    requires
        old(buckets).wf(),
        2 <= data@.len() <= IDX_MAX,
        old(sa)@.len() == data@.len(),
        lms_count <= data@.len() / 2,
    ensures
        final(sa)@.len() == old(sa)@.len(),
        ok == induced(
            values(data@),
            old(sa)@,
            old(buckets).sigma@,
            old(buckets).sizes@,
            old(buckets).bptrs@,
            lms_count as int,
            solved_view(solved),
        ).is_some(),
        ok ==> induced(
            values(data@),
            old(sa)@,
            old(buckets).sigma@,
            old(buckets).sizes@,
            old(buckets).bptrs@,
            lms_count as int,
            solved_view(solved),
        ) == Some(final(sa)@),
{
    let n: usize = data.len();
    let ghost vals = values(data@);
    let ghost sview = solved_view(solved);
    if lms_count > 1 {
        match &solved {
            Some(rsa) => {
                if rsa.len() != lms_count {
                    return false;
                }
                let mut p: usize = 0;
                while p < lms_count
                    invariant
                        p <= lms_count <= n / 2,
                        sa@.len() == n,
                        sa@.len() == old(sa)@.len(),
                        rsa@.len() == lms_count,
                        forall|q: int| 0 <= q < p ==> #[trigger] sa@[q] == rsa@[q],
                        forall|q: int| p <= q < n ==> #[trigger] sa@[q] == old(sa)@[q],
                    decreases lms_count - p,
                {
                    sa[p] = rsa[p];
                    p += 1;
                }
                assert(sa@ =~= fronted(old(sa)@, rsa@));
            },
            None => {},
        }
        if !decode_reduced(data, sa, lms_count) {
            return false;
        }
        if !buckets.set_ptrs_to_bucket_tails() {
            return false;
        }
        let ghost goal = spaced(vals, buckets.slots(sa@), lms_count as int);
        let ghost seed = seeded(
            vals,
            old(sa)@,
            old(buckets).sigma@,
            old(buckets).sizes@,
            old(buckets).bptrs@,
            lms_count as int,
            sview,
        );
        assert(seed == goal);
        let mut p: usize = lms_count;
        while p > 0
            invariant
                p <= lms_count <= n / 2,
                buckets.wf(),
                buckets.sizes@ == old(buckets).sizes@,
                buckets.sigma@ == old(buckets).sigma@,
                sa@.len() == n,
                sa@.len() == old(sa)@.len(),
                n == data@.len(),
                vals == values(data@),
                seed == seeded(
                    vals,
                    old(sa)@,
                    old(buckets).sigma@,
                    old(buckets).sizes@,
                    old(buckets).bptrs@,
                    lms_count as int,
                    sview,
                ),
                sview == solved_view(solved),
                spaced(vals, buckets.slots(sa@), p as int) == seed,
            decreases p,
        {
            p -= 1;
            let lms_idx: i32 = sa[p];
            sa[p] = 0;
            if lms_idx < 0 || lms_idx as usize >= n {
                return false;
            }
            assert(vals[lms_idx as int] == data@[lms_idx as int].value());
            if !tail_push(sa, buckets, data[lms_idx as usize].as_usize(), lms_idx) {
                return false;
            }
        }
    }
    if !induced_sort_fwd(data, sa, buckets, false) {
        return false;
    }
    induced_sort_bck(data, sa, buckets, false, true)
}

/// The counts of the symbols below `sigma_size`.
pub open spec fn counted(data: Seq<int>, sigma_size: int) -> Seq<u32> {
    Seq::new(sigma_size as nat, |c: int| tally(data, c, data.len() as int) as u32)
}

/// Cursors that point nowhere yet.
pub open spec fn no_cursors(sigma_size: int) -> Seq<u32> {
    Seq::new(sigma_size as nat, |c: int| 0u32)
}

/// All symbols are below `sigma_size`.
pub open spec fn in_alphabet(data: Seq<int>, sigma_size: int) -> bool {
    forall|j: int| 0 <= j < data.len() ==> #[trigger] data[j] < sigma_size
}

/// The array that induced sorting leaves for the string `data` over the
/// first `sigma_size` numbers, starting from the empty array `sa`: the
/// starts of the rising stretches are reduced to a string of names, that
/// string's suffixes are sorted, by their names where no two share one and
/// in the same way as these otherwise, and from them the order of all
/// suffixes is induced. `None` where a step gives up.
pub open spec fn sorted_by_induction(sigma_size: int, data: Seq<int>, sa: Seq<i32>) -> Option<
    Seq<i32>,
>
    decreases data.len(),
{
    if !in_alphabet(data, sigma_size) || sigma_size < 0 {
        None
    } else {
        let sizes = counted(data, sigma_size);
        let sigma = present(sizes, sigma_size);
        match reduction(data, sa, sigma, sizes, no_cursors(sigma_size)) {
            None => None,
            Some(r) => {
                let count = r.1;
                if count <= 1 {
                    induced(data, r.0.sa, sigma, sizes, r.0.bptrs, count, None)
                } else if r.2 == count {
                    match ranked_by_name(r.0.sa, count, 0) {
                        None => None,
                        Some(sa2) => induced(data, sa2, sigma, sizes, r.0.bptrs, count, None),
                    }
                } else if count >= data.len() || !(forall|p: int|
                    0 <= p < count ==> #[trigger] reduced_string(r.0.sa, count)[p] >= 0) {
                    None
                } else {
                    match sorted_by_induction(
                        r.2,
                        reduced_string(r.0.sa, count),
                        empty_slots(count),
                    ) {
                        None => None,
                        Some(solved) => induced(
                            data,
                            cleared(r.0.sa, count),
                            sigma,
                            sizes,
                            r.0.bptrs,
                            count,
                            Some(solved),
                        ),
                    }
                }
            },
        }
    }
}

/// Sorts the suffixes of `data`, whose symbols are below `sigma_size`, into
/// `sa`, which comes in empty. The suffixes that start a rising stretch
/// after a falling one are sorted first, by their names in a string at most
/// half as long; the rest is induced from them.
pub fn sais(sigma_size: usize, data: &Vec<u32>, sa: &mut Vec<i32>) -> (ok: bool)
    requires
        2 <= data@.len() <= IDX_MAX,
        old(sa)@.len() == data@.len(),
    ensures
        final(sa)@.len() == old(sa)@.len(),
        ok == sorted_by_induction(sigma_size as int, values(data@), old(sa)@).is_some(),
        ok ==> sorted_by_induction(sigma_size as int, values(data@), old(sa)@) == Some(
            final(sa)@,
        ),
    decreases data@.len(),
{
    let ghost vals = values(data@);
    let mut buckets = match Buckets::build(data, sigma_size) {
        Some(b) => b,
        None => {
            return false;
        },
    };
    proof {
        assert(in_alphabet(vals, sigma_size as int));
        assert(buckets.sizes@ =~= counted(vals, sigma_size as int));
        assert(buckets.bptrs@ =~= no_cursors(sigma_size as int));
    }
    let red = match reduce(data, sa, &mut buckets) {
        Some(r) => r,
        None => {
            return false;
        },
    };
    let mut solved: Option<Vec<i32>> = None;
    if red.lms_count > 1 {
        if red.shared {
            let problem = match reduced_problem(sa, red.lms_count) {
                Some(r) => r,
                None => {
                    return false;
                },
            };
            let rdata = problem.0;
            let mut rsa = problem.1;
            if !sais(red.new_sigma_size, &rdata, &mut rsa) {
                return false;
            }
            solved = Some(rsa);
        } else if !rank_by_name(sa, red.lms_count) {
            return false;
        }
    }
    induce(data, sa, &mut buckets, red.lms_count, solved)
}

/// Sorts the suffixes of a byte string into `sa`, which comes in empty.
pub fn sais_bytes(data: &Vec<u8>, sa: &mut Vec<i32>) -> (ok: bool)
    requires
        2 <= data@.len() <= IDX_MAX,
        old(sa)@.len() == data@.len(),
    ensures
        final(sa)@.len() == old(sa)@.len(),
        ok == sorted_by_induction(256, values(data@), old(sa)@).is_some(),
        ok ==> sorted_by_induction(256, values(data@), old(sa)@) == Some(final(sa)@),
{
    let ghost vals = values(data@);
    let mut buckets = match Buckets::build(data, 256) {
        Some(b) => b,
        None => {
            return false;
        },
    };
    proof {
        assert(in_alphabet(vals, 256));
        assert(buckets.sizes@ =~= counted(vals, 256));
        assert(buckets.bptrs@ =~= no_cursors(256));
    }
    let red = match reduce(data, sa, &mut buckets) {
        Some(r) => r,
        None => {
            return false;
        },
    };
    let mut solved: Option<Vec<i32>> = None;
    if red.lms_count > 1 {
        if red.shared {
            let problem = match reduced_problem(sa, red.lms_count) {
                Some(r) => r,
                None => {
                    return false;
                },
            };
            let rdata = problem.0;
            let mut rsa = problem.1;
            if !sais(red.new_sigma_size, &rdata, &mut rsa) {
                return false;
            }
            solved = Some(rsa);
        } else if !rank_by_name(sa, red.lms_count) {
            return false;
        }
    }
    induce(data, sa, &mut buckets, red.lms_count, solved)
}

} // verus!
