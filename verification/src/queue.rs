//! The priority queue from which the coding trees are built: a binary
//! min-heap of tree nodes, ordered by subtree frequency and then by subtree
//! depth.

use vstd::prelude::*;

verus! {

/// What a node is ordered by: the summed frequency of the symbols below it,
/// then the longest distance from it to a leaf.
#[derive(Clone, Copy, Debug)]
pub struct Priority {
    pub freq: usize,
    pub depth: usize,
}

impl Priority {
    /// The strict order of the queue: by frequency, ties broken by depth.
    pub open spec fn less(self, other: Priority) -> bool {
        self.freq < other.freq || (self.freq == other.freq && self.depth < other.depth)
    }

    /// The priority of the node whose children have priorities `self` and
    /// `other`.
    pub open spec fn joined(self, other: Priority) -> Priority {
        Priority {
            freq: (self.freq + other.freq) as usize,
            depth: (if self.depth > other.depth {
                self.depth + 1
            } else {
                other.depth + 1
            }) as usize,
        }
    }

    /// A leaf counts at least once, and a subtree is shallower than it has
    /// leaves.
    pub open spec fn sound(self) -> bool {
        self.depth < self.freq
    }

    /// Whether `self` comes before `other` in the order of the queue.
    pub fn is_less(&self, other: &Priority) -> (b: bool)
        ensures
            b == self.less(*other),
    {
        self.freq < other.freq || (self.freq == other.freq && self.depth < other.depth)
    }

    /// The priority of the node whose children have priorities `self` and
    /// `other`.
    pub fn join(self, other: Priority) -> (p: Priority)
        requires
            self.sound(),
            other.sound(),
            self.freq + other.freq <= usize::MAX,
        ensures
            p == self.joined(other),
            p.sound(),
    {
        Priority {
            freq: self.freq + other.freq,
            depth: if self.depth > other.depth {
                self.depth + 1
            } else {
                other.depth + 1
            },
        }
    }
}

/// A tree node in the queue.
#[derive(Clone, Copy, Debug)]
pub struct Entry {
    pub node: usize,
    pub pri: Priority,
}

/// The summed frequency of the entries.
pub open spec fn total(h: Seq<Entry>) -> int
    decreases h.len(),
{
    if h.len() == 0 {
        0
    } else {
        total(h.drop_last()) + h.last().pri.freq
    }
}

/// Every entry has a sound priority and names a node below `bound`.
pub open spec fn all_sound(h: Seq<Entry>, bound: int) -> bool {
    forall|i: int| 0 <= i < h.len() ==> (#[trigger] h[i]).pri.sound() && h[i].node < bound
}

/// The heap after `e` has risen from the free slot `idx` (slots count from
/// one) to its place: while the slot above holds a greater entry, that entry
/// comes down.
pub open spec fn sift_up(h: Seq<Entry>, idx: int, e: Entry) -> Seq<Entry>
    decreases idx,
{
    if 1 < idx <= h.len() && e.pri.less(h[idx / 2 - 1].pri) {
        sift_up(h.update(idx - 1, h[idx / 2 - 1]), idx / 2, e)
    } else {
        h.update(idx - 1, e)
    }
}

/// The heap after `e` has sunk from the free slot `idx` to its place: the
/// lesser child comes up (the left one when neither is less) until `e` is
/// less than it or there is none.
pub open spec fn sift_down(h: Seq<Entry>, idx: int, e: Entry) -> Seq<Entry>
    decreases h.len() - idx,
{
    if idx < 1 || 2 * idx > h.len() {
        h.update(idx - 1, e)
    } else {
        let l = 2 * idx;
        let c = if l + 1 <= h.len() && h[l].pri.less(h[l - 1].pri) {
            l + 1
        } else {
            l
        };
        if e.pri.less(h[c - 1].pri) {
            h.update(idx - 1, e)
        } else {
            sift_down(h.update(idx - 1, h[c - 1]), c, e)
        }
    }
}

/// The heap with `e` added.
pub open spec fn inserted(h: Seq<Entry>, e: Entry) -> Seq<Entry> {
    sift_up(h.push(e), h.len() as int + 1, e)
}

/// The heap without its first entry.
pub open spec fn extracted(h: Seq<Entry>) -> Seq<Entry> {
    if h.len() <= 1 {
        Seq::empty()
    } else {
        sift_down(h.drop_last(), 1, h.last())
    }
}

/// No summed frequency is negative.
pub proof fn lemma_total_nonneg(h: Seq<Entry>)
    ensures
        total(h) >= 0,
    decreases h.len(),
{
    if h.len() > 0 {
        lemma_total_nonneg(h.drop_last());
    }
}

/// Replacing an entry changes the sum by the difference of the frequencies.
pub proof fn lemma_total_update(h: Seq<Entry>, i: int, e: Entry)
    requires
        0 <= i < h.len(),
    ensures
        total(h.update(i, e)) == total(h) - h[i].pri.freq + e.pri.freq,
    decreases h.len(),
{
    if i == h.len() - 1 {
        assert(h.update(i, e).drop_last() =~= h.drop_last());
    } else {
        assert(h.update(i, e).drop_last() =~= h.drop_last().update(i, e));
        lemma_total_update(h.drop_last(), i, e);
    }
}

/// An entry that rises from a free slot takes the place of what was there.
pub proof fn lemma_sift_up(h: Seq<Entry>, idx: int, e: Entry, bound: int)
    requires
        1 <= idx <= h.len(),
        all_sound(h, bound),
        e.pri.sound(),
        e.node < bound,
    ensures
        sift_up(h, idx, e).len() == h.len(),
        all_sound(sift_up(h, idx, e), bound),
        total(sift_up(h, idx, e)) == total(h) - h[idx - 1].pri.freq + e.pri.freq,
    decreases idx,
{
    if 1 < idx && e.pri.less(h[idx / 2 - 1].pri) {
        let h2 = h.update(idx - 1, h[idx / 2 - 1]);
        lemma_sift_up(h2, idx / 2, e, bound);
        lemma_total_update(h, idx - 1, h[idx / 2 - 1]);
    } else {
        lemma_total_update(h, idx - 1, e);
    }
}

/// An entry that sinks from a free slot takes the place of what was there.
pub proof fn lemma_sift_down(h: Seq<Entry>, idx: int, e: Entry, bound: int)
    requires
        1 <= idx <= h.len(),
        all_sound(h, bound),
        e.pri.sound(),
        e.node < bound,
    ensures
        sift_down(h, idx, e).len() == h.len(),
        all_sound(sift_down(h, idx, e), bound),
        total(sift_down(h, idx, e)) == total(h) - h[idx - 1].pri.freq + e.pri.freq,
    decreases h.len() - idx,
{
    if 2 * idx > h.len() {
        lemma_total_update(h, idx - 1, e);
    } else {
        let l = 2 * idx;
        let c = if l + 1 <= h.len() && h[l].pri.less(h[l - 1].pri) {
            l + 1
        } else {
            l
        };
        if e.pri.less(h[c - 1].pri) {
            lemma_total_update(h, idx - 1, e);
        } else {
            let h2 = h.update(idx - 1, h[c - 1]);
            lemma_sift_down(h2, c, e, bound);
            lemma_total_update(h, idx - 1, h[c - 1]);
        }
    }
}

/// Adding an entry keeps the entries sound and adds its frequency.
pub proof fn lemma_inserted(h: Seq<Entry>, e: Entry, bound: int)
    requires
        all_sound(h, bound),
        e.pri.sound(),
        e.node < bound,
    ensures
        inserted(h, e).len() == h.len() + 1,
        all_sound(inserted(h, e), bound),
        total(inserted(h, e)) == total(h) + e.pri.freq,
{
    let h1 = h.push(e);
    assert(h1.drop_last() =~= h);
    lemma_sift_up(h1, h.len() as int + 1, e, bound);
}

/// Taking the first entry out keeps the rest sound and takes its frequency
/// away.
pub proof fn lemma_extracted(h: Seq<Entry>, bound: int)
    requires
        h.len() >= 1,
        all_sound(h, bound),
    ensures
        extracted(h).len() == h.len() - 1,
        all_sound(extracted(h), bound),
        total(extracted(h)) == total(h) - h[0].pri.freq,
{
    if h.len() == 1 {
        assert(h.drop_last() =~= Seq::<Entry>::empty());
    } else {
        lemma_sift_down(h.drop_last(), 1, h.last(), bound);
    }
}

/// How many entries stand for node `v`.
pub open spec fn count_of(h: Seq<Entry>, v: int) -> int
    decreases h.len(),
{
    if h.len() == 0 {
        0
    } else {
        count_of(h.drop_last(), v) + if h.last().node == v {
            1int
        } else {
            0int
        }
    }
}

/// A node is counted at least once if an entry stands for it, and never more
/// often than there are entries.
pub proof fn lemma_count_bounds(h: Seq<Entry>, v: int, i: int)
    requires
        0 <= i < h.len(),
    ensures
        0 <= count_of(h, v),
        h[i].node == v ==> count_of(h, v) >= 1,
        count_of(h, v) <= h.len(),
    decreases h.len(),
{
    if h.len() > 1 {
        if i < h.len() - 1 {
            lemma_count_bounds(h.drop_last(), v, i);
        } else {
            lemma_count_bounds(h.drop_last(), v, 0);
        }
    } else {
        assert(count_of(h.drop_last(), v) == 0);
    }
}

/// Replacing an entry moves one count from its node to the new one.
pub proof fn lemma_count_update(h: Seq<Entry>, i: int, e: Entry, v: int)
    requires
        0 <= i < h.len(),
    ensures
        count_of(h.update(i, e), v) == count_of(h, v) - (if h[i].node == v {
            1int
        } else {
            0int
        }) + (if e.node == v {
            1int
        } else {
            0int
        }),
    decreases h.len(),
{
    if i == h.len() - 1 {
        assert(h.update(i, e).drop_last() =~= h.drop_last());
    } else {
        assert(h.update(i, e).drop_last() =~= h.drop_last().update(i, e));
        lemma_count_update(h.drop_last(), i, e, v);
    }
}

/// An entry that rises changes the counts as if it were put where it starts.
pub proof fn lemma_sift_up_count(h: Seq<Entry>, idx: int, e: Entry, v: int)
    requires
        1 <= idx <= h.len(),
    ensures
        count_of(sift_up(h, idx, e), v) == count_of(h.update(idx - 1, e), v),
    decreases idx,
{
    if 1 < idx && e.pri.less(h[idx / 2 - 1].pri) {
        let up = h[idx / 2 - 1];
        let h2 = h.update(idx - 1, up);
        lemma_sift_up_count(h2, idx / 2, e, v);
        lemma_count_update(h2, idx / 2 - 1, e, v);
        lemma_count_update(h, idx - 1, up, v);
        lemma_count_update(h, idx - 1, e, v);
    }
}

/// An entry that sinks changes the counts as if it were put where it starts.
pub proof fn lemma_sift_down_count(h: Seq<Entry>, idx: int, e: Entry, v: int)
    requires
        1 <= idx <= h.len(),
    ensures
        count_of(sift_down(h, idx, e), v) == count_of(h.update(idx - 1, e), v),
    decreases h.len() - idx,
{
    if 2 * idx <= h.len() {
        let l = 2 * idx;
        let c = if l + 1 <= h.len() && h[l].pri.less(h[l - 1].pri) {
            l + 1
        } else {
            l
        };
        if !e.pri.less(h[c - 1].pri) {
            let down = h[c - 1];
            let h2 = h.update(idx - 1, down);
            lemma_sift_down_count(h2, c, e, v);
            lemma_count_update(h2, c - 1, e, v);
            lemma_count_update(h, idx - 1, down, v);
            lemma_count_update(h, idx - 1, e, v);
        }
    }
}

/// Adding an entry adds one to the count of its node.
pub proof fn lemma_inserted_count(h: Seq<Entry>, e: Entry, v: int)
    ensures
        count_of(inserted(h, e), v) == count_of(h, v) + if e.node == v {
            1int
        } else {
            0int
        },
{
    let h1 = h.push(e);
    assert(h1.drop_last() =~= h);
    lemma_sift_up_count(h1, h.len() as int + 1, e, v);
    assert(h1.update(h.len() as int, e) =~= h1);
}

/// Taking the first entry out takes one from the count of its node.
pub proof fn lemma_extracted_count(h: Seq<Entry>, v: int)
    requires
        h.len() >= 1,
    ensures
        count_of(extracted(h), v) == count_of(h, v) - if h[0].node == v {
            1int
        } else {
            0int
        },
{
    if h.len() == 1 {
        assert(h.drop_last() =~= Seq::<Entry>::empty());
        assert(count_of(Seq::<Entry>::empty(), v) == 0);
    } else {
        let rest = h.drop_last();
        lemma_sift_down_count(rest, 1, h.last(), v);
        lemma_count_update(rest, 0, h.last(), v);
    }
}

/// Whether `a` comes no later than `b` in the order of the queue.
pub open spec fn no_later(a: Entry, b: Entry) -> bool {
    !b.pri.less(a.pri)
}

/// The entries are in heap order but for slot `hole` (slots count from
/// one; no slot is left out if `hole` is zero): every entry comes no later
/// than the entries in the two slots below it, and the entry above the
/// hole no later than those below it.
pub open spec fn heap_but(h: Seq<Entry>, hole: int) -> bool {
    &&& forall|i: int|
        2 <= i <= h.len() && i != hole && i / 2 != hole ==> no_later(
            #[trigger] h[i / 2 - 1],
            h[i - 1],
        )
    &&& forall|i: int|
        2 <= i <= h.len() && i / 2 == hole && hole >= 2 ==> no_later(
            h[hole / 2 - 1],
            #[trigger] h[i - 1],
        )
}

/// The entries are in heap order.
pub open spec fn is_heap(h: Seq<Entry>) -> bool {
    heap_but(h, 0)
}

/// An entry that rises from a hole, below which all entries come no
/// earlier than it, leaves a heap.
pub proof fn lemma_sift_up_heap(h: Seq<Entry>, idx: int, e: Entry)
    requires
        1 <= idx <= h.len(),
        heap_but(h, idx),
        forall|i: int| 2 <= i <= h.len() && i / 2 == idx ==> no_later(e, #[trigger] h[i - 1]),
    ensures
        is_heap(sift_up(h, idx, e)),
    decreases idx,
{
    if 1 < idx && e.pri.less(h[idx / 2 - 1].pri) {
        let above = h[idx / 2 - 1];
        let h2 = h.update(idx - 1, above);
        let q = idx / 2;
        assert(heap_but(h2, q)) by {
            assert forall|i: int| 2 <= i <= h2.len() && i != q && i / 2 != q implies no_later(
                #[trigger] h2[i / 2 - 1],
                h2[i - 1],
            ) by {
                if i / 2 == idx {
                    assert(no_later(h[idx / 2 - 1], h[i - 1]));
                } else {
                    assert(no_later(h[i / 2 - 1], h[i - 1]));
                }
            }
            assert forall|i: int| 2 <= i <= h2.len() && i / 2 == q && q >= 2 implies no_later(
                h2[q / 2 - 1],
                #[trigger] h2[i - 1],
            ) by {
                assert(no_later(h[q / 2 - 1], h[q - 1]));
                if i != idx {
                    assert(no_later(h[i / 2 - 1], h[i - 1]));
                }
            }
        }
        assert forall|i: int| 2 <= i <= h2.len() && i / 2 == q implies no_later(
            e,
            #[trigger] h2[i - 1],
        ) by {
            if i != idx {
                assert(no_later(h[i / 2 - 1], h[i - 1]));
            }
        }
        lemma_sift_up_heap(h2, q, e);
    } else {
        let h2 = h.update(idx - 1, e);
        assert forall|i: int| 2 <= i <= h2.len() implies no_later(
            #[trigger] h2[i / 2 - 1],
            h2[i - 1],
        ) by {
            if i == idx {
            } else if i / 2 == idx {
                assert(no_later(e, h[i - 1]));
            } else {
                assert(no_later(h[i / 2 - 1], h[i - 1]));
            }
        }
    }
}

/// An entry that sinks from a hole, above which the entry comes no later
/// than it, leaves a heap.
pub proof fn lemma_sift_down_heap(h: Seq<Entry>, idx: int, e: Entry)
    requires
        1 <= idx <= h.len(),
        heap_but(h, idx),
        idx >= 2 ==> no_later(h[idx / 2 - 1], e),
    ensures
        is_heap(sift_down(h, idx, e)),
    decreases h.len() - idx,
{
    if 2 * idx > h.len() {
        let h2 = h.update(idx - 1, e);
        assert forall|i: int| 2 <= i <= h2.len() implies no_later(
            #[trigger] h2[i / 2 - 1],
            h2[i - 1],
        ) by {
            if i != idx {
                assert(i / 2 != idx);
                assert(no_later(h[i / 2 - 1], h[i - 1]));
            }
        }
    } else {
        let l = 2 * idx;
        let c = if l + 1 <= h.len() && h[l].pri.less(h[l - 1].pri) {
            l + 1
        } else {
            l
        };
        if e.pri.less(h[c - 1].pri) {
            let h2 = h.update(idx - 1, e);
            assert forall|i: int| 2 <= i <= h2.len() implies no_later(
                #[trigger] h2[i / 2 - 1],
                h2[i - 1],
            ) by {
                if i == idx {
                } else if i / 2 == idx {
                    assert(i == l || i == l + 1);
                } else {
                    assert(no_later(h[i / 2 - 1], h[i - 1]));
                }
            }
        } else {
            let below = h[c - 1];
            let h2 = h.update(idx - 1, below);
            assert(c / 2 == idx);
            assert(heap_but(h2, c)) by {
                assert forall|i: int| 2 <= i <= h2.len() && i != c && i / 2 != c implies no_later(
                    #[trigger] h2[i / 2 - 1],
                    h2[i - 1],
                ) by {
                    if i == idx {
                        assert(no_later(h[idx / 2 - 1], h[c - 1]));
                    } else if i / 2 == idx {
                        assert(i == l || i == l + 1);
                    } else {
                        assert(no_later(h[i / 2 - 1], h[i - 1]));
                    }
                }
                assert forall|i: int| 2 <= i <= h2.len() && i / 2 == c && c >= 2 implies no_later(
                    h2[c / 2 - 1],
                    #[trigger] h2[i - 1],
                ) by {
                    assert(no_later(h[i / 2 - 1], h[i - 1]));
                }
            }
            lemma_sift_down_heap(h2, c, e);
        }
    }
}

/// Adding an entry to a heap leaves a heap.
pub proof fn lemma_inserted_heap(h: Seq<Entry>, e: Entry)
    requires
        is_heap(h),
    ensures
        is_heap(inserted(h, e)),
{
    let h1 = h.push(e);
    let idx = h.len() as int + 1;
    assert(heap_but(h1, idx)) by {
        assert forall|i: int| 2 <= i <= h1.len() && i != idx && i / 2 != idx implies no_later(
            #[trigger] h1[i / 2 - 1],
            h1[i - 1],
        ) by {
            assert(no_later(h[i / 2 - 1], h[i - 1]));
        }
    }
    lemma_sift_up_heap(h1, idx, e);
}

/// Taking the first entry out of a heap leaves a heap.
pub proof fn lemma_extracted_heap(h: Seq<Entry>)
    requires
        is_heap(h),
        h.len() >= 1,
    ensures
        is_heap(extracted(h)),
{
    if h.len() > 1 {
        let rest = h.drop_last();
        assert(heap_but(rest, 1)) by {
            assert forall|i: int| 2 <= i <= rest.len() && i != 1 && i / 2 != 1 implies no_later(
                #[trigger] rest[i / 2 - 1],
                rest[i - 1],
            ) by {
                assert(no_later(h[i / 2 - 1], h[i - 1]));
            }
        }
        lemma_sift_down_heap(rest, 1, h.last());
    }
}

/// The first entry of a heap comes no later than any other.
pub proof fn lemma_heap_first(h: Seq<Entry>, i: int)
    requires
        is_heap(h),
        1 <= i <= h.len(),
    ensures
        no_later(h[0], h[i - 1]),
    decreases i,
{
    if i >= 2 {
        lemma_heap_first(h, i / 2);
        assert(no_later(h[i / 2 - 1], h[i - 1]));
    }
}

/// An entry that rises or sinks into a queue is in the queue with those
/// that were in it, but for the one whose slot was free.
pub proof fn lemma_sift_up_members(h: Seq<Entry>, idx: int, e: Entry, i: int)
    requires
        1 <= idx <= h.len(),
        0 <= i < h.len(),
    ensures
        sift_up(h, idx, e).len() == h.len(),
        sift_up(h, idx, e)[i] == e || exists|j: int|
            0 <= j < h.len() && j != idx - 1 && sift_up(h, idx, e)[i] == #[trigger] h[j],
    decreases idx,
{
    if 1 < idx && e.pri.less(h[idx / 2 - 1].pri) {
        let h2 = h.update(idx - 1, h[idx / 2 - 1]);
        lemma_sift_up_members(h2, idx / 2, e, i);
        let r = sift_up(h2, idx / 2, e)[i];
        if r != e {
            let j = choose|j: int| 0 <= j < h2.len() && j != idx / 2 - 1 && r == #[trigger] h2[j];
            if j == idx - 1 {
                assert(r == h[idx / 2 - 1]);
            } else {
                assert(r == h[j]);
            }
        }
    } else {
        if i != idx - 1 {
            assert(sift_up(h, idx, e)[i] == h[i]);
        }
    }
}

/// An entry that sinks into a queue is in the queue with those that were
/// in it, but for the one whose slot was free.
pub proof fn lemma_sift_down_members(h: Seq<Entry>, idx: int, e: Entry, i: int)
    requires
        1 <= idx <= h.len(),
        0 <= i < h.len(),
    ensures
        sift_down(h, idx, e).len() == h.len(),
        sift_down(h, idx, e)[i] == e || exists|j: int|
            0 <= j < h.len() && j != idx - 1 && sift_down(h, idx, e)[i] == #[trigger] h[j],
    decreases h.len() - idx,
{
    if 2 * idx > h.len() {
        if i != idx - 1 {
            assert(sift_down(h, idx, e)[i] == h[i]);
        }
    } else {
        let l = 2 * idx;
        let c = if l + 1 <= h.len() && h[l].pri.less(h[l - 1].pri) {
            l + 1
        } else {
            l
        };
        if e.pri.less(h[c - 1].pri) {
            if i != idx - 1 {
                assert(sift_down(h, idx, e)[i] == h[i]);
            }
        } else {
            let h2 = h.update(idx - 1, h[c - 1]);
            lemma_sift_down_members(h2, c, e, i);
            let r = sift_down(h2, c, e)[i];
            if r != e {
                let j = choose|j: int| 0 <= j < h2.len() && j != c - 1 && r == #[trigger] h2[j];
                if j == idx - 1 {
                    assert(r == h[c - 1]);
                } else {
                    assert(r == h[j]);
                }
            }
        }
    }
}

/// Every entry of a queue with an entry added is that entry or was in the
/// queue.
pub proof fn lemma_inserted_members(h: Seq<Entry>, e: Entry, i: int)
    requires
        0 <= i <= h.len(),
    ensures
        inserted(h, e).len() == h.len() + 1,
        inserted(h, e)[i] == e || exists|j: int|
            0 <= j < h.len() && inserted(h, e)[i] == #[trigger] h[j],
{
    let h1 = h.push(e);
    lemma_sift_up_members(h1, h.len() as int + 1, e, i);
    let r = inserted(h, e)[i];
    if r != e {
        let j = choose|j: int| 0 <= j < h1.len() && j != h.len() && r == #[trigger] h1[j];
        assert(r == h[j]);
    }
}

/// Every entry of a queue without its first entry was in the queue, and
/// not in the first slot.
pub proof fn lemma_extracted_members(h: Seq<Entry>, i: int)
    requires
        0 <= i < h.len() - 1,
    ensures
        extracted(h).len() == h.len() - 1,
        exists|j: int| 1 <= j < h.len() && extracted(h)[i] == #[trigger] h[j],
{
    let rest = h.drop_last();
    lemma_sift_down_members(rest, 1, h.last(), i);
    let r = extracted(h)[i];
    if r == h.last() {
        assert(r == h[h.len() - 1]);
    } else {
        let j = choose|j: int| 0 <= j < rest.len() && j != 0 && r == #[trigger] rest[j];
        assert(r == h[j]);
    }
}

/// The most symbols a table can have.
pub const MAX_SYMS: usize = 258;

/// The greatest frequency a symbol can have.
pub const MAX_FREQ: usize = 1_638_350;

/// The leaf for symbol `s`: its frequency divided by `scaling`, and one more
/// so that no symbol weighs nothing.
pub open spec fn leaf(freqs: Seq<usize>, scaling: int, s: int) -> Entry {
    Entry {
        node: s as usize,
        pri: Priority { freq: (freqs[s] as int / scaling + 1) as usize, depth: 0 },
    }
}

/// The queue after the leaves of the first `k` symbols went in, in order.
pub open spec fn filled(freqs: Seq<usize>, scaling: int, k: int) -> Seq<Entry>
    decreases k,
{
    if k <= 0 {
        Seq::empty()
    } else {
        inserted(filled(freqs, scaling, k - 1), leaf(freqs, scaling, k - 1))
    }
}

/// A binary min-heap of tree nodes.
pub struct FrequencyQueue {
    heap: Vec<Entry>,
}

impl View for FrequencyQueue {
    type V = Seq<Entry>;

    closed spec fn view(&self) -> Seq<Entry> {
        self.heap@
    }
}

impl FrequencyQueue {
    /// The queue of the leaves of the first `num_syms` symbols.
    pub fn new(num_syms: usize, freqs: &Vec<usize>, scaling: usize) -> (q: Self)
        requires
            1 <= scaling,
            num_syms <= freqs@.len(),
            num_syms <= MAX_SYMS,
            forall|s: int| 0 <= s < num_syms ==> freqs@[s] <= MAX_FREQ,
        ensures
            q@ == filled(freqs@, scaling as int, num_syms as int),
            q@.len() == num_syms,
            all_sound(q@, num_syms as int),
            total(q@) <= num_syms * (MAX_FREQ + 1),
    {
        let mut queue = FrequencyQueue { heap: Vec::new() };
        let mut s: usize = 0;
        assert(total(queue@) == 0);
        while s < num_syms
            invariant
                s <= num_syms <= freqs@.len(),
                num_syms <= MAX_SYMS,
                1 <= scaling,
                forall|s: int| 0 <= s < num_syms ==> freqs@[s] <= MAX_FREQ,
                queue@ == filled(freqs@, scaling as int, s as int),
                queue@.len() == s,
                all_sound(queue@, num_syms as int),
                total(queue@) <= s * (MAX_FREQ + 1),
            decreases num_syms - s,
        {
            let q_freq: usize = freqs[s] / scaling + 1;
            let e = Entry { node: s, pri: Priority { freq: q_freq, depth: 0 } };
            proof {
                assert(e == leaf(freqs@, scaling as int, s as int));
                lemma_inserted(queue@, e, num_syms as int);
                assert((s + 1) * (MAX_FREQ + 1) == s * (MAX_FREQ + 1) + (MAX_FREQ + 1))
                    by (nonlinear_arith);
            }
            queue.insert(e);
            s += 1;
        }
        queue
    }

    /// The number of entries.
    pub fn len(&self) -> (n: usize)
        ensures
            n == self@.len(),
    {
        self.heap.len()
    }

    /// Adds `e`.
    pub fn insert(&mut self, e: Entry)
        ensures
            final(self)@ == inserted(old(self)@, e),
    {
        self.heap.push(e);
        let mut this_idx: usize = self.heap.len();
        while this_idx > 1 && e.pri.is_less(&self.heap[this_idx / 2 - 1].pri)
            invariant
                1 <= this_idx <= self.heap@.len(),
                sift_up(self.heap@, this_idx as int, e) == inserted(old(self)@, e),
            decreases this_idx,
        {
            let above: Entry = self.heap[this_idx / 2 - 1];
            self.heap[this_idx - 1] = above;
            this_idx = this_idx / 2;
        }
        self.heap[this_idx - 1] = e;
    }

    /// Takes out the first entry, one that no other is less than.
    pub fn extract(&mut self) -> (root: Entry)
        requires
            old(self)@.len() >= 1,
        ensures
            root == old(self)@[0],
            final(self)@ == extracted(old(self)@),
    {
        let heap_size: usize = self.heap.len() - 1;
        let last: Entry = self.heap.pop().unwrap();
        if heap_size == 0 {
            assert(self.heap@ =~= Seq::<Entry>::empty());
            return last;
        }
        assert(self.heap@ == old(self)@.drop_last());
        assert(heap_size == old(self)@.len() - 1);
        let root: Entry = self.heap[0];
        let mut this_idx: usize = 1;
        loop
            invariant
                1 <= this_idx <= heap_size,
                heap_size == self.heap@.len(),
                heap_size < usize::MAX,
                sift_down(self.heap@, this_idx as int, last) == extracted(old(self)@),
            ensures
                self.heap@.update(this_idx - 1, last) == extracted(old(self)@),
                1 <= this_idx <= heap_size,
                heap_size == self.heap@.len(),
            decreases heap_size - this_idx,
        {
            if this_idx > heap_size / 2 {
                break;
            }
            let left_idx: usize = this_idx * 2;
            let right_idx: usize = left_idx + 1;
            let below_idx: usize = if right_idx <= heap_size && self.heap[right_idx - 1].pri.is_less(
                &self.heap[left_idx - 1].pri,
            ) {
                right_idx
            } else {
                left_idx
            };
            let below: Entry = self.heap[below_idx - 1];
            if last.pri.is_less(&below.pri) {
                break;
            }
            self.heap[this_idx - 1] = below;
            this_idx = below_idx;
        }
        self.heap[this_idx - 1] = last;
        root
    }
}

} // verus!
