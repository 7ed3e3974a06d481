//! Coding trees and the code lengths read from them.
//!
//! A tree is kept as parent links. The leaves come first, leaf `s` standing
//! for symbol `s`; every inner node is made after its children and so has a
//! greater index; a node that is not yet tied to a parent links to itself.

use crate::kraft::{codable, lemma_code_lengths};
use crate::queue::{
    all_sound, extracted, filled, inserted, lemma_extracted, lemma_inserted, lemma_total_nonneg,
    total, Entry, FrequencyQueue, MAX_FREQ, MAX_SYMS,
};
use crate::shallow::lemma_flat_fits;
use vstd::prelude::*;

verus! {

/// No codeword is longer than this.
pub const CODEWORD_MAX_LEN: usize = 17;

/// Every node links to itself or to a later node.
pub open spec fn links_up(parent: Seq<usize>) -> bool {
    forall|v: int| 0 <= v < parent.len() ==> v <= #[trigger] parent[v] < parent.len()
}

/// The number of links from `v` to the root of its tree.
pub open spec fn depth(parent: Seq<usize>, v: int) -> int
    decreases parent.len() - v,
{
    if 0 <= v < parent.len() && v < parent[v] < parent.len() {
        1 + depth(parent, parent[v] as int)
    } else {
        0
    }
}

/// The links after a new node has been made the parent of `left` and `right`.
pub open spec fn tied(parent: Seq<usize>, left: int, right: int) -> Seq<usize> {
    parent.update(left, parent.len() as usize).update(right, parent.len() as usize).push(
        parent.len() as usize,
    )
}

/// The queue after its two first entries were replaced by their parent.
pub open spec fn merged_queue(h: Seq<Entry>, id: int) -> Seq<Entry> {
    let h1 = extracted(h);
    inserted(extracted(h1), Entry { node: id as usize, pri: h[0].pri.joined(h1[0].pri) })
}

/// The links when the queue has run down to one node: as long as two are
/// left, the two first are taken out and tied to a new node, which goes in
/// with their joined priority.
pub open spec fn merged(h: Seq<Entry>, parent: Seq<usize>, fuel: nat) -> Seq<usize>
    decreases fuel,
{
    if fuel == 0 || h.len() < 2 {
        parent
    } else {
        merged(
            merged_queue(h, parent.len() as int),
            tied(parent, h[0].node as int, extracted(h)[0].node as int),
            (fuel - 1) as nat,
        )
    }
}

/// The leaves before any is tied.
pub open spec fn untied(n: int) -> Seq<usize> {
    Seq::new(n as nat, |i: int| i as usize)
}

/// The depth of each leaf in the tree built from the frequencies divided by
/// `scaling`.
pub open spec fn lengths_at(n: int, freqs: Seq<usize>, scaling: int) -> Seq<int> {
    let parent = merged(filled(freqs, scaling, n), untied(n), n as nat);
    Seq::new(n as nat, |s: int| depth(parent, s))
}

/// No length is over the cap.
pub open spec fn fits(lengths: Seq<int>) -> bool {
    forall|s: int| 0 <= s < lengths.len() ==> #[trigger] lengths[s] <= CODEWORD_MAX_LEN
}

/// Dividing by `scaling` leaves nothing of any frequency.
pub open spec fn flattened(n: int, freqs: Seq<usize>, scaling: int) -> bool {
    forall|s: int| 0 <= s < n ==> #[trigger] freqs[s] < scaling
}

/// The code lengths for `n` symbols: those of the tree for the first of the
/// scalings `scaling`, `2 * scaling`, `4 * scaling`, ... whose tree is no
/// deeper than the cap. There is one among those up to the greatest
/// frequency: the first that leaves nothing of any frequency, if none
/// before it.
pub open spec fn code_lengths(n: int, freqs: Seq<usize>, scaling: int) -> Seq<int>
    decreases 2 * MAX_FREQ + 2 - scaling,
{
    let l = lengths_at(n, freqs, scaling);
    if fits(l) || scaling < 1 || scaling > MAX_FREQ {
        l
    } else {
        code_lengths(n, freqs, 2 * scaling)
    }
}

/// A coding tree under construction.
pub struct Tree {
    parent: Vec<usize>,
    num_leaves: usize,
}

impl View for Tree {
    type V = Seq<usize>;

    closed spec fn view(&self) -> Seq<usize> {
        self.parent@
    }
}

impl Tree {
    /// The number of leaves.
    pub closed spec fn leaves(&self) -> int {
        self.num_leaves as int
    }

    /// `n` leaves, none tied.
    pub fn with_n_leaves(n: usize) -> (tree: Tree)
        ensures
            tree@ == untied(n as int),
            tree.leaves() == n,
    {
        let mut parent: Vec<usize> = Vec::new();
        let mut l: usize = 0;
        while l < n
            invariant
                l <= n,
                parent@ == untied(l as int),
            decreases n - l,
        {
            parent.push(l);
            l += 1;
            assert(parent@ =~= untied(l as int));
        }
        Tree { parent, num_leaves: n }
    }

    /// Ties `left` and `right` to a new node and returns it.
    pub fn tie(&mut self, left: usize, right: usize) -> (id: usize)
        requires
            left < old(self)@.len(),
            right < old(self)@.len(),
        ensures
            id == old(self)@.len(),
            final(self)@ == tied(old(self)@, left as int, right as int),
            final(self).leaves() == old(self).leaves(),
    {
        let id: usize = self.parent.len();
        self.parent[left] = id;
        self.parent[right] = id;
        self.parent.push(id);
        id
    }

    /// The depth of every leaf, and the greatest of them.
    pub fn coding_lengths(&self) -> (r: (Vec<usize>, usize))
        requires
            links_up(self@),
            self.leaves() <= self@.len(),
        ensures
            r.0@.len() == self.leaves(),
            forall|s: int| 0 <= s < self.leaves() ==> r.0@[s] == depth(self@, s),
            forall|s: int| 0 <= s < self.leaves() ==> r.0@[s] <= r.1,
            self.leaves() > 0 ==> exists|s: int|
                0 <= s < self.leaves() && (#[trigger] r.0@[s]) == r.1,
            self.leaves() == 0 ==> r.1 == 0,
    {
        let total: usize = self.parent.len();
        let mut dist: Vec<usize> = Vec::new();
        let mut i: usize = 0;
        while i < total
            invariant
                i <= total,
                dist@.len() == i,
                forall|u: int| 0 <= u < i ==> dist@[u] == 0,
            decreases total - i,
        {
            dist.push(0);
            i += 1;
        }
        let mut v: usize = total;
        while v > 0
            invariant
                v <= total,
                total == self.parent@.len(),
                dist@.len() == total,
                links_up(self@),
                forall|u: int| v <= u < total ==> dist@[u] == depth(self@, u),
                forall|u: int| v <= u < total ==> dist@[u] <= total - 1 - u,
                forall|u: int| 0 <= u < v ==> dist@[u] == 0,
            decreases v,
        {
            v -= 1;
            let p: usize = self.parent[v];
            assert(v <= self@[v as int] < total);
            if p != v {
                let d: usize = dist[p] + 1;
                dist[v] = d;
            }
            assert(dist@[v as int] == depth(self@, v as int));
        }
        let mut lengths: Vec<usize> = Vec::new();
        let mut max_len: usize = 0;
        let mut s: usize = 0;
        let ghost mut arg: int = 0;
        while s < self.num_leaves
            invariant
                s <= self.num_leaves <= total,
                total == dist@.len(),
                lengths@.len() == s,
                forall|u: int| 0 <= u < total ==> dist@[u] == depth(self@, u),
                forall|u: int| 0 <= u < s ==> lengths@[u] == depth(self@, u),
                forall|u: int| 0 <= u < s ==> lengths@[u] <= max_len,
                s > 0 ==> 0 <= arg < s && lengths@[arg] == max_len,
                s == 0 ==> max_len == 0,
            decreases self.num_leaves - s,
        {
            let d: usize = dist[s];
            lengths.push(d);
            if s == 0 || d > max_len {
                max_len = d;
                proof {
                    arg = s as int;
                }
            }
            s += 1;
        }
        let r = (lengths, max_len);
        proof {
            if self.num_leaves > 0 {
                assert(0 <= arg < self.leaves() && r.0@[arg] == r.1);
                assert(exists|s: int| 0 <= s < self.leaves() && (#[trigger] r.0@[s]) == r.1);
            }
        }
        r
    }
}

/// Tying two nodes of a forest keeps every link pointing up.
pub proof fn lemma_tied_links_up(parent: Seq<usize>, left: int, right: int)
    requires
        links_up(parent),
        0 <= left < parent.len(),
        0 <= right < parent.len(),
        parent.len() < usize::MAX,
    ensures
        links_up(tied(parent, left, right)),
        tied(parent, left, right).len() == parent.len() + 1,
{
    let t = tied(parent, left, right);
    assert forall|v: int| 0 <= v < t.len() implies v <= #[trigger] t[v] < t.len() by {
        if v < parent.len() {
            assert(v <= parent[v] < parent.len());
        }
    }
}

/// The tree for the frequencies divided by `scaling`.
pub fn build_tree(num_syms: usize, freqs: &Vec<usize>, scaling: usize) -> (tree: Tree)
    requires
        1 <= scaling,
        num_syms <= freqs@.len(),
        num_syms <= MAX_SYMS,
        forall|s: int| 0 <= s < num_syms ==> freqs@[s] <= MAX_FREQ,
    ensures
        tree@ == merged(
            filled(freqs@, scaling as int, num_syms as int),
            untied(num_syms as int),
            num_syms as nat,
        ),
        tree.leaves() == num_syms,
        links_up(tree@),
        num_syms <= tree@.len(),
{
    let mut tree = Tree::with_n_leaves(num_syms);
    let mut queue = FrequencyQueue::new(num_syms, freqs, scaling);
    let ghost goal = merged(queue@, tree@, num_syms as nat);
    while queue.len() >= 2
        invariant
            merged(queue@, tree@, queue@.len()) == goal,
            all_sound(queue@, tree@.len() as int),
            total(queue@) <= MAX_SYMS * (MAX_FREQ + 1),
            links_up(tree@),
            tree.leaves() == num_syms,
            queue@.len() + tree@.len() == 2 * num_syms,
            num_syms <= tree@.len(),
            num_syms <= MAX_SYMS,
        decreases queue@.len(),
    {
        let ghost h = queue@;
        let ghost parent = tree@;
        proof {
            lemma_extracted(h, parent.len() as int);
            lemma_extracted(extracted(h), parent.len() as int);
            lemma_total_nonneg(extracted(extracted(h)));
        }
        let one: Entry = queue.extract();
        let two: Entry = queue.extract();
        proof {
            lemma_tied_links_up(parent, one.node as int, two.node as int);
        }
        let id: usize = tree.tie(one.node, two.node);
        let e = Entry { node: id, pri: one.pri.join(two.pri) };
        proof {
            let h2 = extracted(extracted(h));
            assert(all_sound(h2, tree@.len() as int));
            lemma_inserted(h2, e, tree@.len() as int);
            assert(inserted(h2, e) == merged_queue(h, parent.len() as int));
        }
        queue.insert(e);
    }
    tree
}

/// The code lengths for the first `num_syms` symbols.
pub fn build_table_from_freqs(num_syms: usize, freqs: &Vec<usize>) -> (table: Vec<u8>)
    requires
        2 <= num_syms <= freqs@.len(),
        num_syms <= MAX_SYMS,
        forall|s: int| 0 <= s < num_syms ==> freqs@[s] <= MAX_FREQ,
    ensures
        table@.len() == num_syms,
        forall|s: int|
            0 <= s < num_syms ==> #[trigger] table@[s] == code_lengths(
                num_syms as int,
                freqs@,
                1,
            )[s],
        codable(table@),
{
    let mut scaling: usize = 1;
    loop
        invariant
            1 <= scaling <= 2 * MAX_FREQ,
            2 <= num_syms <= freqs@.len(),
            num_syms <= MAX_SYMS,
            forall|s: int| 0 <= s < num_syms ==> freqs@[s] <= MAX_FREQ,
            code_lengths(num_syms as int, freqs@, scaling as int) == code_lengths(
                num_syms as int,
                freqs@,
                1,
            ),
        decreases 2 * MAX_FREQ + 2 - scaling,
    {
        let tree = build_tree(num_syms, freqs, scaling);
        let r = tree.coding_lengths();
        let lengths = r.0;
        let max_len = r.1;
        let ghost l = lengths_at(num_syms as int, freqs@, scaling as int);
        assert(forall|s: int| 0 <= s < num_syms ==> lengths@[s] == #[trigger] l[s]);
        if max_len <= CODEWORD_MAX_LEN {
            assert(fits(l));
            let mut table: Vec<u8> = Vec::new();
            let mut s: usize = 0;
            while s < num_syms
                invariant
                    s <= num_syms,
                    lengths@.len() == num_syms,
                    table@.len() == s,
                    forall|u: int| 0 <= u < num_syms ==> lengths@[u] <= CODEWORD_MAX_LEN,
                    forall|u: int| 0 <= u < s ==> table@[u] == lengths@[u],
                decreases num_syms - s,
            {
                table.push(lengths[s] as u8);
                s += 1;
            }
            proof {
                lemma_code_lengths(num_syms as int, freqs@, scaling as int, table@);
            }
            return table;
        }
        proof {
            let w = choose|s: int| 0 <= s < num_syms && (#[trigger] lengths@[s]) == max_len;
            assert(l[w] > CODEWORD_MAX_LEN);
            if scaling > MAX_FREQ {
                assert(flattened(num_syms as int, freqs@, scaling as int));
                lemma_flat_fits(num_syms as int, freqs@, scaling as int);
            }
        }
        scaling = scaling * 2;
    }
}

} // verus!
