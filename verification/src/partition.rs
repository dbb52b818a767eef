//! Row-index partition shared by all nodes of one tree.
//!
//! A single permutation of row indices is held in `data_ids`; every node of
//! the tree owns a contiguous half-open range `[start[n], start[n] + size[n])`
//! into it. Splitting a node appends the two child ranges, which cover the
//! parent's range exactly, so no row is ever lost or duplicated.

use vstd::prelude::*;
use vstd::seq_lib::lemma_multiset_commutative;

verus! {

#[derive(Clone, Debug)]
pub struct Partition {
    pub data_ids: Vec<usize>,
    pub start: Vec<usize>,
    pub size: Vec<usize>,
}

impl Partition {
    /// Every node's range lies inside `data_ids`.
    pub open spec fn wf(self) -> bool {
        &&& self.start@.len() == self.size@.len()
        &&& forall|i: int|
            0 <= i < self.start@.len() ==> #[trigger] (self.start@[i] + self.size@[i])
                <= self.data_ids@.len()
    }

    /// Number of node ranges.
    pub open spec fn n_nodes(self) -> int {
        self.start@.len() as int
    }

    /// The row indices a node holds, in range order.
    pub open spec fn node_seq(self, n: int) -> Seq<usize> {
        self.data_ids@.subrange(
            self.start@[n] as int,
            self.start@[n] + self.size@[n],
        )
    }

    /// An empty partition: no rows, no node ranges.
    pub fn new() -> (r: Partition)
        ensures
            r.wf(),
            r.data_ids@.len() == 0,
            r.n_nodes() == 0,
    {
        Partition { data_ids: Vec::new(), start: Vec::new(), size: Vec::new() }
    }

    /// Root partition over a row subsample: the root node holds all of it.
    pub fn subsample(indices: Vec<usize>) -> (r: Partition)
        ensures
            r.wf(),
            r.data_ids@ == indices@,
            r.n_nodes() == 1,
            r.start@[0] == 0,
            r.size@[0] == indices@.len(),
            r.node_seq(0) == indices@,
    {
        let n = indices.len();
        let mut start: Vec<usize> = Vec::new();
        let mut size: Vec<usize> = Vec::new();
        start.push(0);
        size.push(n);
        let r = Partition { data_ids: indices, start, size };
        proof {
            assert(r.node_seq(0) =~= r.data_ids@);
        }
        r
    }

    /// The rows of one node, copied out in range order.
    pub fn get_indices(&self, node_id: usize) -> (r: Vec<usize>)
        requires
            self.wf(),
            node_id < self.n_nodes(),
        ensures
            r@ == self.node_seq(node_id as int),
    {
        proof {
            assert(self.start@[node_id as int] + self.size@[node_id as int]
                <= self.data_ids@.len());
        }
        let n_rows = self.data_ids.len();
        let start = self.start[node_id];
        let size = self.size[node_id];
        let mut r: Vec<usize> = Vec::new();
        let mut i: usize = 0;
        proof {
            assert(r@ =~= self.data_ids@.subrange(start as int, start as int));
        }
        while i < size
            invariant
                self.wf(),
                node_id < self.n_nodes(),
                start == self.start@[node_id as int],
                size == self.size@[node_id as int],
                start + size <= n_rows,
                n_rows == self.data_ids@.len(),
                i <= size,
                r@ == self.data_ids@.subrange(start as int, start + i),
            decreases size - i,
        {
            r.push(self.data_ids[start + i]);
            proof {
                assert(r@ =~= self.data_ids@.subrange(start as int, start + i + 1));
            }
            i = i + 1;
        }
        proof {
            assert(r@ =~= self.node_seq(node_id as int));
        }
        r
    }

    /// Write a permuted row sequence back into one node's range; everything
    /// outside the range is untouched.
    pub fn set_indices(&mut self, node_id: usize, vals: &Vec<usize>)
        requires
            old(self).wf(),
            node_id < old(self).n_nodes(),
            vals@.len() == old(self).size@[node_id as int],
        ensures
            final(self).wf(),
            final(self).start@ == old(self).start@,
            final(self).size@ == old(self).size@,
            final(self).data_ids@.len() == old(self).data_ids@.len(),
            final(self).node_seq(node_id as int) == vals@,
            forall|i: int|
                0 <= i < final(self).data_ids@.len() && !(old(self).start@[node_id as int] <= i
                    < old(self).start@[node_id as int] + old(self).size@[node_id as int])
                    ==> final(self).data_ids@[i] == #[trigger] old(self).data_ids@[i],
    {
        proof {
            assert(old(self).start@[node_id as int] + old(self).size@[node_id as int]
                <= old(self).data_ids@.len());
        }
        let n_rows = self.data_ids.len();
        let start = self.start[node_id];
        let size = self.size[node_id];
        let mut i: usize = 0;
        while i < size
            invariant
                self.wf(),
                node_id < self.n_nodes(),
                start == self.start@[node_id as int],
                size == self.size@[node_id as int],
                start + size <= n_rows,
                n_rows == self.data_ids@.len(),
                vals@.len() == size,
                i <= size,
                self.start@ == old(self).start@,
                self.size@ == old(self).size@,
                self.data_ids@.len() == old(self).data_ids@.len(),
                forall|j: int|
                    0 <= j < self.data_ids@.len() && !(start <= j < start + i)
                        ==> self.data_ids@[j] == #[trigger] old(self).data_ids@[j],
                forall|j: int|
                    0 <= j < i ==> self.data_ids@[start + j] == #[trigger] vals@[j],
            decreases size - i,
        {
            let v = vals[i];
            self.data_ids.set(start + i, v);
            i = i + 1;
        }
        proof {
            assert(self.node_seq(node_id as int) =~= vals@);
        }
    }

    /// Split a node: append the two child ranges, which cover the parent's
    /// range exactly. The child node ids are the two next positions.
    pub fn split(&mut self, node: usize, left_size: usize)
        requires
            old(self).wf(),
            node < old(self).n_nodes(),
            left_size <= old(self).size@[node as int],
        ensures
            final(self).wf(),
            final(self).data_ids@ == old(self).data_ids@,
            final(self).n_nodes() == old(self).n_nodes() + 2,
            final(self).start@ == old(self).start@.push(old(self).start@[node as int]).push(
                (old(self).start@[node as int] + left_size) as usize,
            ),
            final(self).size@ == old(self).size@.push(left_size).push(
                (old(self).size@[node as int] - left_size) as usize,
            ),
            final(self).node_seq(old(self).n_nodes()) + final(self).node_seq(
                old(self).n_nodes() + 1,
            ) == final(self).node_seq(node as int),
    {
        proof {
            assert(old(self).start@[node as int] + old(self).size@[node as int]
                <= old(self).data_ids@.len());
        }
        let n_rows = self.data_ids.len();
        let start = self.start[node];
        let size = self.size[node];
        proof {
            assert(start + left_size <= n_rows);
        }
        self.start.push(start);
        self.size.push(left_size);
        self.start.push(start + left_size);
        self.size.push(size - left_size);
        proof {
            assert(self.node_seq(old(self).n_nodes()) + self.node_seq(
                old(self).n_nodes() + 1,
            ) =~= self.node_seq(node as int));
        }
    }

    /// Identity partition for prediction: all rows in the root, the other
    /// `n_nodes - 1` ranges empty.
    pub fn refresh(total: usize, n_nodes: usize) -> (r: Partition)
        ensures
            r.wf(),
            r.data_ids@.len() == total,
            forall|i: int| 0 <= i < total ==> #[trigger] r.data_ids@[i] == i,
            r.n_nodes() == if n_nodes == 0 {
                1int
            } else {
                n_nodes as int
            },
            r.start@[0] == 0,
            r.size@[0] == total,
            forall|i: int| 0 <= i < r.n_nodes() ==> #[trigger] r.start@[i] == 0,
            forall|i: int| 1 <= i < r.n_nodes() ==> #[trigger] r.size@[i] == 0,
    {
        let mut data_ids: Vec<usize> = Vec::new();
        let mut i: usize = 0;
        while i < total
            invariant
                i <= total,
                data_ids@.len() == i,
                forall|j: int| 0 <= j < i ==> #[trigger] data_ids@[j] == j,
            decreases total - i,
        {
            data_ids.push(i);
            i = i + 1;
        }
        let mut start: Vec<usize> = Vec::new();
        let mut size: Vec<usize> = Vec::new();
        start.push(0);
        size.push(total);
        let mut k: usize = 1;
        while k < n_nodes
            invariant
                1 <= k,
                n_nodes == 0 ==> k == 1,
                n_nodes >= 1 ==> k <= n_nodes,
                start@.len() == k,
                size@.len() == start@.len(),
                start@[0] == 0,
                size@[0] == total,
                forall|j: int| 0 <= j < start@.len() ==> #[trigger] start@[j] == 0 || j == 0,
                forall|j: int| 1 <= j < size@.len() ==> #[trigger] size@[j] == 0,
            decreases n_nodes - k,
        {
            start.push(0);
            size.push(0);
            k = k + 1;
        }
        Partition { data_ids, start, size }
    }

    /// Overwrite one node's range bounds; positions out of range are ignored,
    /// as when a leaf of a grown tree is reached during prediction.
    pub fn set_node_range(&mut self, n: usize, start: usize, size: usize)
        requires
            old(self).wf(),
            start + size <= old(self).data_ids@.len(),
        ensures
            final(self).wf(),
            final(self).data_ids@ == old(self).data_ids@,
            final(self).n_nodes() == old(self).n_nodes(),
            n < old(self).n_nodes() ==> final(self).start@ == old(self).start@.update(
                n as int,
                start,
            ) && final(self).size@ == old(self).size@.update(n as int, size),
            n >= old(self).n_nodes() ==> final(self).start@ == old(self).start@ && final(self).size@ == old(self).size@,
    {
        if n < self.start.len() {
            self.start.set(n, start);
        }
        if n < self.size.len() {
            self.size.set(n, size);
        }
    }
}

/// Partition invariant: splitting a range at `k` preserves the rows as a
/// multiset, so after any sequence of splits the union of the leaf ranges
/// still carries exactly the initial subsample.
pub proof fn lemma_split_preserves_multiset(s: Seq<usize>, a: int, k: int, b: int)
    requires
        0 <= a <= k <= b <= s.len(),
    ensures
        s.subrange(a, b).to_multiset() == s.subrange(a, k).to_multiset().add(
            s.subrange(k, b).to_multiset(),
        ),
{
    assert(s.subrange(a, b) =~= s.subrange(a, k) + s.subrange(k, b));
    lemma_multiset_commutative(s.subrange(a, k), s.subrange(k, b));
}

} // verus!
