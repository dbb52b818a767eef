//! The tree arena: nodes keyed by position, each with its depth, optional
//! children links and optional split record. The root is node zero; children
//! always sit at higher positions than their parent, so walks terminate.

use vstd::prelude::*;
use crate::fixed::{clip, fix_wf, fsub};
use crate::split_info::SplitInfo;

verus! {

#[derive(Clone, Debug)]
pub struct Tree {
    pub level: Vec<usize>,
    pub left_children: Vec<Option<usize>>,
    pub right_children: Vec<Option<usize>>,
    pub split: Vec<Option<SplitInfo>>,
}

impl Tree {
    pub open spec fn size_spec(self) -> int {
        self.level@.len() as int
    }

    /// One entry of each array per node, child links pointing forward to
    /// valid nodes one level deeper, and depths bounded by positions.
    pub open spec fn wf(self) -> bool {
        &&& self.size_spec() >= 1
        &&& self.left_children@.len() == self.size_spec()
        &&& self.right_children@.len() == self.size_spec()
        &&& self.split@.len() == self.size_spec()
        &&& forall|i: int|
            0 <= i < self.size_spec() && self.left_children@[i] is Some ==> i < (
            #[trigger] self.left_children@[i]).unwrap() < self.size_spec()
        &&& forall|i: int|
            0 <= i < self.size_spec() && self.right_children@[i] is Some ==> i < (
            #[trigger] self.right_children@[i]).unwrap() < self.size_spec()
        &&& forall|i: int|
            0 <= i < self.size_spec() ==> (#[trigger] self.level@[i]) <= i
    }

    /// A node with its split record attached and usable for prediction.
    pub open spec fn node_done(self, i: int) -> bool {
        &&& self.split@[i] is Some
        &&& self.split@[i].unwrap().summary_ok()
    }

    /// A trained tree: every node carries a usable split record.
    pub open spec fn trained(self) -> bool {
        forall|i: int| 0 <= i < self.size_spec() ==> #[trigger] self.node_done(i)
    }

    /// The grower's shape rule at one node: children exist exactly when the
    /// node's record chose a boundary and its depth allowed growing on.
    pub open spec fn shaped(self, i: int, max_depth: int) -> bool {
        self.left_children@[i] is Some <==> (self.split@[i] is Some
            && self.split@[i].unwrap().value is Some && self.level@[i] < max_depth)
    }

    /// A fully grown tree: every node has either both children or none.
    pub open spec fn paired(self) -> bool {
        forall|i: int|
            0 <= i < self.size_spec() ==> ((#[trigger] self.left_children@[i]) is Some <==> (
            self.right_children@[i]) is Some)
    }

    /// A single root node with no children and no split.
    pub fn new() -> (r: Tree)
        ensures
            r.wf(),
            r.paired(),
            r.size_spec() == 1,
            r.level@[0] == 0,
            r.left_children@[0] is None,
            r.right_children@[0] is None,
            r.split@[0] is None,
    {
        let mut level: Vec<usize> = Vec::new();
        level.push(0);
        let mut left_children: Vec<Option<usize>> = Vec::new();
        left_children.push(None);
        let mut right_children: Vec<Option<usize>> = Vec::new();
        right_children.push(None);
        let mut split: Vec<Option<SplitInfo>> = Vec::new();
        split.push(None);
        Tree { level, left_children, right_children, split }
    }

    /// Attach a split record to a node; positions out of range are ignored.
    pub fn add_split(&mut self, node: usize, split_info: SplitInfo)
        requires
            old(self).wf(),
        ensures
            final(self).wf(),
            final(self).paired() == old(self).paired(),
            final(self).size_spec() == old(self).size_spec(),
            final(self).level@ == old(self).level@,
            final(self).left_children@ == old(self).left_children@,
            final(self).right_children@ == old(self).right_children@,
            node < old(self).size_spec() ==> final(self).split@ == old(self).split@.update(
                node as int,
                Some(split_info),
            ),
            node >= old(self).size_spec() ==> final(self).split@ == old(self).split@,
    {
        if node < self.split.len() {
            self.split.set(node, Some(split_info));
        }
    }

    /// Allocate the left child of a node, one level deeper, at the next
    /// position.
    pub fn add_left(&mut self, node: usize) -> (r: usize)
        requires
            old(self).wf(),
            node < old(self).size_spec(),
        ensures
            final(self).wf(),
            r == old(self).size_spec(),
            final(self).size_spec() == old(self).size_spec() + 1,
            final(self).level@ == old(self).level@.push(
                (old(self).level@[node as int] + 1) as usize,
            ),
            final(self).left_children@ == old(self).left_children@.update(
                node as int,
                Some(r),
            ).push(None),
            final(self).right_children@ == old(self).right_children@.push(None),
            final(self).split@ == old(self).split@.push(None),
    {
        let left = self.level.len();
        self.left_children.set(node, Some(left));
        let lvl = self.level[node];
        self.level.push(lvl + 1);
        self.left_children.push(None);
        self.right_children.push(None);
        self.split.push(None);
        left
    }

    /// Allocate the right child of a node, one level deeper, at the next
    /// position.
    pub fn add_right(&mut self, node: usize) -> (r: usize)
        requires
            old(self).wf(),
            node < old(self).size_spec(),
        ensures
            final(self).wf(),
            r == old(self).size_spec(),
            final(self).size_spec() == old(self).size_spec() + 1,
            final(self).level@ == old(self).level@.push(
                (old(self).level@[node as int] + 1) as usize,
            ),
            final(self).right_children@ == old(self).right_children@.update(
                node as int,
                Some(r),
            ).push(None),
            final(self).left_children@ == old(self).left_children@.push(None),
            final(self).split@ == old(self).split@.push(None),
    {
        let right = self.level.len();
        self.right_children.set(node, Some(right));
        let lvl = self.level[node];
        self.level.push(lvl + 1);
        self.left_children.push(None);
        self.right_children.push(None);
        self.split.push(None);
        right
    }

    /// A node without a left child is a leaf.
    pub fn is_leaf(&self, n: usize) -> (r: bool)
        requires
            self.wf(),
            n < self.size_spec(),
        ensures
            r == (self.left_children@[n as int] is None),
    {
        self.left_children[n].is_none()
    }

    /// Depth of a node.
    pub fn depth(&self, n: usize) -> (r: usize)
        requires
            self.wf(),
            n < self.size_spec(),
        ensures
            r == self.level@[n as int],
    {
        self.level[n]
    }

    /// Number of nodes.
    pub fn size(&self) -> (r: usize)
        ensures
            r == self.size_spec(),
    {
        self.level.len()
    }

    /// Copy of the split record of a node, if any.
    pub fn get_split_info(&self, node: usize) -> (r: Option<SplitInfo>)
        requires
            self.wf(),
            node < self.size_spec(),
        ensures
            r is Some <==> self.split@[node as int] is Some,
            r is Some ==> split_eq(r.unwrap(), self.split@[node as int].unwrap()),
    {
        match &self.split[node] {
            Some(info) => Some(duplicate_split(info)),
            None => None,
        }
    }

    /// Per-treatment uplift at a leaf: the first summary column, each
    /// non-control entry less the control entry.
    pub fn get_uplift(&self, node: usize) -> (r: Vec<i64>)
        requires
            self.wf(),
            node < self.size_spec(),
            self.split@[node as int] is Some,
            self.split@[node as int].unwrap().summary_ok(),
        ensures
            ({
                let summary = self.split@[node as int].unwrap().summary;
                &&& r@.len() == summary@.len() - 1
                &&& forall|i: int|
                    0 <= i < r@.len() ==> (#[trigger] r@[i]) as int == clip(
                        summary@[i + 1]@[0] - summary@[0]@[0],
                    )
            }),
    {
        let info = match &self.split[node] {
            Some(v) => v,
            None => {
                return Vec::new();
            },
        };
        let base = info.summary[0][0];
        let n = info.summary.len();
        let mut uplift: Vec<i64> = Vec::new();
        let mut i: usize = 1;
        while i < n
            invariant
                n == info.summary@.len(),
                info.summary_ok(),
                base == info.summary@[0]@[0],
                1 <= i <= n || (n == 1 && i == 1),
                uplift@.len() == i - 1,
                forall|k: int|
                    0 <= k < uplift@.len() ==> (#[trigger] uplift@[k]) as int == clip(
                        info.summary@[k + 1]@[0] - info.summary@[0]@[0],
                    ),
            decreases n - i,
        {
            uplift.push(fsub(info.summary[i][0], base));
            i = i + 1;
        }
        uplift
    }
}

/// Field-wise equality of two split records, over the views of their
/// vectors.
pub open spec fn split_eq(a: SplitInfo, b: SplitInfo) -> bool {
    &&& a.node_id == b.node_id
    &&& a.feature_id == b.feature_id
    &&& a.treatment_id == b.treatment_id
    &&& a.iscat == b.iscat
    &&& (a.value is Some <==> b.value is Some)
    &&& a.value is Some ==> a.value.unwrap()@ == b.value.unwrap()@
    &&& a.gain == b.gain
    &&& a.gain_importance == b.gain_importance
    &&& a.summary@.map_values(|v: Vec<i64>| v@) == b.summary@.map_values(|v: Vec<i64>| v@)
}

/// An explicit deep copy of a split record.
pub fn duplicate_split(info: &SplitInfo) -> (r: SplitInfo)
    ensures
        split_eq(r, *info),
        info.summary_ok() ==> r.summary_ok(),
{
    let value: Option<Vec<u8>> = match &info.value {
        Some(v) => {
            let mut out: Vec<u8> = Vec::new();
            let n = v.len();
            let mut i: usize = 0;
            while i < n
                invariant
                    n == v@.len(),
                    i <= n,
                    out@.len() == i,
                    forall|k: int| 0 <= k < i ==> #[trigger] out@[k] == v@[k],
                decreases n - i,
            {
                out.push(v[i]);
                i = i + 1;
            }
            proof {
                assert(out@ =~= v@);
            }
            Some(out)
        },
        None => None,
    };
    let mut summary: Vec<Vec<i64>> = Vec::new();
    let n = info.summary.len();
    let mut i: usize = 0;
    while i < n
        invariant
            n == info.summary@.len(),
            i <= n,
            summary@.len() == i,
            forall|k: int| 0 <= k < i ==> #[trigger] summary@[k]@ == info.summary@[k]@,
        decreases n - i,
    {
        let src = &info.summary[i];
        let mut row: Vec<i64> = Vec::new();
        let mm = src.len();
        let mut j: usize = 0;
        while j < mm
            invariant
                mm == src@.len(),
                j <= mm,
                row@.len() == j,
                forall|k: int| 0 <= k < j ==> #[trigger] row@[k] == src@[k],
            decreases mm - j,
        {
            row.push(src[j]);
            j = j + 1;
        }
        proof {
            assert(row@ =~= src@);
        }
        summary.push(row);
        i = i + 1;
    }
    proof {
        let ma = summary@.map_values(|v: Vec<i64>| v@);
        let mb = info.summary@.map_values(|v: Vec<i64>| v@);
        assert forall|k: int| 0 <= k < n implies ma[k] == mb[k] by {
            assert(ma[k] == summary@[k]@);
            assert(mb[k] == info.summary@[k]@);
        }
        assert(ma =~= mb);
        if info.summary_ok() {
            assert forall|g: int|
                0 <= g < summary@.len() implies (#[trigger] summary@[g])@.len() >= 1 by {
                assert(summary@[g]@ == info.summary@[g]@);
            }
            assert forall|g: int, j: int|
                0 <= g < summary@.len() && 0 <= j < summary@[g]@.len() implies fix_wf(
                (#[trigger] summary@[g]@[j]) as int,
            ) by {
                assert(summary@[g]@ == info.summary@[g]@);
            }
        }
    }
    SplitInfo {
        node_id: info.node_id,
        feature_id: info.feature_id,
        treatment_id: info.treatment_id,
        iscat: info.iscat,
        value,
        gain: info.gain,
        gain_importance: info.gain_importance,
        summary,
    }
}

} // verus!
