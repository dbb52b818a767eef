//! The tree grower and the per-tree predictor: recursive splitting
//! coordinated with the shared index partition.

use vstd::prelude::*;
use vstd::pervasive::unreached;
use crate::config::TreeConfig;
use crate::dmatrix::{DMatrix, MAX_ROWS};
use crate::partition::Partition;
use crate::random::Random;
use crate::split_info::SplitInfo;
use crate::strategy::Strategy;
use crate::tree::Tree;

verus! {

/// Swapping two positions preserves a sequence's multiset.
proof fn lemma_swap_multiset(s: Seq<usize>, i: int, j: int)
    requires
        0 <= i < s.len(),
        0 <= j < s.len(),
    ensures
        s.update(i, s[j]).update(j, s[i]).to_multiset() == s.to_multiset(),
{
    broadcast use vstd::seq_lib::group_to_multiset_ensures;
    broadcast use vstd::seq_lib::to_multiset_update;

    if i == j {
        assert(s.update(i, s[j]).update(j, s[i]) =~= s);
    } else {
        let s1 = s.update(i, s[j]);
        assert(s1[j] == s[j]);
        assert(s1.update(j, s[i]).to_multiset() == s1.to_multiset().insert(s[i]).remove(
            s1[j],
        ));
        assert(s1.to_multiset() == s.to_multiset().insert(s[j]).remove(s[i]));
        assert(s.to_multiset().contains(s[i]));
        assert(s.to_multiset().insert(s[j]).remove(s[i]).insert(s[i]).remove(s[j])
            =~= s.to_multiset());
    }
}

/// Rewriting one contiguous range with a multiset-equal sequence keeps the
/// whole sequence's multiset: the rows of the tree never change, only their
/// order.
proof fn lemma_patch_multiset(s1: Seq<usize>, s2: Seq<usize>, st: int, sz: int)
    requires
        s1.len() == s2.len(),
        0 <= st,
        0 <= sz,
        st + sz <= s1.len(),
        forall|k: int| 0 <= k < s1.len() && !(st <= k < st + sz) ==> s1[k] == #[trigger] s2[k],
        s1.subrange(st, st + sz).to_multiset() == s2.subrange(st, st + sz).to_multiset(),
    ensures
        s1.to_multiset() == s2.to_multiset(),
{
    broadcast use vstd::seq_lib::group_to_multiset_ensures;

    let pre1 = s1.subrange(0, st);
    let mid1 = s1.subrange(st, st + sz);
    let suf1 = s1.subrange(st + sz, s1.len() as int);
    let pre2 = s2.subrange(0, st);
    let mid2 = s2.subrange(st, st + sz);
    let suf2 = s2.subrange(st + sz, s2.len() as int);
    assert(pre1 =~= pre2);
    assert(suf1 =~= suf2);
    assert(s1 =~= pre1 + mid1 + suf1);
    assert(s2 =~= pre2 + mid2 + suf2);
    vstd::seq_lib::lemma_multiset_commutative(pre1 + mid1, suf1);
    vstd::seq_lib::lemma_multiset_commutative(pre1, mid1);
    vstd::seq_lib::lemma_multiset_commutative(pre2 + mid2, suf2);
    vstd::seq_lib::lemma_multiset_commutative(pre2, mid2);
    assert(s1.to_multiset() =~= s2.to_multiset());
}

/// Whether a row goes left of a continuous boundary: its code under the
/// feature is present and at most the threshold.
pub open spec fn goes_left_cont(m: DMatrix, f: int, row: int, threshold: u8) -> bool {
    &&& m.feature@[f]@[row] is Some
    &&& m.feature@[f]@[row].unwrap() <= threshold
}

/// Whether a row goes left of a categorical boundary: its code equals the
/// chosen category.
pub open spec fn goes_left_cat(m: DMatrix, f: int, row: int, threshold: u8) -> bool {
    &&& m.feature@[f]@[row] is Some
    &&& m.feature@[f]@[row].unwrap() == threshold
}

/// Reorder one node's rows by a feature's bin codes, missing last, and
/// count the left prefix up to the stored boundary: rows whose code is
/// present and at most the threshold go left.
fn split_cont(
    m: &DMatrix,
    p: &mut Partition,
    node: usize,
    feature_id: usize,
    threshold: u8,
) -> (r: usize)
    requires
        m.wf(),
        feature_id < m.n_features(),
        threshold <= 254,
        old(p).wf(),
        node < old(p).n_nodes(),
        forall|k: int| 0 <= k < old(p).data_ids@.len() ==> #[trigger] old(p).data_ids@[k]
            < m.rows(),
    ensures
        final(p).wf(),
        final(p).n_nodes() == old(p).n_nodes(),
        final(p).start@ == old(p).start@,
        final(p).size@ == old(p).size@,
        final(p).data_ids@.len() == old(p).data_ids@.len(),
        forall|k: int| 0 <= k < final(p).data_ids@.len() ==> #[trigger] final(p).data_ids@[k]
            < m.rows(),
        final(p).node_seq(node as int).to_multiset() == old(p).node_seq(
            node as int,
        ).to_multiset(),
        final(p).data_ids@.to_multiset() == old(p).data_ids@.to_multiset(),
        final(p).node_seq(node as int) == m.ins_sort(
            feature_id as int,
            old(p).node_seq(node as int),
        ),
        forall|j: int|
            0 <= j < final(p).data_ids@.len() && !(old(p).start@[node as int] <= j < old(
                p,
            ).start@[node as int] + old(p).size@[node as int]) ==> final(p).data_ids@[j]
                == #[trigger] old(p).data_ids@[j],
        r <= old(p).size@[node as int],
        forall|t: int|
            0 <= t < r ==> goes_left_cont(
                *m,
                feature_id as int,
                #[trigger] final(p).node_seq(node as int)[t] as int,
                threshold,
            ),
        forall|t: int|
            r <= t < old(p).size@[node as int] ==> !goes_left_cont(
                *m,
                feature_id as int,
                #[trigger] final(p).node_seq(node as int)[t] as int,
                threshold,
            ),
{
    proof {
        assert(p.start@[node as int] + p.size@[node as int] <= p.data_ids@.len());
    }
    let mut indices = p.get_indices(node);
    proof {
        let ns = p.node_seq(node as int);
        assert forall|k: int| 0 <= k < ns.len() implies #[trigger] ns[k] < m.rows() by {
            assert(ns[k] == p.data_ids@[p.start@[node as int] + k]);
        }
    }
    m.sort_index(feature_id, &mut indices);
    p.set_indices(node, &indices);
    proof {
        let st = p.start@[node as int] as int;
        let sz = p.size@[node as int] as int;
        assert forall|k: int|
            0 <= k < p.data_ids@.len() implies #[trigger] p.data_ids@[k] < m.rows() by {
            if st <= k < st + sz {
                assert(p.node_seq(node as int)[k - st] == p.data_ids@[k]);
                assert(p.node_seq(node as int)[k - st] == indices@[k - st]);
            } else {
                assert(p.data_ids@[k] == old(p).data_ids@[k]);
            }
        }
        assert forall|k: int|
            0 <= k < p.data_ids@.len() && !(st <= k < st + sz) implies old(p).data_ids@[k]
            == #[trigger] p.data_ids@[k] by {}
        lemma_patch_multiset(old(p).data_ids@, p.data_ids@, st, sz);
    }
    let len = indices.len();
    let mut i: usize = 0;
    while i < len
        invariant
            m.wf(),
            feature_id < m.n_features(),
            threshold <= 254,
            len == indices@.len(),
            forall|k: int| 0 <= k < len ==> #[trigger] indices@[k] < m.rows(),
            i <= len,
            p.wf(),
            p.n_nodes() == old(p).n_nodes(),
            p.start@ == old(p).start@,
            p.size@ == old(p).size@,
            p.data_ids@.len() == old(p).data_ids@.len(),
            forall|k: int| 0 <= k < p.data_ids@.len() ==> #[trigger] p.data_ids@[k] < m.rows(),
            p.node_seq(node as int).to_multiset() == old(p).node_seq(node as int).to_multiset(),
            p.data_ids@.to_multiset() == old(p).data_ids@.to_multiset(),
            p.node_seq(node as int) == m.ins_sort(feature_id as int, old(p).node_seq(node as int)),
            p.node_seq(node as int) == indices@,
            forall|j: int|
                0 <= j < p.data_ids@.len() && !(old(p).start@[node as int] <= j < old(
                    p,
                ).start@[node as int] + old(p).size@[node as int]) ==> p.data_ids@[j]
                    == #[trigger] old(p).data_ids@[j],
            node < p.n_nodes(),
            len == p.size@[node as int],
            forall|t: int|
                0 <= t < i ==> goes_left_cont(
                    *m,
                    feature_id as int,
                    #[trigger] indices@[t] as int,
                    threshold,
                ),
        decreases len - i,
    {
        let idx = indices[i];
        match m.get(feature_id, idx) {
            None => {
                proof {
                    lemma_sorted_suffix_right(*m, *p, node as int, feature_id as int, indices@,
                        old(p).node_seq(node as int), threshold, i as int);
                }
                return i;
            },
            Some(code) => {
                if code > threshold {
                    proof {
                        lemma_sorted_suffix_right(*m, *p, node as int, feature_id as int,
                            indices@, old(p).node_seq(node as int), threshold, i as int);
                    }
                    return i;
                }
            },
        }
        i = i + 1;
    }
    i
}

/// In the sorted order, once one row fails to go left, every later row
/// fails too: its key is at least the failing row's, which exceeds the
/// threshold.
proof fn lemma_sorted_suffix_right(
    m: DMatrix,
    p: Partition,
    node: int,
    f: int,
    sorted: Seq<usize>,
    input: Seq<usize>,
    threshold: u8,
    i: int,
)
    requires
        m.wf(),
        0 <= f < m.n_features(),
        threshold <= 254,
        sorted == m.ins_sort(f, input),
        0 <= i < sorted.len(),
        forall|k: int| 0 <= k < sorted.len() ==> #[trigger] sorted[k] < m.rows(),
        !goes_left_cont(m, f, sorted[i] as int, threshold),
    ensures
        forall|t: int|
            i <= t < sorted.len() ==> !goes_left_cont(
                m,
                f,
                #[trigger] sorted[t] as int,
                threshold,
            ),
{
    m.lemma_ins_sort_sorted(f, input);
    assert(m.code_key(f, sorted[i] as int) > threshold as int);
    assert forall|t: int|
        i <= t < sorted.len() implies !goes_left_cont(m, f, #[trigger] sorted[t] as int, threshold) by {
        assert(m.code_key(f, sorted[t] as int) >= m.code_key(f, sorted[i] as int));
    }
}

/// Two-pointer partition of one node's rows: exactly the rows whose code
/// equals the stored category end up in the left part, everything else
/// (missing included) in the right; the size of the left part is returned.
fn split_cat(
    m: &DMatrix,
    p: &mut Partition,
    node: usize,
    feature_id: usize,
    threshold: u8,
) -> (r: usize)
    requires
        m.wf(),
        feature_id < m.n_features(),
        old(p).wf(),
        node < old(p).n_nodes(),
        forall|k: int| 0 <= k < old(p).data_ids@.len() ==> #[trigger] old(p).data_ids@[k]
            < m.rows(),
    ensures
        final(p).wf(),
        final(p).n_nodes() == old(p).n_nodes(),
        final(p).start@ == old(p).start@,
        final(p).size@ == old(p).size@,
        final(p).data_ids@.len() == old(p).data_ids@.len(),
        forall|k: int| 0 <= k < final(p).data_ids@.len() ==> #[trigger] final(p).data_ids@[k]
            < m.rows(),
        final(p).node_seq(node as int).to_multiset() == old(p).node_seq(
            node as int,
        ).to_multiset(),
        final(p).data_ids@.to_multiset() == old(p).data_ids@.to_multiset(),
        r <= old(p).size@[node as int],
        forall|t: int|
            0 <= t < r ==> goes_left_cat(
                *m,
                feature_id as int,
                #[trigger] final(p).node_seq(node as int)[t] as int,
                threshold,
            ),
        forall|t: int|
            r <= t < old(p).size@[node as int] ==> !goes_left_cat(
                *m,
                feature_id as int,
                #[trigger] final(p).node_seq(node as int)[t] as int,
                threshold,
            ),
        forall|j: int|
            0 <= j < final(p).data_ids@.len() && !(old(p).start@[node as int] <= j < old(
                p,
            ).start@[node as int] + old(p).size@[node as int]) ==> final(p).data_ids@[j]
                == #[trigger] old(p).data_ids@[j],
{
    proof {
        assert(p.start@[node as int] + p.size@[node as int] <= p.data_ids@.len());
    }
    let mut indices = p.get_indices(node);
    proof {
        let ns = p.node_seq(node as int);
        assert forall|k: int| 0 <= k < ns.len() implies #[trigger] ns[k] < m.rows() by {
            assert(ns[k] == p.data_ids@[p.start@[node as int] + k]);
        }
    }
    let len = indices.len();
    if len == 0 {
        return 0;
    }
    let ghost orig: Seq<usize> = indices@;
    let mut start: usize = 0;
    let mut end: usize = len - 1;
    while start < end
        invariant
            m.wf(),
            feature_id < m.n_features(),
            len == indices@.len(),
            forall|k: int| 0 <= k < len ==> #[trigger] indices@[k] < m.rows(),
            indices@.to_multiset() == orig.to_multiset(),
            start <= end < len,
            forall|t: int|
                0 <= t < start ==> goes_left_cat(
                    *m,
                    feature_id as int,
                    #[trigger] indices@[t] as int,
                    threshold,
                ),
            forall|t: int|
                end < t < len ==> !goes_left_cat(
                    *m,
                    feature_id as int,
                    #[trigger] indices@[t] as int,
                    threshold,
                ),
        decreases end - start,
    {
        let left_idx = indices[start];
        let left_value = m.get(feature_id, left_idx);
        let right_idx = indices[end];
        let right_value = m.get(feature_id, right_idx);

        let left_matches = match left_value {
            Some(v) => v == threshold,
            None => false,
        };
        if left_matches {
            start = start + 1;
            continue ;
        }
        let right_matches = match right_value {
            Some(v) => v == threshold,
            None => false,
        };
        if !right_matches {
            end = end - 1;
            continue ;
        }
        proof {
            lemma_swap_multiset(indices@, start as int, end as int);
        }
        let x = indices[start];
        let y = indices[end];
        indices.set(start, y);
        indices.set(end, x);
        start = start + 1;
        if end > start {
            end = end - 1;
        }
    }
    // the two pointers met: classify the meeting row as well, so the left
    // block holds exactly the rows of the chosen category
    let meet = indices[start];
    let meet_matches = match m.get(feature_id, meet) {
        Some(v) => v == threshold,
        None => false,
    };
    let left_size = if meet_matches {
        start + 1
    } else {
        start
    };
    p.set_indices(node, &indices);
    proof {
        let st = p.start@[node as int] as int;
        let sz = p.size@[node as int] as int;
        assert forall|k: int|
            0 <= k < p.data_ids@.len() implies #[trigger] p.data_ids@[k] < m.rows() by {
            if st <= k < st + sz {
                assert(p.node_seq(node as int)[k - st] == p.data_ids@[k]);
                assert(p.node_seq(node as int)[k - st] == indices@[k - st]);
            } else {
                assert(p.data_ids@[k] == old(p).data_ids@[k]);
            }
        }
        assert forall|k: int|
            0 <= k < p.data_ids@.len() && !(st <= k < st + sz) implies old(p).data_ids@[k]
            == #[trigger] p.data_ids@[k] by {}
        lemma_patch_multiset(old(p).data_ids@, p.data_ids@, st, sz);
    }
    left_size
}

/// The keep-best rule over candidate records, in order: the first record
/// starts as best; an unscored record never replaces a scored one, a scored
/// record replaces an unscored best, and among scored records a strictly
/// larger gain wins, the earlier candidate keeping ties.
pub open spec fn fold_choice(cands: Seq<SplitInfo>) -> SplitInfo
    decreases cands.len(),
{
    if cands.len() <= 1 {
        cands[0]
    } else {
        let best = fold_choice(cands.drop_last());
        let c = cands.last();
        if c.value is Some && (best.value is None || c.gain > best.gain) {
            c
        } else {
            best
        }
    }
}

/// Each candidate record is the criterion's specified result for its drawn
/// feature, over the node's rows.
pub open spec fn chosen_over(
    strategy: Strategy,
    m: DMatrix,
    idx: Seq<usize>,
    node_id: int,
    ids: Seq<usize>,
    cands: Seq<SplitInfo>,
) -> bool {
    &&& cands.len() == ids.len()
    &&& forall|i: int|
        0 <= i < ids.len() ==> strategy.describes(
            m,
            idx,
            node_id,
            ids[i] as int,
            #[trigger] cands[i],
        )
}

/// The record is the keep-best fold of the criterion's results over some
/// admissible draw: as many distinct valid feature ids as the configuration
/// allows.
#[verifier::opaque]
pub open spec fn best_over_draw(
    strategy: Strategy,
    m: DMatrix,
    idx: Seq<usize>,
    node_id: int,
    max_features: int,
    r: SplitInfo,
) -> bool {
    exists|ids: Seq<usize>, cands: Seq<SplitInfo>|
        {
            &&& ids.len() == (if m.n_features() < max_features {
                m.n_features()
            } else {
                max_features
            })
            &&& (forall|i: int| 0 <= i < ids.len() ==> (#[trigger] ids[i]) < m.n_features())
            &&& (forall|i: int, j: int| 0 <= i < j < ids.len() ==> ids[i] != ids[j])
            &&& #[trigger] chosen_over(strategy, m, idx, node_id, ids, cands)
            &&& r == fold_choice(cands)
        }
}

/// What training one tree guarantees: a grown, fully recorded tree whose
/// root record is the specified best over a feature draw, taken on a row
/// subsample of the configured share whose rows the partition still
/// carries.
pub open spec fn fitted(l: TreeLearn, m: DMatrix, conf: TreeConfig) -> bool {
    &&& l.tree.wf()
    &&& l.tree.paired()
    &&& l.tree.trained()
    &&& l.max_depth == conf.max_depth
    &&& l.max_features == conf.max_features
    &&& forall|i: int|
        0 <= i < l.tree.size_spec() ==> #[trigger] l.tree.shaped(i, l.max_depth as int)
    &&& l.partition.data_ids@.len() == (m.rows() * (conf.subsample as int)) / (
    crate::fixed::SCALE as int)
    &&& l.tree.split@[0] is Some
    &&& exists|sub: Seq<usize>|
        {
            &&& sub.len() == (m.rows() * (conf.subsample as int)) / (crate::fixed::SCALE as int)
            &&& (forall|k: int| 0 <= k < sub.len() ==> (#[trigger] sub[k]) < m.rows())
            &&& l.partition.data_ids@.to_multiset() == sub.to_multiset()
            &&& #[trigger] best_over_draw(
                l.strategy,
                m,
                sub,
                0,
                l.max_features as int,
                l.tree.split@[0].unwrap(),
            )
        }
}

#[derive(Debug)]
pub struct TreeLearn {
    pub max_features: usize,
    pub max_depth: usize,
    pub partition: Partition,
    pub tree: Tree,
    pub strategy: Strategy,
    pub conf: TreeConfig,
}

impl TreeLearn {
    /// The grower's running invariant against a matrix: a well-formed tree
    /// and partition covering the same nodes, row indices inside the
    /// matrix, and a criterion that fits it.
    pub open spec fn wf_for(self, m: DMatrix) -> bool {
        &&& self.tree.wf()
        &&& self.partition.wf()
        &&& self.partition.n_nodes() == self.tree.size_spec()
        &&& self.partition.data_ids@.len() <= MAX_ROWS
        &&& forall|k: int|
            0 <= k < self.partition.data_ids@.len() ==> #[trigger] self.partition.data_ids@[k]
                < m.rows()
        &&& self.strategy.wf()
        &&& self.strategy.fits(m)
        &&& self.max_features >= 1
    }

    /// A fresh learner for one tree.
    pub fn new(conf: &TreeConfig, strategy: Strategy) -> (r: TreeLearn)
        requires
            conf.wf(),
            strategy.wf(),
        ensures
            r.max_features == conf.max_features,
            r.max_depth == conf.max_depth,
            r.tree.size_spec() == 1,
            r.tree.wf(),
            r.tree.paired(),
            r.partition.n_nodes() == 0,
            r.partition.data_ids@.len() == 0,
            r.strategy == strategy,
            r.strategy.wf(),
            r.max_features >= 1,
    {
        TreeLearn {
            max_features: conf.max_features,
            max_depth: conf.max_depth,
            partition: Partition::new(),
            tree: Tree::new(),
            strategy,
            conf: conf.clone(),
        }
    }

    /// Score the node under a freshly drawn feature subset and keep the
    /// best record: an unscored record loses to any scored one, and among
    /// scored ones the larger gain wins, earlier features keeping ties.
    fn find_best_split(&self, n: usize, m: &DMatrix, random: &mut Random) -> (r: SplitInfo)
        requires
            self.wf_for(*m),
            m.wf(),
            n < self.tree.size_spec(),
        ensures
            r.node_id == n,
            r.feature_id < m.n_features(),
            r.summary_ok(),
            r.value is Some ==> r.gain > 0 && r.value.unwrap()@.len() == 1 && (
            r.value.unwrap()@[0] as int) < m.bin_size@[r.feature_id as int],
            best_over_draw(
                self.strategy,
                *m,
                self.partition.node_seq(n as int),
                n as int,
                self.max_features as int,
                r,
            ),
    {
        let n_feature = m.n_feature();
        let k = if n_feature < self.max_features {
            n_feature
        } else {
            self.max_features
        };
        let feature_ids = random.sample(n_feature, k, false);

        let indices = self.partition.get_indices(n);
        proof {
            let ns = self.partition.node_seq(n as int);
            assert(self.partition.start@[n as int] + self.partition.size@[n as int]
                <= self.partition.data_ids@.len());
            assert forall|t: int| 0 <= t < ns.len() implies #[trigger] ns[t] < m.rows() by {
                assert(ns[t] == self.partition.data_ids@[self.partition.start@[n as int] + t]);
            }
        }

        let mut best_split: Option<SplitInfo> = None;
        let ghost mut gcands: Seq<SplitInfo> = Seq::empty();
        let nf = feature_ids.len();
        let mut i: usize = 0;
        while i < nf
            invariant
                self.wf_for(*m),
                m.wf(),
                n < self.tree.size_spec(),
                nf == feature_ids@.len(),
                forall|t: int| 0 <= t < nf ==> #[trigger] feature_ids@[t] < m.n_features(),
                indices@.len() <= MAX_ROWS,
                forall|t: int| 0 <= t < indices@.len() ==> #[trigger] indices@[t] < m.rows(),
                indices@ == self.partition.node_seq(n as int),
                i <= nf,
                gcands.len() == i,
                chosen_over(
                    self.strategy,
                    *m,
                    indices@,
                    n as int,
                    feature_ids@.subrange(0, i as int),
                    gcands,
                ),
                i == 0 ==> best_split is None,
                i >= 1 ==> best_split is Some,
                i >= 1 ==> best_split == Some(fold_choice(gcands)),
                match best_split {
                    Some(b) => b.node_id == n && b.feature_id < m.n_features()
                        && b.summary_ok() && (b.value is Some ==> b.gain > 0
                        && b.value.unwrap()@.len() == 1 && (b.value.unwrap()@[0] as int)
                        < m.bin_size@[b.feature_id as int]),
                    None => true,
                },
            decreases nf - i,
        {
            let feature_id = feature_ids[i];
            let split_info = self.strategy.find_best_split(m, n, feature_id, &indices);
            let ghost prev: Seq<SplitInfo> = gcands;
            let ghost ginfo: SplitInfo = split_info;
            proof {
                gcands = prev.push(split_info);
                assert(gcands.drop_last() =~= prev);
                assert(gcands.subrange(0, i as int) =~= prev);
                assert(feature_ids@.subrange(0, i + 1).drop_last() =~= feature_ids@.subrange(
                    0,
                    i as int,
                ));
            }

            match &best_split {
                None => {
                    best_split = Some(split_info);
                    proof {
                        assert(fold_choice(gcands) == gcands[0]);
                        assert(gcands[0] == ginfo);
                    }
                },
                Some(best) => {
                    proof {
                        assert(gcands.len() >= 2);
                        assert(fold_choice(gcands) == (if ginfo.value is Some && (
                        fold_choice(prev).value is None || ginfo.gain > fold_choice(prev).gain) {
                            ginfo
                        } else {
                            fold_choice(prev)
                        }));
                    }
                    if split_info.value.is_some() {
                        if best.value.is_none() {
                            best_split = Some(split_info);
                        } else if split_info.gain > best.gain {
                            best_split = Some(split_info);
                        }
                    }
                },
            }
            i = i + 1;
        }
        proof {
            reveal(best_over_draw);
            assert(feature_ids@.subrange(0, nf as int) =~= feature_ids@);
            assert(chosen_over(self.strategy, *m, indices@, n as int, feature_ids@, gcands));
        }
        match best_split {
            Some(b) => b,
            None => unreached(),
        }
    }

    /// Grow the subtree under node `n`: attach the node's best record — the
    /// keep-best fold of the criterion's specified results over an
    /// admissible feature draw, taken on the node's rows — and while a
    /// boundary was chosen and the depth allows, allocate both children,
    /// partition the node's rows in place by the boundary, and recurse into
    /// both halves.
    #[verifier::rlimit(100)]
    pub fn grow_tree(&mut self, n: usize, m: &DMatrix, conf: &TreeConfig, random: &mut Random)
        requires
            old(self).wf_for(*m),
            old(self).tree.paired(),
            m.wf(),
            n < old(self).tree.size_spec(),
            old(self).tree.level@[n as int] <= old(self).max_depth,
            old(self).tree.split@[n as int] is None,
            old(self).tree.left_children@[n as int] is None,
            old(self).tree.right_children@[n as int] is None,
        ensures
            final(self).wf_for(*m),
            final(self).tree.paired(),
            final(self).tree.size_spec() >= old(self).tree.size_spec(),
            final(self).max_depth == old(self).max_depth,
            final(self).max_features == old(self).max_features,
            final(self).strategy == old(self).strategy,
            final(self).partition.data_ids@.len() == old(self).partition.data_ids@.len(),
            final(self).partition.data_ids@.to_multiset() == old(
                self,
            ).partition.data_ids@.to_multiset(),
            forall|i: int|
                0 <= i < old(self).tree.size_spec() ==> final(self).tree.level@[i] == old(
                    self,
                ).tree.level@[i],
            forall|i: int|
                0 <= i < old(self).tree.size_spec() && i != n ==> final(self).tree.split@[i]
                    == old(self).tree.split@[i],
            forall|i: int|
                0 <= i < old(self).tree.size_spec() && i != n
                    ==> final(self).tree.left_children@[i] == old(self).tree.left_children@[i]
                    && final(self).tree.right_children@[i] == old(self).tree.right_children@[i],
            forall|i: int|
                0 <= i < old(self).tree.size_spec() && old(self).tree.node_done(i)
                    ==> final(self).tree.node_done(i),
            final(self).tree.node_done(n as int),
            forall|i: int|
                old(self).tree.size_spec() <= i < final(self).tree.size_spec()
                    ==> final(self).tree.node_done(i),
            final(self).tree.split@[n as int] is Some,
            best_over_draw(
                old(self).strategy,
                *m,
                old(self).partition.node_seq(n as int),
                n as int,
                old(self).max_features as int,
                final(self).tree.split@[n as int].unwrap(),
            ),
            final(self).tree.left_children@[n as int] is Some <==> (final(self).tree.split@[
                n as int
            ].unwrap().value is Some && old(self).tree.level@[n as int] < old(self).max_depth),
            final(self).tree.shaped(n as int, old(self).max_depth as int),
            forall|i: int|
                old(self).tree.size_spec() <= i < final(self).tree.size_spec()
                    ==> final(self).tree.shaped(i, old(self).max_depth as int),
            forall|i: int|
                0 <= i < old(self).tree.size_spec() && i != n && old(self).tree.shaped(
                    i,
                    old(self).max_depth as int,
                ) ==> final(self).tree.shaped(i, old(self).max_depth as int),
        decreases self.max_depth - self.tree.level@[n as int],
    {
        let split_info = self.find_best_split(n, m, random);
        let has_value = split_info.value.is_some();
        let feature_id = split_info.feature_id;
        let iscat = split_info.iscat;
        let threshold: u8 = match &split_info.value {
            Some(v) => v[0],
            None => 0,
        };
        self.tree.add_split(n, split_info);

        if !has_value {
            return ;
        }
        let d = self.tree.depth(n);
        if d >= self.max_depth {
            return ;
        }

        let left_index = self.tree.add_left(n);
        let right_index = self.tree.add_right(n);

        proof {
            assert(threshold <= 254);
        }
        let left_size = if iscat {
            split_cat(m, &mut self.partition, n, feature_id, threshold)
        } else {
            split_cont(m, &mut self.partition, n, feature_id, threshold)
        };
        self.partition.split(n, left_size);

        self.grow_tree(left_index, m, conf, random);
        self.grow_tree(right_index, m, conf, random);
    }

    /// Train one tree: subsample rows with replacement by the configured
    /// share, put them in a fresh root partition, and grow from the root.
    pub fn fit(&mut self, m: &DMatrix, conf: &TreeConfig, random: &mut Random)
        requires
            old(self).strategy.wf(),
            old(self).strategy.fits(*m),
            old(self).max_features >= 1,
            old(self).max_depth == conf.max_depth,
            old(self).max_features == conf.max_features,
            m.wf(),
            m.rows() >= 1,
            conf.wf(),
            0 <= conf.subsample <= crate::fixed::SCALE,
        ensures
            final(self).wf_for(*m),
            final(self).tree.paired(),
            final(self).tree.trained(),
            final(self).max_depth == old(self).max_depth,
            final(self).strategy == old(self).strategy,
            final(self).partition.data_ids@.len() == (m.rows() * (conf.subsample as int)) / (
            crate::fixed::SCALE as int),
            fitted(*final(self), *m, *conf),
    {
        let n = m.size();
        proof {
            assert(0 <= (n as int) * (conf.subsample as int) && (n as int) * (
            conf.subsample as int) <= 0x4000_0000_0000_0000) by (nonlinear_arith)
                requires
                    0 <= n as int <= 0x4000_0000,
                    0 <= conf.subsample as int <= 0x100_0000,
            ;
            assert((n as int) * (conf.subsample as int) <= (n as int) * 0x100_0000) by (
            nonlinear_arith)
                requires
                    0 <= n as int,
                    conf.subsample as int <= 0x100_0000,
            ;
            vstd::arithmetic::div_mod::lemma_div_is_ordered(
                (n as int) * (conf.subsample as int),
                (n as int) * 0x100_0000,
                0x100_0000,
            );
            vstd::arithmetic::div_mod::lemma_div_by_multiple(n as int, 0x100_0000);
        }
        let scaled: i64 = (n as i64) * conf.subsample;
        let k64: u64 = (scaled as u64) / (crate::fixed::SCALE as u64);
        let k: usize = k64 as usize;
        let ns = random.sample(n, k, true);
        let ghost gns: Seq<usize> = ns@;
        self.partition = Partition::subsample(ns);
        self.tree = Tree::new();
        self.grow_tree(0, m, conf, random);
        proof {
            assert(self.partition.data_ids@.to_multiset() == gns.to_multiset());
        }
    }
}


/// Route the rows of node `n` down the stored splits: recompute the
/// partition boundary from the node's record and hand each half to the
/// matching child range.
fn route_node(tree: &Tree, m: &DMatrix, p: &mut Partition, n: usize)
    requires
        tree.wf(),
        tree.paired(),
        tree.trained(),
        m.wf(),
        old(p).wf(),
        old(p).n_nodes() == tree.size_spec(),
        n < tree.size_spec(),
        forall|k: int| 0 <= k < old(p).data_ids@.len() ==> #[trigger] old(p).data_ids@[k]
            < m.rows(),
    ensures
        final(p).wf(),
        final(p).n_nodes() == old(p).n_nodes(),
        final(p).data_ids@.len() == old(p).data_ids@.len(),
        final(p).data_ids@.to_multiset() == old(p).data_ids@.to_multiset(),
        forall|k: int| 0 <= k < final(p).data_ids@.len() ==> #[trigger] final(p).data_ids@[k]
            < m.rows(),
    decreases tree.size_spec() - n,
{
    let left_o = tree.left_children[n];
    let left_index = match left_o {
        Some(v) => v,
        None => {
            return ;
        },
    };
    let right_index = match tree.right_children[n] {
        Some(v) => v,
        None => {
            return ;
        },
    };
    let split_info = match tree.get_split_info(n) {
        Some(v) => v,
        None => {
            return ;
        },
    };
    let threshold: u8 = match &split_info.value {
        Some(v) => {
            if v.len() == 0 {
                return ;
            }
            v[0]
        },
        None => {
            return ;
        },
    };
    let feature_id = split_info.feature_id;
    if feature_id >= m.n_feature() {
        return ;
    }
    if !split_info.iscat && threshold > 254 {
        return ;
    }

    let start = p.start[n];
    let size = p.size[n];
    let total = p.data_ids.len();
    proof {
        assert(p.start@[n as int] + p.size@[n as int] <= p.data_ids@.len());
    }
    let left_size = if split_info.iscat {
        split_cat(m, p, n, feature_id, threshold)
    } else {
        split_cont(m, p, n, feature_id, threshold)
    };
    let right_size = size - left_size;

    p.set_node_range(left_index, start, left_size);
    p.set_node_range(right_index, start + left_size, right_size);

    if left_size > 0 {
        route_node(tree, m, p, left_index);
    }
    if right_size > 0 {
        route_node(tree, m, p, right_index);
    }
}

impl TreeLearn {
    /// Predict one tree: reset the partition to the identity over all rows,
    /// route every row to its leaf, and emit each leaf's uplift vector for
    /// the rows it holds.
    pub fn predict(&self, m: &DMatrix) -> (r: Vec<Vec<i64>>)
        requires
            self.tree.wf(),
            self.tree.paired(),
            self.tree.trained(),
            m.wf(),
        ensures
            r@.len() == m.rows(),
            forall|i: int, j: int|
                0 <= i < r@.len() && 0 <= j < r@[i]@.len() ==> crate::fixed::fix_wf(
                    (#[trigger] r@[i]@[j]) as int,
                ),
    {
        let n = m.size();
        let n_nodes = self.tree.size();
        let mut partition = Partition::refresh(n, n_nodes);
        route_node(&self.tree, m, &mut partition, 0);

        let mut score: Vec<Vec<i64>> = Vec::new();
        let mut i: usize = 0;
        while i < n
            invariant
                i <= n,
                score@.len() == i,
                forall|t: int| 0 <= t < i ==> (#[trigger] score@[t])@.len() == 0,
            decreases n - i,
        {
            score.push(Vec::new());
            i = i + 1;
        }

        let mut node: usize = 0;
        while node < n_nodes
            invariant
                self.tree.wf(),
                self.tree.paired(),
                self.tree.trained(),
                m.wf(),
                partition.wf(),
                partition.n_nodes() == self.tree.size_spec(),
                partition.data_ids@.len() == m.rows(),
                forall|k: int|
                    0 <= k < partition.data_ids@.len()
                        ==> #[trigger] partition.data_ids@[k] < m.rows(),
                n_nodes == self.tree.size_spec(),
                n == m.rows(),
                node <= n_nodes,
                score@.len() == n,
                forall|t: int, j: int|
                    0 <= t < n && 0 <= j < score@[t]@.len() ==> crate::fixed::fix_wf(
                        (#[trigger] score@[t]@[j]) as int,
                    ),
            decreases n_nodes - node,
        {
            if self.tree.is_leaf(node) {
                proof {
                    assert(self.tree.node_done(node as int));
                }
                let uplift = self.tree.get_uplift(node);
                let indices = partition.get_indices(node);
                proof {
                    let ns = partition.node_seq(node as int);
                    assert(partition.start@[node as int] + partition.size@[node as int]
                        <= partition.data_ids@.len());
                    assert forall|t: int| 0 <= t < ns.len() implies #[trigger] ns[t]
                        < m.rows() by {
                        assert(ns[t] == partition.data_ids@[partition.start@[node as int] + t]);
                    }
                }
                let nk = indices.len();
                let mut ki: usize = 0;
                while ki < nk
                    invariant
                        m.wf(),
                        nk == indices@.len(),
                        forall|t: int| 0 <= t < nk ==> #[trigger] indices@[t] < m.rows(),
                        self.tree.wf(),
                        self.tree.paired(),
                        self.tree.trained(),
                        node < self.tree.size_spec(),
                        self.tree.split@[node as int] is Some,
                        ({
                            let summary = self.tree.split@[node as int].unwrap().summary;
                            uplift@.len() == summary@.len() - 1 && forall|t: int|
                                0 <= t < uplift@.len() ==> (#[trigger] uplift@[t]) as int
                                    == crate::fixed::clip(summary@[t + 1]@[0] - summary@[0]@[0])
                        }),
                        n == m.rows(),
                        ki <= nk,
                        score@.len() == n,
                        forall|t: int, j: int|
                            0 <= t < n && 0 <= j < score@[t]@.len() ==> crate::fixed::fix_wf(
                                (#[trigger] score@[t]@[j]) as int,
                            ),
                    decreases nk - ki,
                {
                    let kk = indices[ki];
                    let src = &score[kk];
                    let mut row: Vec<i64> = Vec::new();
                    let srclen = src.len();
                    let mut a: usize = 0;
                    while a < srclen
                        invariant
                            srclen == src@.len(),
                            a <= srclen,
                            row@.len() == a,
                            forall|t: int| 0 <= t < a ==> #[trigger] row@[t] == src@[t],
                        decreases srclen - a,
                    {
                        row.push(src[a]);
                        a = a + 1;
                    }
                    let nu = uplift.len();
                    let mut b: usize = 0;
                    while b < nu
                        invariant
                            nu == uplift@.len(),
                            ({
                                let summary = self.tree.split@[node as int].unwrap().summary;
                                self.tree.split@[node as int] is Some && uplift@.len()
                                    == summary@.len() - 1 && forall|t: int|
                                    0 <= t < uplift@.len() ==> (
                                    #[trigger] uplift@[t]) as int == crate::fixed::clip(
                                        summary@[t + 1]@[0] - summary@[0]@[0],
                                    )
                            }),
                            srclen == src@.len(),
                            forall|t: int| 0 <= t < srclen ==> #[trigger] row@[t] == src@[t],
                            b <= nu,
                            row@.len() == srclen + b,
                            forall|t: int|
                                srclen <= t < srclen + b ==> #[trigger] row@[t]
                                    == uplift@[t - srclen],
                        decreases nu - b,
                    {
                        row.push(uplift[b]);
                        b = b + 1;
                    }
                    proof {
                        let summary = self.tree.split@[node as int].unwrap().summary;
                        assert forall|j: int|
                            0 <= j < row@.len() implies crate::fixed::fix_wf(
                            (#[trigger] row@[j]) as int,
                        ) by {
                            if j >= srclen {
                                assert(row@[j] == uplift@[j - srclen]);
                            } else {
                                assert(row@[j] == src@[j]);
                                assert(score@[kk as int]@[j] == src@[j]);
                            }
                        }
                    }
                    score.set(kk, row);
                    ki = ki + 1;
                }
            }
            node = node + 1;
        }
        score
    }
}

} // verus!

