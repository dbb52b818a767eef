//! The two split criteria behind one dispatching type, so a tree grower can
//! hold either.

use vstd::prelude::*;
use crate::dmatrix::DMatrix;
use crate::kl::KLStrategy;
use crate::regression::RegressionStrategy;
use crate::split_info::SplitInfo;

verus! {

#[derive(Clone, Copy, Debug)]
pub enum Strategy {
    Kl(KLStrategy),
    Reg(RegressionStrategy),
}

impl Strategy {
    pub open spec fn wf(self) -> bool {
        match self {
            Strategy::Kl(s) => s.wf(),
            Strategy::Reg(s) => s.wf(),
        }
    }

    /// What the criterion asks of a training matrix: binary responses for
    /// the divergence criterion, a control and a treatment group for the
    /// regression criterion.
    pub open spec fn fits(self, m: DMatrix) -> bool {
        match self {
            Strategy::Kl(s) => m.classification_ok(),
            Strategy::Reg(s) => m.treatment_size@[0] >= 2,
        }
    }

    /// Everything the chosen criterion promises of the record it emits for
    /// one node and feature.
    pub open spec fn describes(
        self,
        m: DMatrix,
        idx: Seq<usize>,
        node_id: int,
        feature_id: int,
        r: SplitInfo,
    ) -> bool {
        match self {
            Strategy::Kl(s) => s.split_describes(m, idx, node_id, feature_id, r),
            Strategy::Reg(s) => s.split_describes(m, idx, node_id, feature_id, r),
        }
    }

    /// Score one feature at one node. The record either carries the winning
    /// boundary with a strictly positive gain, or marks the node a leaf; the
    /// exact gain semantics are stated on the concrete criteria.
    pub fn find_best_split(
        &self,
        m: &DMatrix,
        node_id: usize,
        feature_id: usize,
        indices: &Vec<usize>,
    ) -> (r: SplitInfo)
        requires
            self.wf(),
            m.wf(),
            self.fits(*m),
            feature_id < m.n_features(),
            forall|k: int| 0 <= k < indices@.len() ==> #[trigger] indices@[k] < m.rows(),
            indices@.len() <= crate::dmatrix::MAX_ROWS,
        ensures
            r.node_id == node_id,
            r.feature_id == feature_id,
            r.summary_ok(),
            r.value is Some ==> r.gain > 0 && r.value.unwrap()@.len() == 1,
            r.value is Some ==> (r.value.unwrap()@[0] as int) < m.bin_size@[feature_id as int],
            self.describes(*m, indices@, node_id as int, feature_id as int, r),
    {
        match self {
            Strategy::Kl(s) => s.find_best_split(m, node_id, feature_id, indices),
            Strategy::Reg(s) => s.find_best_split(m, node_id, feature_id, indices),
        }
    }
}

} // verus!
