//! Training configuration shared by every tree of a forest.

use vstd::prelude::*;
use crate::fixed::SCALE;

verus! {

/// All options of a forest. Column selections are by name; `alpha` and
/// `subsample` are fixed-point values (see [`crate::fixed::SCALE`]).
#[derive(Clone, Debug)]
pub struct TreeConfig {
    pub index_cols: Vec<String>,
    pub feature_cols: Vec<String>,
    pub cat_cols: Vec<String>,
    pub treatment_cols: Vec<String>,
    pub y_col: String,
    pub weight_col: String,
    pub n_bin: usize,
    pub min_samples_leaf: usize,
    pub min_samples_treatment: usize,
    pub n_reg: usize,
    pub alpha: i64,
    pub normalization: bool,
    pub max_features: usize,
    pub max_depth: usize,
    pub n_tree: usize,
    pub subsample: i64,
    pub n_thread: usize,
    pub seed: Option<u64>,
}

impl TreeConfig {
    /// Bounds under which every training computation stays in range: a bin
    /// count the code type can hold, regularization terms that fit the
    /// fixed-point range, a subsample share of at most one, and at least one
    /// feature drawn per node.
    pub open spec fn wf(self) -> bool {
        &&& 1 <= self.n_bin < 255
        &&& 0 <= self.alpha <= SCALE
        &&& 0 <= self.subsample <= SCALE
        &&& self.min_samples_leaf <= 0x4000_0000
        &&& self.min_samples_treatment <= 0x4000_0000
        &&& self.n_reg <= 0x4000_0000
        &&& self.max_features >= 1
    }
}

} // verus!
