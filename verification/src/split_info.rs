//! The record a split strategy emits for one node: either a chosen split
//! (`value` set to the winning bin boundary or category) or a leaf
//! (`value` empty), together with its gain and the node summary that drives
//! prediction.

use vstd::prelude::*;
use crate::fixed::fix_wf;

verus! {

#[derive(Clone, Debug)]
pub struct SplitInfo {
    pub node_id: usize,
    pub feature_id: usize,
    pub treatment_id: usize,
    pub iscat: bool,
    pub value: Option<Vec<u8>>,
    pub gain: i64,
    pub gain_importance: i64,
    pub summary: Vec<Vec<i64>>,
}

impl SplitInfo {
    /// A summary from which a leaf can predict: one row per treatment group,
    /// the first entry of each row a fixed-point statistic.
    pub open spec fn summary_ok(self) -> bool {
        &&& self.summary@.len() >= 1
        &&& forall|g: int|
            0 <= g < self.summary@.len() ==> (#[trigger] self.summary@[g])@.len() >= 1
        &&& forall|g: int, j: int|
            0 <= g < self.summary@.len() && 0 <= j < self.summary@[g]@.len() ==> fix_wf(
                (#[trigger] self.summary@[g]@[j]) as int,
            )
    }

}

} // verus!
