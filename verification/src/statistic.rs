//! Per-node histograms over one feature: the sufficient statistics the split
//! criteria consume. Categorical features get plain histograms over the bin
//! codes with the last position reserved for missing values; continuous
//! features get the prefix sums along the bin axis, so one candidate
//! boundary costs one lookup.

use vstd::prelude::*;
use crate::dmatrix::{DMatrix, MAX_WEIGHT, MAX_ROWS};
use crate::fixed::{SCALE, clip, mul_val, fix_wf, fadd, fmul};

verus! {

/// Bin position of a row under a feature: its code, or the reserved last
/// position `nb` when the value is missing.
pub open spec fn bin_of(m: DMatrix, f: int, i: int, nb: int) -> int {
    match m.feature@[f]@[i] {
        Some(c) => c as int,
        None => nb,
    }
}

/// Whether a row falls into response class `c` and treatment group `g`.
pub open spec fn cell_match(m: DMatrix, tid: int, i: int, c: int, g: int) -> bool {
    m.class_of(i) == c && m.treatments@[tid]@[i] as int == g
}

/// Weight sum of the rows of `idx` in class `c`, group `g` and bin `b`.
pub open spec fn count_cell(
    m: DMatrix,
    tid: int,
    idx: Seq<usize>,
    f: int,
    c: int,
    g: int,
    b: int,
    nb: int,
) -> int
    decreases idx.len(),
{
    if idx.len() == 0 {
        0
    } else {
        count_cell(m, tid, idx.drop_last(), f, c, g, b, nb) + if cell_match(
            m,
            tid,
            idx.last() as int,
            c,
            g,
        ) && bin_of(m, f, idx.last() as int, nb) == b {
            m.weights@[idx.last() as int] as int
        } else {
            0int
        }
    }
}

/// Weight sum over the bins up to and including `b`.
pub open spec fn count_prefix(
    m: DMatrix,
    tid: int,
    idx: Seq<usize>,
    f: int,
    c: int,
    g: int,
    b: int,
    nb: int,
) -> int
    decreases b + 1, when b >= -1
{
    if b < 0 {
        0
    } else {
        count_prefix(m, tid, idx, f, c, g, b - 1, nb) + count_cell(m, tid, idx, f, c, g, b, nb)
    }
}

/// Weight sum of the rows of `idx` in class `c` and group `g`, over all bins.
pub open spec fn group_weight(m: DMatrix, tid: int, idx: Seq<usize>, c: int, g: int) -> int
    decreases idx.len(),
{
    if idx.len() == 0 {
        0
    } else {
        group_weight(m, tid, idx.drop_last(), c, g) + if cell_match(
            m,
            tid,
            idx.last() as int,
            c,
            g,
        ) {
            m.weights@[idx.last() as int] as int
        } else {
            0int
        }
    }
}

pub proof fn lemma_count_cell_bounds(
    m: DMatrix,
    tid: int,
    idx: Seq<usize>,
    f: int,
    c: int,
    g: int,
    b: int,
    nb: int,
)
    requires
        m.wf(),
        0 <= tid < m.treatments@.len(),
        forall|k: int| 0 <= k < idx.len() ==> #[trigger] idx[k] < m.rows(),
    ensures
        0 <= count_cell(m, tid, idx, f, c, g, b, nb) <= idx.len() * MAX_WEIGHT,
    decreases idx.len(),
{
    if idx.len() > 0 {
        lemma_count_cell_bounds(m, tid, idx.drop_last(), f, c, g, b, nb);
        assert((idx.len() - 1) * MAX_WEIGHT == idx.len() * MAX_WEIGHT - MAX_WEIGHT) by (
        nonlinear_arith);
    }
}

pub proof fn lemma_group_weight_bounds(m: DMatrix, tid: int, idx: Seq<usize>, c: int, g: int)
    requires
        m.wf(),
        0 <= tid < m.treatments@.len(),
        forall|k: int| 0 <= k < idx.len() ==> #[trigger] idx[k] < m.rows(),
    ensures
        0 <= group_weight(m, tid, idx, c, g) <= idx.len() * MAX_WEIGHT,
    decreases idx.len(),
{
    if idx.len() > 0 {
        lemma_group_weight_bounds(m, tid, idx.drop_last(), c, g);
        assert((idx.len() - 1) * MAX_WEIGHT == idx.len() * MAX_WEIGHT - MAX_WEIGHT) by (
        nonlinear_arith);
    }
}

proof fn lemma_count_prefix_push(
    m: DMatrix,
    tid: int,
    idx: Seq<usize>,
    i: usize,
    f: int,
    c: int,
    g: int,
    b: int,
    nb: int,
)
    requires
        m.wf(),
        0 <= tid < m.treatments@.len(),
        i < m.rows(),
        0 <= f < m.n_features(),
        b >= -1,
        nb >= 0,
    ensures
        count_prefix(m, tid, idx.push(i), f, c, g, b, nb) == count_prefix(
            m,
            tid,
            idx,
            f,
            c,
            g,
            b,
            nb,
        ) + if cell_match(m, tid, i as int, c, g) && bin_of(m, f, i as int, nb) <= b {
            m.weights@[i as int] as int
        } else {
            0int
        },
    decreases b + 1,
{
    if b >= 0 {
        lemma_count_prefix_push(m, tid, idx, i, f, c, g, b - 1, nb);
        assert(idx.push(i).drop_last() =~= idx);
    }
}

/// Histogram conservation: for one response class and treatment group, the
/// weight sum over all bin positions (the last prefix value) is exactly the
/// total weight of the matching rows of the node.
pub proof fn lemma_histogram_conservation(
    m: DMatrix,
    tid: int,
    idx: Seq<usize>,
    f: int,
    c: int,
    g: int,
)
    requires
        m.wf(),
        0 <= tid < m.treatments@.len(),
        0 <= f < m.n_features(),
        m.bin_size@[f] <= 255,
        forall|k: int| 0 <= k < idx.len() ==> #[trigger] idx[k] < m.rows(),
    ensures
        count_prefix(m, tid, idx, f, c, g, m.bin_size@[f] as int, m.bin_size@[f] as int)
            == group_weight(m, tid, idx, c, g),
    decreases idx.len(),
{
    let nb = m.bin_size@[f] as int;
    if idx.len() == 0 {
        lemma_count_prefix_empty(m, tid, idx, f, c, g, nb, nb);
    } else {
        let pre = idx.drop_last();
        let i = idx.last();
        assert(forall|k: int| 0 <= k < pre.len() ==> #[trigger] pre[k] < m.rows());
        lemma_histogram_conservation(m, tid, pre, f, c, g);
        assert(idx =~= pre.push(i));
        lemma_count_prefix_push(m, tid, pre, i, f, c, g, nb, nb);
        assert(bin_of(m, f, i as int, nb) <= nb);
    }
}

proof fn lemma_count_prefix_empty(
    m: DMatrix,
    tid: int,
    idx: Seq<usize>,
    f: int,
    c: int,
    g: int,
    b: int,
    nb: int,
)
    requires
        idx.len() == 0,
        b >= -1,
    ensures
        count_prefix(m, tid, idx, f, c, g, b, nb) == 0,
    decreases b + 1,
{
    if b >= 0 {
        lemma_count_prefix_empty(m, tid, idx, f, c, g, b - 1, nb);
    }
}

/// Prefix sums only grow along the bin axis.
pub proof fn lemma_count_prefix_monotone(
    m: DMatrix,
    tid: int,
    idx: Seq<usize>,
    f: int,
    c: int,
    g: int,
    b1: int,
    b2: int,
    nb: int,
)
    requires
        m.wf(),
        0 <= tid < m.treatments@.len(),
        forall|k: int| 0 <= k < idx.len() ==> #[trigger] idx[k] < m.rows(),
        -1 <= b1 <= b2,
    ensures
        count_prefix(m, tid, idx, f, c, g, b1, nb) <= count_prefix(m, tid, idx, f, c, g, b2, nb),
    decreases b2 - b1,
{
    if b1 < b2 {
        lemma_count_prefix_monotone(m, tid, idx, f, c, g, b1, b2 - 1, nb);
        lemma_count_cell_bounds(m, tid, idx, f, c, g, b2, nb);
    }
}

/// Requirements shared by every kernel: a well-formed matrix, valid feature
/// and treatment choices with their true sizes, and in-range row indices.
pub open spec fn kernel_pre(
    m: DMatrix,
    feature_id: int,
    treatment_id: int,
    idx: Seq<usize>,
    feature_size: int,
    treatment_size: int,
) -> bool {
    &&& m.wf()
    &&& 0 <= feature_id < m.n_features()
    &&& 0 <= treatment_id < m.treatments@.len()
    &&& feature_size == m.bin_size@[feature_id]
    &&& treatment_size == m.treatment_size@[treatment_id]
    &&& forall|k: int| 0 <= k < idx.len() ==> #[trigger] idx[k] < m.rows()
    &&& idx.len() <= MAX_ROWS
}

/// One histogram cell, computed by a scan over the node's rows.
fn cell_sum(
    m: &DMatrix,
    treatment_id: usize,
    indices: &Vec<usize>,
    feature_id: usize,
    c: usize,
    g: usize,
    b: usize,
    nb: usize,
) -> (r: i64)
    requires
        m.wf(),
        m.classification_ok(),
        feature_id < m.n_features(),
        treatment_id < m.treatments@.len(),
        forall|k: int| 0 <= k < indices@.len() ==> #[trigger] indices@[k] < m.rows(),
        indices@.len() <= MAX_ROWS,
    ensures
        r as int == count_cell(
            *m,
            treatment_id as int,
            indices@,
            feature_id as int,
            c as int,
            g as int,
            b as int,
            nb as int,
        ),
        0 <= r as int <= indices@.len() * MAX_WEIGHT,
{
    let n = indices.len();
    let mut acc: i64 = 0;
    let mut k: usize = 0;
    proof {
        assert(indices@.subrange(0, 0) =~= Seq::<usize>::empty());
    }
    while k < n
        invariant
            m.wf(),
            m.classification_ok(),
            feature_id < m.n_features(),
            treatment_id < m.treatments@.len(),
            forall|t: int| 0 <= t < indices@.len() ==> #[trigger] indices@[t] < m.rows(),
            k <= n,
            n == indices@.len(),
            n <= MAX_ROWS,
            acc as int == count_cell(
                *m,
                treatment_id as int,
                indices@.subrange(0, k as int),
                feature_id as int,
                c as int,
                g as int,
                b as int,
                nb as int,
            ),
            0 <= acc as int <= k * MAX_WEIGHT,
        decreases n - k,
    {
        proof {
            assert(indices@.subrange(0, k + 1).drop_last() =~= indices@.subrange(0, k as int));
            assert((k + 1) * MAX_WEIGHT == k * MAX_WEIGHT + MAX_WEIGHT) by (nonlinear_arith);
            assert(k * MAX_WEIGHT <= MAX_ROWS * MAX_WEIGHT) by (nonlinear_arith)
                requires
                    0 <= k <= MAX_ROWS,
            ;
        }
        let i = indices[k];
        let y = m.response[i];
        let cls: usize = if y >= SCALE {
            1
        } else {
            0
        };
        proof {
            assert(m.class_of(i as int) == cls as int) by (nonlinear_arith)
                requires
                    0 <= m.response@[i as int] < 2 * SCALE,
                    SCALE == 0x100_0000,
                    cls as int == if m.response@[i as int] >= SCALE {
                        1int
                    } else {
                        0int
                    },
                    m.class_of(i as int) == m.response@[i as int] as int / SCALE as int,
            ;
        }
        let grp = m.treatments[treatment_id][i] as usize;
        let bin: usize = match m.feature[feature_id][i] {
            Some(code) => code as usize,
            None => nb,
        };
        if cls == c && grp == g && bin == b {
            acc = acc + m.weights[i];
        }
        k = k + 1;
    }
    proof {
        assert(indices@.subrange(0, n as int) =~= indices@);
    }
    acc
}

/// Weight histogram per (class, group, bin), for the divergence criterion.
pub struct Count {
    pub feature_id: usize,
    pub iscat: bool,
    pub treatment_id: usize,
    pub stat: Vec<Vec<Vec<i64>>>,
}

impl Count {
    /// Whether `stat` holds the stated cell values: plain cells for a
    /// categorical feature, prefix sums along the bin axis otherwise.
    pub open spec fn stat_ok(
        self,
        m: DMatrix,
        idx: Seq<usize>,
        feature_size: int,
        treatment_size: int,
    ) -> bool {
        &&& self.stat@.len() == 2
        &&& forall|c: int|
            0 <= c < 2 ==> (#[trigger] self.stat@[c])@.len() == treatment_size
        &&& forall|c: int, g: int|
            0 <= c < 2 && 0 <= g < treatment_size ==> (#[trigger] self.stat@[c]@[g])@.len()
                == feature_size + 1
        &&& forall|c: int, g: int, b: int|
            0 <= c < 2 && 0 <= g < treatment_size && 0 <= b <= feature_size
                ==> (#[trigger] self.stat@[c]@[g]@[b]) as int == if self.iscat {
                count_cell(
                    m,
                    self.treatment_id as int,
                    idx,
                    self.feature_id as int,
                    c,
                    g,
                    b,
                    feature_size,
                )
            } else {
                count_prefix(
                    m,
                    self.treatment_id as int,
                    idx,
                    self.feature_id as int,
                    c,
                    g,
                    b,
                    feature_size,
                )
            }
        &&& forall|c: int, g: int, b: int|
            0 <= c < 2 && 0 <= g < treatment_size && 0 <= b <= feature_size ==> 0
                <= (#[trigger] self.stat@[c]@[g]@[b]) as int <= idx.len() * MAX_WEIGHT
    }

    /// Build the histogram for one node and feature.
    pub fn calculate(
        m: &DMatrix,
        feature_id: usize,
        iscat: bool,
        treatment_id: usize,
        indices: &Vec<usize>,
        feature_size: usize,
        treatment_size: usize,
    ) -> (r: Count)
        requires
            kernel_pre(
                *m,
                feature_id as int,
                treatment_id as int,
                indices@,
                feature_size as int,
                treatment_size as int,
            ),
            m.classification_ok(),
        ensures
            r.feature_id == feature_id,
            r.iscat == iscat,
            r.treatment_id == treatment_id,
            r.stat_ok(*m, indices@, feature_size as int, treatment_size as int),
    {
        let mut stat: Vec<Vec<Vec<i64>>> = Vec::new();
        let mut c: usize = 0;
        while c < 2
            invariant
                kernel_pre(
                    *m,
                    feature_id as int,
                    treatment_id as int,
                    indices@,
                    feature_size as int,
                    treatment_size as int,
                ),
                m.classification_ok(),
                c <= 2,
                stat@.len() == c,
                forall|cc: int|
                    0 <= cc < c ==> (#[trigger] stat@[cc])@.len() == treatment_size,
                forall|cc: int, g: int|
                    0 <= cc < c && 0 <= g < treatment_size ==> (
                    #[trigger] stat@[cc]@[g])@.len() == feature_size + 1,
                forall|cc: int, g: int, b: int|
                    0 <= cc < c && 0 <= g < treatment_size && 0 <= b <= feature_size
                        ==> (#[trigger] stat@[cc]@[g]@[b]) as int == if iscat {
                        count_cell(
                            *m,
                            treatment_id as int,
                            indices@,
                            feature_id as int,
                            cc,
                            g,
                            b,
                            feature_size as int,
                        )
                    } else {
                        count_prefix(
                            *m,
                            treatment_id as int,
                            indices@,
                            feature_id as int,
                            cc,
                            g,
                            b,
                            feature_size as int,
                        )
                    },
                forall|cc: int, g: int, b: int|
                    0 <= cc < c && 0 <= g < treatment_size && 0 <= b <= feature_size ==> 0
                        <= (#[trigger] stat@[cc]@[g]@[b]) as int <= indices@.len()
                        * MAX_WEIGHT,
            decreases 2 - c,
        {
            let mut plane: Vec<Vec<i64>> = Vec::new();
            let mut g: usize = 0;
            while g < treatment_size
                invariant
                    kernel_pre(
                        *m,
                        feature_id as int,
                        treatment_id as int,
                        indices@,
                        feature_size as int,
                        treatment_size as int,
                    ),
                    m.classification_ok(),
                    c < 2,
                    g <= treatment_size,
                    plane@.len() == g,
                    forall|gg: int|
                        0 <= gg < g ==> (#[trigger] plane@[gg])@.len() == feature_size + 1,
                    forall|gg: int, b: int|
                        0 <= gg < g && 0 <= b <= feature_size ==> (
                        #[trigger] plane@[gg]@[b]) as int == if iscat {
                            count_cell(
                                *m,
                                treatment_id as int,
                                indices@,
                                feature_id as int,
                                c as int,
                                gg,
                                b,
                                feature_size as int,
                            )
                        } else {
                            count_prefix(
                                *m,
                                treatment_id as int,
                                indices@,
                                feature_id as int,
                                c as int,
                                gg,
                                b,
                                feature_size as int,
                            )
                        },
                    forall|gg: int, b: int|
                        0 <= gg < g && 0 <= b <= feature_size ==> 0 <= (
                        #[trigger] plane@[gg]@[b]) as int <= indices@.len() * MAX_WEIGHT,
                decreases treatment_size - g,
            {
                let mut row: Vec<i64> = Vec::new();
                let mut acc: i64 = 0;
                let mut b: usize = 0;
                while b < feature_size + 1
                    invariant
                        kernel_pre(
                            *m,
                            feature_id as int,
                            treatment_id as int,
                            indices@,
                            feature_size as int,
                            treatment_size as int,
                        ),
                        m.classification_ok(),
                        c < 2,
                        g < treatment_size,
                        b <= feature_size + 1,
                        row@.len() == b,
                        acc as int == count_prefix(
                            *m,
                            treatment_id as int,
                            indices@,
                            feature_id as int,
                            c as int,
                            g as int,
                            b as int - 1,
                            feature_size as int,
                        ),
                        0 <= acc as int <= indices@.len() * MAX_WEIGHT,
                        forall|bb: int|
                            0 <= bb < b ==> (#[trigger] row@[bb]) as int == if iscat {
                                count_cell(
                                    *m,
                                    treatment_id as int,
                                    indices@,
                                    feature_id as int,
                                    c as int,
                                    g as int,
                                    bb,
                                    feature_size as int,
                                )
                            } else {
                                count_prefix(
                                    *m,
                                    treatment_id as int,
                                    indices@,
                                    feature_id as int,
                                    c as int,
                                    g as int,
                                    bb,
                                    feature_size as int,
                                )
                            },
                        forall|bb: int|
                            0 <= bb < b ==> 0 <= (#[trigger] row@[bb]) as int
                                <= indices@.len() * MAX_WEIGHT,
                    decreases feature_size + 1 - b,
                {
                    let cell = cell_sum(
                        m,
                        treatment_id,
                        indices,
                        feature_id,
                        c,
                        g,
                        b,
                        feature_size,
                    );
                    proof {
                        assert(indices@.len() * MAX_WEIGHT <= 0x1000_0000_0000_0000) by (
                        nonlinear_arith)
                            requires
                                0 <= indices@.len() <= MAX_ROWS,
                                MAX_ROWS == 0x4000_0000,
                                MAX_WEIGHT == 0x4000_0000,
                        ;
                        lemma_count_prefix_acc(
                            *m,
                            treatment_id as int,
                            indices@,
                            feature_id as int,
                            c as int,
                            g as int,
                            b as int,
                            feature_size as int,
                        );
                    }
                    if iscat {
                        row.push(cell);
                    } else {
                        acc = acc + cell;
                        row.push(acc);
                    }
                    if iscat {
                        acc = acc + cell;
                    }
                    b = b + 1;
                }
                plane.push(row);
                g = g + 1;
            }
            stat.push(plane);
            c = c + 1;
        }
        Count { feature_id, iscat, treatment_id, stat }
    }
}

/// The prefix through bin `b` is the prefix through `b - 1` plus the cell at
/// `b`, and stays within the total weight bound.
proof fn lemma_count_prefix_acc(
    m: DMatrix,
    tid: int,
    idx: Seq<usize>,
    f: int,
    c: int,
    g: int,
    b: int,
    nb: int,
)
    requires
        m.wf(),
        0 <= tid < m.treatments@.len(),
        0 <= f < m.n_features(),
        nb == m.bin_size@[f],
        forall|k: int| 0 <= k < idx.len() ==> #[trigger] idx[k] < m.rows(),
        0 <= b <= nb,
    ensures
        count_prefix(m, tid, idx, f, c, g, b, nb) == count_prefix(m, tid, idx, f, c, g, b - 1, nb)
            + count_cell(m, tid, idx, f, c, g, b, nb),
        0 <= count_prefix(m, tid, idx, f, c, g, b, nb) <= idx.len() * MAX_WEIGHT,
{
    lemma_count_prefix_monotone(m, tid, idx, f, c, g, -1, b, nb);
    lemma_count_prefix_neg(m, tid, idx, f, c, g, nb);
    lemma_count_prefix_monotone(m, tid, idx, f, c, g, b, nb, nb);
    lemma_histogram_conservation(m, tid, idx, f, c, g);
    lemma_group_weight_bounds(m, tid, idx, c, g);
}

/// A prefix over no bins is empty.
proof fn lemma_count_prefix_neg(
    m: DMatrix,
    tid: int,
    idx: Seq<usize>,
    f: int,
    c: int,
    g: int,
    nb: int,
)
    ensures
        count_prefix(m, tid, idx, f, c, g, -1, nb) == 0,
{
}


/// What a regression kernel accumulates per row.
#[derive(Clone, Copy, Debug)]
pub enum RegKind {
    /// Weighted response: `y * w`.
    YSum,
    /// Weighted squared response: `y * y * w`.
    YSquareSum,
    /// Plain weight.
    WeightSum,
}

/// Per-row contribution of a regression kernel, in fixed point.
pub open spec fn reg_term(m: DMatrix, kind: RegKind, i: int) -> int {
    match kind {
        RegKind::YSum => clip(mul_val(m.response@[i] as int, m.weights@[i] as int)),
        RegKind::YSquareSum => clip(
            mul_val(
                clip(mul_val(m.response@[i] as int, m.response@[i] as int)),
                m.weights@[i] as int,
            ),
        ),
        RegKind::WeightSum => m.weights@[i] as int,
    }
}

/// Clipped fold of the contributions of the rows of `idx` in group `g` and
/// bin `b`.
pub open spec fn reg_cell(
    m: DMatrix,
    kind: RegKind,
    tid: int,
    idx: Seq<usize>,
    f: int,
    g: int,
    b: int,
    nb: int,
) -> int
    decreases idx.len(),
{
    if idx.len() == 0 {
        0
    } else {
        clip(
            reg_cell(m, kind, tid, idx.drop_last(), f, g, b, nb) + if m.treatments@[tid]@[idx.last() as int] as int == g && bin_of(m, f, idx.last() as int, nb) == b {
                reg_term(m, kind, idx.last() as int)
            } else {
                0int
            },
        )
    }
}

/// Clipped fold of the cells over the bins up to and including `b`.
pub open spec fn reg_prefix(
    m: DMatrix,
    kind: RegKind,
    tid: int,
    idx: Seq<usize>,
    f: int,
    g: int,
    b: int,
    nb: int,
) -> int
    decreases b + 1, when b >= -1
{
    if b < 0 {
        0
    } else {
        clip(
            reg_prefix(m, kind, tid, idx, f, g, b - 1, nb) + reg_cell(
                m,
                kind,
                tid,
                idx,
                f,
                g,
                b,
                nb,
            ),
        )
    }
}

proof fn lemma_reg_cell_wf(
    m: DMatrix,
    kind: RegKind,
    tid: int,
    idx: Seq<usize>,
    f: int,
    g: int,
    b: int,
    nb: int,
)
    ensures
        fix_wf(reg_cell(m, kind, tid, idx, f, g, b, nb)),
    decreases idx.len(),
{
    if idx.len() > 0 {
        lemma_reg_cell_wf(m, kind, tid, idx.drop_last(), f, g, b, nb);
    }
}

/// One regression cell, computed by a scan over the node's rows.
fn reg_cell_sum(
    m: &DMatrix,
    kind: RegKind,
    treatment_id: usize,
    indices: &Vec<usize>,
    feature_id: usize,
    g: usize,
    b: usize,
    nb: usize,
) -> (r: i64)
    requires
        m.wf(),
        feature_id < m.n_features(),
        treatment_id < m.treatments@.len(),
        forall|k: int| 0 <= k < indices@.len() ==> #[trigger] indices@[k] < m.rows(),
    ensures
        r as int == reg_cell(
            *m,
            kind,
            treatment_id as int,
            indices@,
            feature_id as int,
            g as int,
            b as int,
            nb as int,
        ),
        fix_wf(r as int),
{
    let n = indices.len();
    let mut acc: i64 = 0;
    let mut k: usize = 0;
    proof {
        assert(indices@.subrange(0, 0) =~= Seq::<usize>::empty());
    }
    while k < n
        invariant
            m.wf(),
            feature_id < m.n_features(),
            treatment_id < m.treatments@.len(),
            forall|t: int| 0 <= t < indices@.len() ==> #[trigger] indices@[t] < m.rows(),
            k <= n,
            n == indices@.len(),
            acc as int == reg_cell(
                *m,
                kind,
                treatment_id as int,
                indices@.subrange(0, k as int),
                feature_id as int,
                g as int,
                b as int,
                nb as int,
            ),
            fix_wf(acc as int),
        decreases n - k,
    {
        proof {
            assert(indices@.subrange(0, k + 1).drop_last() =~= indices@.subrange(0, k as int));
        }
        let i = indices[k];
        let grp = m.treatments[treatment_id][i] as usize;
        let bin: usize = match m.feature[feature_id][i] {
            Some(code) => code as usize,
            None => nb,
        };
        if grp == g && bin == b {
            let term: i64 = match kind {
                RegKind::YSum => fmul(m.response[i], m.weights[i]),
                RegKind::YSquareSum => fmul(fmul(m.response[i], m.response[i]), m.weights[i]),
                RegKind::WeightSum => m.weights[i],
            };
            acc = fadd(acc, term);
        }
        k = k + 1;
    }
    proof {
        assert(indices@.subrange(0, n as int) =~= indices@);
    }
    acc
}

/// Whether a 2-D regression statistic holds the stated values.
pub open spec fn reg_stat_ok(
    stat: Seq<Seq<i64>>,
    m: DMatrix,
    kind: RegKind,
    iscat: bool,
    tid: int,
    idx: Seq<usize>,
    f: int,
    feature_size: int,
    treatment_size: int,
) -> bool {
    &&& stat.len() == treatment_size
    &&& forall|g: int| 0 <= g < treatment_size ==> (#[trigger] stat[g]).len() == feature_size + 1
    &&& forall|g: int, b: int|
        0 <= g < treatment_size && 0 <= b <= feature_size ==> (#[trigger] stat[g][b]) as int
            == if iscat {
            reg_cell(m, kind, tid, idx, f, g, b, feature_size)
        } else {
            reg_prefix(m, kind, tid, idx, f, g, b, feature_size)
        }
    &&& forall|g: int, b: int|
        0 <= g < treatment_size && 0 <= b <= feature_size ==> fix_wf(
            (#[trigger] stat[g][b]) as int,
        )
}

/// Shared builder of the three regression statistics.
fn reg_calculate(
    m: &DMatrix,
    kind: RegKind,
    feature_id: usize,
    iscat: bool,
    treatment_id: usize,
    indices: &Vec<usize>,
    feature_size: usize,
    treatment_size: usize,
) -> (r: Vec<Vec<i64>>)
    requires
        kernel_pre(
            *m,
            feature_id as int,
            treatment_id as int,
            indices@,
            feature_size as int,
            treatment_size as int,
        ),
    ensures
        reg_stat_ok(
            r@.map_values(|v: Vec<i64>| v@),
            *m,
            kind,
            iscat,
            treatment_id as int,
            indices@,
            feature_id as int,
            feature_size as int,
            treatment_size as int,
        ),
{
    let mut stat: Vec<Vec<i64>> = Vec::new();
    let mut g: usize = 0;
    while g < treatment_size
        invariant
            kernel_pre(
                *m,
                feature_id as int,
                treatment_id as int,
                indices@,
                feature_size as int,
                treatment_size as int,
            ),
            g <= treatment_size,
            stat@.len() == g,
            forall|gg: int| 0 <= gg < g ==> (#[trigger] stat@[gg])@.len() == feature_size + 1,
            forall|gg: int, b: int|
                0 <= gg < g && 0 <= b <= feature_size ==> (#[trigger] stat@[gg]@[b]) as int
                    == if iscat {
                    reg_cell(
                        *m,
                        kind,
                        treatment_id as int,
                        indices@,
                        feature_id as int,
                        gg,
                        b,
                        feature_size as int,
                    )
                } else {
                    reg_prefix(
                        *m,
                        kind,
                        treatment_id as int,
                        indices@,
                        feature_id as int,
                        gg,
                        b,
                        feature_size as int,
                    )
                },
            forall|gg: int, b: int|
                0 <= gg < g && 0 <= b <= feature_size ==> fix_wf(
                    (#[trigger] stat@[gg]@[b]) as int,
                ),
        decreases treatment_size - g,
    {
        let mut row: Vec<i64> = Vec::new();
        let mut acc: i64 = 0;
        let mut b: usize = 0;
        while b < feature_size + 1
            invariant
                kernel_pre(
                    *m,
                    feature_id as int,
                    treatment_id as int,
                    indices@,
                    feature_size as int,
                    treatment_size as int,
                ),
                g < treatment_size,
                b <= feature_size + 1,
                row@.len() == b,
                acc as int == reg_prefix(
                    *m,
                    kind,
                    treatment_id as int,
                    indices@,
                    feature_id as int,
                    g as int,
                    b as int - 1,
                    feature_size as int,
                ),
                fix_wf(acc as int),
                forall|bb: int|
                    0 <= bb < b ==> (#[trigger] row@[bb]) as int == if iscat {
                        reg_cell(
                            *m,
                            kind,
                            treatment_id as int,
                            indices@,
                            feature_id as int,
                            g as int,
                            bb,
                            feature_size as int,
                        )
                    } else {
                        reg_prefix(
                            *m,
                            kind,
                            treatment_id as int,
                            indices@,
                            feature_id as int,
                            g as int,
                            bb,
                            feature_size as int,
                        )
                    },
                forall|bb: int|
                    0 <= bb < b ==> fix_wf((#[trigger] row@[bb]) as int),
            decreases feature_size + 1 - b,
        {
            let cell = reg_cell_sum(m, kind, treatment_id, indices, feature_id, g, b, feature_size);
            acc = fadd(acc, cell);
            if iscat {
                row.push(cell);
            } else {
                row.push(acc);
            }
            b = b + 1;
        }
        stat.push(row);
        g = g + 1;
    }
    proof {
        let mapped = stat@.map_values(|v: Vec<i64>| v@);
        assert forall|gg: int| 0 <= gg < treatment_size implies mapped[gg]
            == (#[trigger] stat@[gg])@ by {}
    }
    stat
}

/// Weighted response sums per (group, bin), for the regression criterion.
pub struct Sum {
    pub feature_id: usize,
    pub iscat: bool,
    pub treatment_id: usize,
    pub stat: Vec<Vec<i64>>,
}

impl Sum {
    pub fn calculate(
        m: &DMatrix,
        feature_id: usize,
        iscat: bool,
        treatment_id: usize,
        indices: &Vec<usize>,
        feature_size: usize,
        treatment_size: usize,
    ) -> (r: Sum)
        requires
            kernel_pre(
                *m,
                feature_id as int,
                treatment_id as int,
                indices@,
                feature_size as int,
                treatment_size as int,
            ),
        ensures
            r.feature_id == feature_id,
            r.iscat == iscat,
            r.treatment_id == treatment_id,
            reg_stat_ok(
                r.stat@.map_values(|v: Vec<i64>| v@),
                *m,
                RegKind::YSum,
                iscat,
                treatment_id as int,
                indices@,
                feature_id as int,
                feature_size as int,
                treatment_size as int,
            ),
    {
        let stat = reg_calculate(
            m,
            RegKind::YSum,
            feature_id,
            iscat,
            treatment_id,
            indices,
            feature_size,
            treatment_size,
        );
        Sum { feature_id, iscat, treatment_id, stat }
    }
}

/// Weighted squared response sums per (group, bin).
pub struct SecondOrderSum {
    pub feature_id: usize,
    pub iscat: bool,
    pub treatment_id: usize,
    pub stat: Vec<Vec<i64>>,
}

impl SecondOrderSum {
    pub fn calculate(
        m: &DMatrix,
        feature_id: usize,
        iscat: bool,
        treatment_id: usize,
        indices: &Vec<usize>,
        feature_size: usize,
        treatment_size: usize,
    ) -> (r: SecondOrderSum)
        requires
            kernel_pre(
                *m,
                feature_id as int,
                treatment_id as int,
                indices@,
                feature_size as int,
                treatment_size as int,
            ),
        ensures
            r.feature_id == feature_id,
            r.iscat == iscat,
            r.treatment_id == treatment_id,
            reg_stat_ok(
                r.stat@.map_values(|v: Vec<i64>| v@),
                *m,
                RegKind::YSquareSum,
                iscat,
                treatment_id as int,
                indices@,
                feature_id as int,
                feature_size as int,
                treatment_size as int,
            ),
    {
        let stat = reg_calculate(
            m,
            RegKind::YSquareSum,
            feature_id,
            iscat,
            treatment_id,
            indices,
            feature_size,
            treatment_size,
        );
        SecondOrderSum { feature_id, iscat, treatment_id, stat }
    }
}

/// Weight sums per (group, bin), without the response.
pub struct CountNoY {
    pub feature_id: usize,
    pub iscat: bool,
    pub treatment_id: usize,
    pub stat: Vec<Vec<i64>>,
}

impl CountNoY {
    pub fn calculate(
        m: &DMatrix,
        feature_id: usize,
        iscat: bool,
        treatment_id: usize,
        indices: &Vec<usize>,
        feature_size: usize,
        treatment_size: usize,
    ) -> (r: CountNoY)
        requires
            kernel_pre(
                *m,
                feature_id as int,
                treatment_id as int,
                indices@,
                feature_size as int,
                treatment_size as int,
            ),
        ensures
            r.feature_id == feature_id,
            r.iscat == iscat,
            r.treatment_id == treatment_id,
            reg_stat_ok(
                r.stat@.map_values(|v: Vec<i64>| v@),
                *m,
                RegKind::WeightSum,
                iscat,
                treatment_id as int,
                indices@,
                feature_id as int,
                feature_size as int,
                treatment_size as int,
            ),
    {
        let stat = reg_calculate(
            m,
            RegKind::WeightSum,
            feature_id,
            iscat,
            treatment_id,
            indices,
            feature_size,
            treatment_size,
        );
        CountNoY { feature_id, iscat, treatment_id, stat }
    }
}

} // verus!

