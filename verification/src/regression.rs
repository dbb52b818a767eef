//! The regression split criterion: per-group variance plus a treatment
//! balance penalty, for a control group and one treatment group.

use vstd::prelude::*;
use crate::fixed::{SCALE, clip, mul_val, div_val, fix_wf, fadd, fsub, fmul, fdiv};
use crate::statistic::{Sum, SecondOrderSum, CountNoY, RegKind, reg_cell, reg_prefix};
use crate::config::TreeConfig;
use crate::dmatrix::DMatrix;
use crate::split_info::SplitInfo;
use crate::linalg::fold_sum;

verus! {

/// Dimensions and bounds under which a regression statistic can be
/// searched: one row per group, rows of one in-range length, cells in
/// range, and monotone rows for a continuous feature where cells cannot be
/// negative.
pub open spec fn reg_stat_wf(stat: Seq<Seq<i64>>) -> bool {
    &&& stat.len() >= 2
    &&& forall|g: int| 0 <= g < stat.len() ==> 1 <= (#[trigger] stat[g]).len() <= 256
    &&& forall|g: int| 0 <= g < stat.len() ==> (#[trigger] stat[g]).len() == stat[0].len()
    &&& forall|g: int, b: int|
        0 <= g < stat.len() && 0 <= b < stat[g].len() ==> fix_wf((#[trigger] stat[g][b]) as int)
}

/// Stronger bounds for the weight table: nonnegative and, for a continuous
/// feature, monotone along the bin axis.
pub open spec fn reg_count_wf(stat: Seq<Seq<i64>>, iscat: bool) -> bool {
    &&& reg_stat_wf(stat)
    &&& forall|g: int, b: int|
        0 <= g < stat.len() && 0 <= b < stat[g].len() ==> 0 <= (#[trigger] stat[g][b])
    &&& !iscat ==> forall|g: int, b1: int, b2: int|
        0 <= g < stat.len() && 0 <= b1 <= b2 < stat[g].len() ==> (#[trigger] stat[g][b1]) <= (
        #[trigger] stat[g][b2])
}

/// Group totals: the fold of a categorical row, or its last prefix value.
pub open spec fn reg_parent_of(stat: Seq<Seq<i64>>, iscat: bool) -> Seq<i64> {
    Seq::new(
        stat.len(),
        |g: int|
            if iscat {
                fold_sum(stat[g]) as i64
            } else {
                stat[g].last()
            },
    )
}

/// Group values left of (and including) candidate position `pos`.
pub open spec fn reg_left_at(stat: Seq<Seq<i64>>, pos: int) -> Seq<i64> {
    Seq::new(stat.len(), |g: int| stat[g][pos])
}

/// Group values right of candidate position `pos`.
pub open spec fn reg_right_at(stat: Seq<Seq<i64>>, iscat: bool, pos: int) -> Seq<i64> {
    Seq::new(
        stat.len(),
        |g: int| clip(reg_parent_of(stat, iscat)[g] as int - stat[g][pos] as int) as i64,
    )
}

/// Node impurity from per-group sufficient statistics: the two group
/// variances scaled by their sizes, less the squared treatment effect, plus
/// the balance penalty.
pub open spec fn impurity_val(sum: Seq<i64>, moment: Seq<i64>, count: Seq<i64>, alpha: int) -> int {
    let tau = clip(
        clip(div_val(sum[1] as int, count[1] as int)) - clip(
            div_val(sum[0] as int, count[0] as int),
        ),
    );
    let tr_var = clip(
        clip(div_val(moment[1] as int, count[1] as int)) - clip(
            div_val(clip(mul_val(sum[1] as int, sum[1] as int)), clip(
                mul_val(count[1] as int, count[1] as int),
            )),
        ),
    );
    let ct_var = clip(
        clip(div_val(moment[0] as int, count[0] as int)) - clip(
            div_val(clip(mul_val(sum[0] as int, sum[0] as int)), clip(
                mul_val(count[0] as int, count[0] as int),
            )),
        ),
    );
    let base = clip(
        clip(
            clip(div_val(tr_var, count[1] as int)) + clip(div_val(ct_var, count[0] as int)),
        ) - clip(mul_val(tau, tau)),
    );
    let diff = clip(count[1] as int - count[0] as int);
    let m = if diff < 0 {
        -diff
    } else {
        diff
    };
    clip(base + clip(mul_val(alpha, m)))
}

#[derive(Clone, Copy, Debug)]
pub struct RegressionStrategy {
    pub min_samples_leaf: usize,
    pub min_samples_treatment: usize,
    pub alpha: i64,
}

impl RegressionStrategy {
    pub open spec fn wf(self) -> bool {
        &&& 0 <= self.alpha <= SCALE
    }

    /// A strategy from the forest configuration.
    pub fn new(conf: &TreeConfig) -> (r: RegressionStrategy)
        requires
            conf.wf(),
        ensures
            r.min_samples_leaf == conf.min_samples_leaf,
            r.min_samples_treatment == conf.min_samples_treatment,
            r.alpha == conf.alpha,
            r.wf(),
    {
        RegressionStrategy {
            min_samples_leaf: conf.min_samples_leaf,
            min_samples_treatment: conf.min_samples_treatment,
            alpha: conf.alpha,
        }
    }

    /// Impurity of one side, exactly [`impurity_val`].
    pub fn get_impurity(&self, sum: &Vec<i64>, moment: &Vec<i64>, count: &Vec<i64>) -> (r: i64)
        requires
            self.wf(),
            sum@.len() >= 2,
            moment@.len() >= 2,
            count@.len() >= 2,
            fix_wf(sum@[0] as int),
            fix_wf(sum@[1] as int),
            fix_wf(moment@[0] as int),
            fix_wf(moment@[1] as int),
            fix_wf(count@[0] as int),
            fix_wf(count@[1] as int),
        ensures
            r as int == impurity_val(sum@, moment@, count@, self.alpha as int),
            fix_wf(r as int),
    {
        let tr_y_sum = sum[1];
        let tr_y_sq_sum = moment[1];
        let tr_count = count[1];
        let ct_y_sum = sum[0];
        let ct_y_sq_sum = moment[0];
        let ct_count = count[0];

        let tau = fsub(fdiv(tr_y_sum, tr_count), fdiv(ct_y_sum, ct_count));
        let tr_var = fsub(
            fdiv(tr_y_sq_sum, tr_count),
            fdiv(fmul(tr_y_sum, tr_y_sum), fmul(tr_count, tr_count)),
        );
        let ct_var = fsub(
            fdiv(ct_y_sq_sum, ct_count),
            fdiv(fmul(ct_y_sum, ct_y_sum), fmul(ct_count, ct_count)),
        );

        let base = fsub(
            fadd(fdiv(tr_var, tr_count), fdiv(ct_var, ct_count)),
            fmul(tau, tau),
        );
        let diff = fsub(tr_count, ct_count);
        let m = if diff < 0 {
            -diff
        } else {
            diff
        };
        fadd(base, fmul(self.alpha, m))
    }
}


/// The regression statistic of a node under one feature, as the criterion
/// reads it, with treatment column zero.
pub open spec fn reg_table_of(m: DMatrix, idx: Seq<usize>, f: int, iscat: bool, kind: RegKind) -> Seq<
    Seq<i64>,
> {
    let ts = m.treatment_size@[0] as nat;
    let fs = m.bin_size@[f] as int;
    Seq::new(
        ts,
        |g: int|
            Seq::new(
                (fs + 1) as nat,
                |b: int|
                    (if iscat {
                        reg_cell(m, kind, 0, idx, f, g, b, fs)
                    } else {
                        reg_prefix(m, kind, 0, idx, f, g, b, fs)
                    }) as i64,
            ),
    )
}

impl RegressionStrategy {
    /// Gain of one candidate split: a group without weight on either side,
    /// or in the whole node, scores no candidate, since its mean and
    /// variance are undefined.
    pub open spec fn reg_cand_gain(
        self,
        sums: Seq<Seq<i64>>,
        moms: Seq<Seq<i64>>,
        cnts: Seq<Seq<i64>>,
        iscat: bool,
        pos: int,
    ) -> Option<(int, int)> {
        let ps = reg_parent_of(sums, iscat);
        let pm = reg_parent_of(moms, iscat);
        let pc = reg_parent_of(cnts, iscat);
        if pc[0] as int == 0 || pc[1] as int == 0 {
            None
        } else {
            let ls = reg_left_at(sums, pos);
            let lm = reg_left_at(moms, pos);
            let lc = reg_left_at(cnts, pos);
            let rs = reg_right_at(sums, iscat, pos);
            let rm = reg_right_at(moms, iscat, pos);
            let rc = reg_right_at(cnts, iscat, pos);
            if lc[0] as int == 0 || lc[1] as int == 0 || rc[0] as int == 0 || rc[1] as int == 0 {
                None
            } else {
                let parent_score = impurity_val(ps, pm, pc, self.alpha as int);
                let left_score = impurity_val(ls, lm, lc, self.alpha as int);
                let right_score = impurity_val(rs, rm, rc, self.alpha as int);
                let n_t_l = clip(lc[0] + lc[1]);
                let n_t_r = clip(rc[0] + rc[1]);
                let n_t = clip(pc[0] + pc[1]);
                let gain = clip(
                    clip(
                        parent_score - clip(div_val(clip(mul_val(left_score, n_t_l)), n_t)),
                    ) - clip(div_val(clip(mul_val(right_score, n_t_r)), n_t)),
                );
                Some((gain, gain))
            }
        }
    }

    /// Search every candidate boundary of the three statistics; the winner
    /// is the first position whose gain strictly exceeds every earlier one
    /// and zero.
    #[verifier::rlimit(100)]
    pub fn find_best_split_plain(
        &self,
        sum: &Sum,
        moment: &SecondOrderSum,
        count: &CountNoY,
    ) -> (r: (Option<Vec<u8>>, i64, i64))
        requires
            self.wf(),
            reg_stat_wf(sum.stat@.map_values(|v: Vec<i64>| v@)),
            reg_stat_wf(moment.stat@.map_values(|v: Vec<i64>| v@)),
            reg_stat_wf(count.stat@.map_values(|v: Vec<i64>| v@)),
            moment.stat@.len() == sum.stat@.len(),
            count.stat@.len() == sum.stat@.len(),
            moment.stat@[0]@.len() == sum.stat@[0]@.len(),
            count.stat@[0]@.len() == sum.stat@[0]@.len(),
            moment.iscat == sum.iscat,
            count.iscat == sum.iscat,
        ensures
            ({
                let gsums = sum.stat@.map_values(|v: Vec<i64>| v@);
                let gmoms = moment.stat@.map_values(|v: Vec<i64>| v@);
                let gcnts = count.stat@.map_values(|v: Vec<i64>| v@);
                let n_splits = gsums[0].len() - 1;
                match r.0 {
                    None => r.1 == 0 && r.2 == 0 && forall|pos: int|
                        #![trigger self.reg_cand_gain(gsums, gmoms, gcnts, sum.iscat, pos)]
                        0 <= pos < n_splits ==> (match self.reg_cand_gain(
                            gsums,
                            gmoms,
                            gcnts,
                            sum.iscat,
                            pos,
                        ) {
                            Some(gg) => gg.0 <= 0,
                            None => true,
                        }),
                    Some(v) => {
                        &&& v@.len() == 1
                        &&& (v@[0] as int) < n_splits
                        &&& self.reg_cand_gain(gsums, gmoms, gcnts, sum.iscat, v@[0] as int)
                            == Some((r.1 as int, r.2 as int))
                        &&& r.1 > 0
                        &&& fix_wf(r.1 as int)
                        &&& forall|pos: int|
                            #![trigger self.reg_cand_gain(gsums, gmoms, gcnts, sum.iscat, pos)]
                            0 <= pos < n_splits ==> (match self.reg_cand_gain(
                                gsums,
                                gmoms,
                                gcnts,
                                sum.iscat,
                                pos,
                            ) {
                                Some(gg) => gg.0 <= r.1,
                                None => true,
                            })
                        &&& forall|pos: int|
                            #![trigger self.reg_cand_gain(gsums, gmoms, gcnts, sum.iscat, pos)]
                            0 <= pos < v@[0] ==> (match self.reg_cand_gain(
                                gsums,
                                gmoms,
                                gcnts,
                                sum.iscat,
                                pos,
                            ) {
                                Some(gg) => gg.0 < r.1,
                                None => true,
                            })
                    },
                }
            }),
    {
        let ghost gsums = sum.stat@.map_values(|v: Vec<i64>| v@);
        let ghost gmoms = moment.stat@.map_values(|v: Vec<i64>| v@);
        let ghost gcnts = count.stat@.map_values(|v: Vec<i64>| v@);
        let iscat = sum.iscat;
        let ng = sum.stat.len();
        let nb = sum.stat[0].len();

        let parent_sum = Self::parent_stat(&sum.stat, iscat);
        let parent_moment = Self::parent_stat(&moment.stat, iscat);
        let parent_count = Self::parent_stat(&count.stat, iscat);
        proof {
            assert(parent_sum@ =~= reg_parent_of(gsums, iscat));
            assert(parent_moment@ =~= reg_parent_of(gmoms, iscat));
            assert(parent_count@ =~= reg_parent_of(gcnts, iscat));
        }
        if parent_count[0] == 0 || parent_count[1] == 0 {
            return (None, 0, 0);
        }
        let parent_score = self.get_impurity(&parent_sum, &parent_moment, &parent_count);

        let n_splits = nb - 1;
        let mut best_gain: i64 = 0;
        let mut best_gain_importance: i64 = 0;
        let mut best_split_value: Option<Vec<u8>> = None;
        let mut best_pos: usize = 0;

        let mut pos: usize = 0;
        while pos < n_splits
            invariant
                gsums == sum.stat@.map_values(|v: Vec<i64>| v@),
                gmoms == moment.stat@.map_values(|v: Vec<i64>| v@),
                gcnts == count.stat@.map_values(|v: Vec<i64>| v@),
                reg_stat_wf(gsums),
                reg_stat_wf(gmoms),
                reg_stat_wf(gcnts),
                gmoms.len() == gsums.len(),
                gcnts.len() == gsums.len(),
                gmoms[0].len() == gsums[0].len(),
                gcnts[0].len() == gsums[0].len(),
                iscat == sum.iscat,
                moment.iscat == iscat,
                count.iscat == iscat,
                self.wf(),
                ng == gsums.len(),
                nb == gsums[0].len(),
                n_splits == nb - 1,
                n_splits <= 255,
                pos <= n_splits,
                parent_sum@ == reg_parent_of(gsums, iscat),
                parent_moment@ == reg_parent_of(gmoms, iscat),
                parent_count@ == reg_parent_of(gcnts, iscat),
                parent_sum@.len() == ng,
                parent_moment@.len() == ng,
                parent_count@.len() == ng,
                parent_count@[0] != 0,
                parent_count@[1] != 0,
                forall|g: int| 0 <= g < ng ==> fix_wf((#[trigger] parent_sum@[g]) as int),
                forall|g: int| 0 <= g < ng ==> fix_wf((#[trigger] parent_moment@[g]) as int),
                forall|g: int| 0 <= g < ng ==> fix_wf((#[trigger] parent_count@[g]) as int),
                parent_score as int == impurity_val(
                    reg_parent_of(gsums, iscat),
                    reg_parent_of(gmoms, iscat),
                    reg_parent_of(gcnts, iscat),
                    self.alpha as int,
                ),
                fix_wf(parent_score as int),
                match best_split_value {
                    None => best_gain == 0 && best_gain_importance == 0 && forall|t: int|
                        #![trigger self.reg_cand_gain(gsums, gmoms, gcnts, iscat, t)]
                        0 <= t < pos ==> (match self.reg_cand_gain(gsums, gmoms, gcnts, iscat, t) {
                            Some(gg) => gg.0 <= 0,
                            None => true,
                        }),
                    Some(v) => {
                        &&& v@.len() == 1
                        &&& v@[0] == best_pos
                        &&& best_pos < pos
                        &&& self.reg_cand_gain(gsums, gmoms, gcnts, iscat, best_pos as int)
                            == Some((best_gain as int, best_gain_importance as int))
                        &&& best_gain > 0
                        &&& fix_wf(best_gain as int)
                        &&& forall|t: int|
                            #![trigger self.reg_cand_gain(gsums, gmoms, gcnts, iscat, t)]
                            0 <= t < pos ==> (match self.reg_cand_gain(
                                gsums,
                                gmoms,
                                gcnts,
                                iscat,
                                t,
                            ) {
                                Some(gg) => gg.0 <= best_gain,
                                None => true,
                            })
                        &&& forall|t: int|
                            #![trigger self.reg_cand_gain(gsums, gmoms, gcnts, iscat, t)]
                            0 <= t < best_pos ==> (match self.reg_cand_gain(
                                gsums,
                                gmoms,
                                gcnts,
                                iscat,
                                t,
                            ) {
                                Some(gg) => gg.0 < best_gain,
                                None => true,
                            })
                    },
                },
            decreases n_splits - pos,
        {
            let left_sum = Self::stat_at(&sum.stat, pos);
            let left_moment = Self::stat_at(&moment.stat, pos);
            let left_count = Self::stat_at(&count.stat, pos);
            let right_sum = Self::stat_difference(&parent_sum, &left_sum);
            let right_moment = Self::stat_difference(&parent_moment, &left_moment);
            let right_count = Self::stat_difference(&parent_count, &left_count);
            proof {
                assert(left_sum@ =~= reg_left_at(gsums, pos as int));
                assert(left_moment@ =~= reg_left_at(gmoms, pos as int));
                assert(left_count@ =~= reg_left_at(gcnts, pos as int));
                assert(right_sum@ =~= reg_right_at(gsums, iscat, pos as int));
                assert(right_moment@ =~= reg_right_at(gmoms, iscat, pos as int));
                assert(right_count@ =~= reg_right_at(gcnts, iscat, pos as int));
            }
            if !(left_count[0] == 0 || left_count[1] == 0 || right_count[0] == 0
                || right_count[1] == 0) {
                let left_score = self.get_impurity(&left_sum, &left_moment, &left_count);
                let right_score = self.get_impurity(&right_sum, &right_moment, &right_count);
                let n_t_l = fadd(left_count[0], left_count[1]);
                let n_t_r = fadd(right_count[0], right_count[1]);
                let n_t = fadd(parent_count[0], parent_count[1]);
                let gain = fsub(
                    fsub(parent_score, fdiv(fmul(left_score, n_t_l), n_t)),
                    fdiv(fmul(right_score, n_t_r), n_t),
                );
                if gain > best_gain {
                    best_gain = gain;
                    best_gain_importance = gain;
                    let mut value: Vec<u8> = Vec::new();
                    value.push(pos as u8);
                    best_split_value = Some(value);
                    best_pos = pos;
                }
            }
            pos = pos + 1;
        }
        (best_split_value, best_gain, best_gain_importance)
    }

    /// Group totals of one statistic: fold of a categorical row, last
    /// prefix value otherwise.
    fn parent_stat(stat: &Vec<Vec<i64>>, iscat: bool) -> (r: Vec<i64>)
        requires
            reg_stat_wf(stat@.map_values(|v: Vec<i64>| v@)),
        ensures
            r@.len() == stat@.len(),
            forall|g: int|
                0 <= g < stat@.len() ==> (#[trigger] r@[g]) as int == reg_parent_of(
                    stat@.map_values(|v: Vec<i64>| v@),
                    iscat,
                )[g] as int,
            forall|g: int| 0 <= g < stat@.len() ==> fix_wf((#[trigger] r@[g]) as int),
    {
        let ghost gstat = stat@.map_values(|v: Vec<i64>| v@);
        let ng = stat.len();
        let mut r: Vec<i64> = Vec::new();
        let mut g: usize = 0;
        while g < ng
            invariant
                gstat == stat@.map_values(|v: Vec<i64>| v@),
                reg_stat_wf(gstat),
                ng == gstat.len(),
                g <= ng,
                r@.len() == g,
                forall|t: int|
                    0 <= t < g ==> (#[trigger] r@[t]) as int == reg_parent_of(gstat, iscat)[t] as int,
                forall|t: int| 0 <= t < g ==> fix_wf((#[trigger] r@[t]) as int),
            decreases ng - g,
        {
            proof {
                assert(gstat[g as int] == stat@[g as int]@);
            }
            let row = &stat[g];
            let len = row.len();
            let v: i64;
            if iscat {
                let mut acc: i64 = 0;
                let mut b: usize = 0;
                proof {
                    assert(row@.subrange(0, 0) =~= Seq::<i64>::empty());
                }
                while b < len
                    invariant
                        len == row@.len(),
                        forall|j: int| 0 <= j < row@.len() ==> fix_wf((#[trigger] row@[j]) as int),
                        b <= len,
                        acc as int == fold_sum(row@.subrange(0, b as int)),
                        fix_wf(acc as int),
                    decreases len - b,
                {
                    proof {
                        assert(row@.subrange(0, b + 1).drop_last() =~= row@.subrange(0, b as int));
                    }
                    acc = fadd(acc, row[b]);
                    b = b + 1;
                }
                proof {
                    assert(row@.subrange(0, len as int) =~= row@);
                }
                v = acc;
            } else {
                v = row[len - 1];
            }
            r.push(v);
            g = g + 1;
        }
        r
    }

    /// Group values at one candidate position.
    fn stat_at(stat: &Vec<Vec<i64>>, pos: usize) -> (r: Vec<i64>)
        requires
            reg_stat_wf(stat@.map_values(|v: Vec<i64>| v@)),
            pos < stat@[0]@.len(),
        ensures
            r@.len() == stat@.len(),
            forall|g: int|
                0 <= g < stat@.len() ==> (#[trigger] r@[g]) as int == reg_left_at(
                    stat@.map_values(|v: Vec<i64>| v@),
                    pos as int,
                )[g] as int,
            forall|g: int| 0 <= g < stat@.len() ==> fix_wf((#[trigger] r@[g]) as int),
    {
        let ghost gstat = stat@.map_values(|v: Vec<i64>| v@);
        let ng = stat.len();
        let mut r: Vec<i64> = Vec::new();
        let mut g: usize = 0;
        while g < ng
            invariant
                gstat == stat@.map_values(|v: Vec<i64>| v@),
                reg_stat_wf(gstat),
                ng == gstat.len(),
                pos < gstat[0].len(),
                g <= ng,
                r@.len() == g,
                forall|t: int|
                    0 <= t < g ==> (#[trigger] r@[t]) as int == reg_left_at(
                        gstat,
                        pos as int,
                    )[t] as int,
                forall|t: int| 0 <= t < g ==> fix_wf((#[trigger] r@[t]) as int),
            decreases ng - g,
        {
            proof {
                assert(gstat[g as int] == stat@[g as int]@);
            }
            r.push(stat[g][pos]);
            g = g + 1;
        }
        r
    }

    /// Element-wise clipped difference of two group vectors.
    fn stat_difference(parent_stat: &Vec<i64>, child_stat: &Vec<i64>) -> (r: Vec<i64>)
        requires
            parent_stat@.len() == child_stat@.len(),
            forall|g: int|
                0 <= g < parent_stat@.len() ==> fix_wf((#[trigger] parent_stat@[g]) as int),
            forall|g: int|
                0 <= g < child_stat@.len() ==> fix_wf((#[trigger] child_stat@[g]) as int),
        ensures
            r@.len() == parent_stat@.len(),
            forall|g: int|
                0 <= g < parent_stat@.len() ==> (#[trigger] r@[g]) as int == clip(
                    parent_stat@[g] - child_stat@[g],
                ),
            forall|g: int| 0 <= g < parent_stat@.len() ==> fix_wf((#[trigger] r@[g]) as int),
    {
        let n = parent_stat.len();
        let mut r: Vec<i64> = Vec::new();
        let mut g: usize = 0;
        while g < n
            invariant
                n == parent_stat@.len(),
                n == child_stat@.len(),
                forall|t: int|
                    0 <= t < n ==> fix_wf((#[trigger] parent_stat@[t]) as int),
                forall|t: int|
                    0 <= t < n ==> fix_wf((#[trigger] child_stat@[t]) as int),
                g <= n,
                r@.len() == g,
                forall|t: int|
                    0 <= t < g ==> (#[trigger] r@[t]) as int == clip(
                        parent_stat@[t] - child_stat@[t],
                    ),
                forall|t: int| 0 <= t < g ==> fix_wf((#[trigger] r@[t]) as int),
            decreases n - g,
        {
            r.push(fsub(parent_stat[g], child_stat[g]));
            g = g + 1;
        }
        r
    }
}


/// A statistic built by a kernel is exactly the specification table.
proof fn lemma_reg_matches_table(
    m: DMatrix,
    idx: Seq<usize>,
    f: int,
    kind: RegKind,
    iscat: bool,
    stat: Seq<Seq<i64>>,
    fs: int,
    ts: int,
)
    requires
        m.wf(),
        crate::statistic::kernel_pre(m, f, 0, idx, fs, ts),
        crate::statistic::reg_stat_ok(stat, m, kind, iscat, 0, idx, f, fs, ts),
        ts >= 2,
    ensures
        stat == reg_table_of(m, idx, f, iscat, kind),
        reg_stat_wf(reg_table_of(m, idx, f, iscat, kind)),
{
    let gt = reg_table_of(m, idx, f, iscat, kind);
    assert forall|g: int| 0 <= g < ts implies stat[g] == gt[g] by {
        assert(stat[g] =~= gt[g]);
    }
    assert(stat =~= gt);
}

impl RegressionStrategy {
    /// The per-group mean summary of the node: weighted response sum over
    /// weight, one row per treatment group.
    pub open spec fn mean_summary_of(m: DMatrix, idx: Seq<usize>, f: int, iscat: bool) -> Seq<
        Seq<i64>,
    > {
        let psum = reg_parent_of(reg_table_of(m, idx, f, iscat, RegKind::YSum), iscat);
        let pcnt = reg_parent_of(reg_table_of(m, idx, f, iscat, RegKind::WeightSum), iscat);
        Seq::new(
            m.treatment_size@[0] as nat,
            |g: int| seq![clip(div_val(psum[g] as int, pcnt[g] as int)) as i64],
        )
    }

    /// Build the node's three statistics under one feature and search them;
    /// the returned record carries the winning boundary (or marks a leaf)
    /// and the per-group mean summary.
    #[verifier::rlimit(100)]
    pub fn find_best_split(
        &self,
        m: &DMatrix,
        node_id: usize,
        feature_id: usize,
        indices: &Vec<usize>,
    ) -> (r: SplitInfo)
        requires
            self.wf(),
            m.wf(),
            feature_id < m.n_features(),
            m.treatment_size@[0] >= 2,
            forall|k: int| 0 <= k < indices@.len() ==> #[trigger] indices@[k] < m.rows(),
            indices@.len() <= crate::dmatrix::MAX_ROWS,
        ensures
            ({
                let iscat = m.is_bool@[feature_id as int];
                let f = feature_id as int;
                let gsums = reg_table_of(*m, indices@, f, iscat, RegKind::YSum);
                let gmoms = reg_table_of(*m, indices@, f, iscat, RegKind::YSquareSum);
                let gcnts = reg_table_of(*m, indices@, f, iscat, RegKind::WeightSum);
                let n_splits = m.bin_size@[f] as int;
                &&& r.node_id == node_id
                &&& r.feature_id == feature_id
                &&& r.treatment_id == 0
                &&& r.iscat == iscat
                &&& r.summary@.map_values(|v: Vec<i64>| v@) == Self::mean_summary_of(
                    *m,
                    indices@,
                    f,
                    iscat,
                )
                &&& r.summary_ok()
                &&& match r.value {
                    None => r.gain == 0 && forall|pos: int|
                        #![trigger self.reg_cand_gain(gsums, gmoms, gcnts, iscat, pos)]
                        0 <= pos < n_splits ==> (match self.reg_cand_gain(
                            gsums,
                            gmoms,
                            gcnts,
                            iscat,
                            pos,
                        ) {
                            Some(gg) => gg.0 <= 0,
                            None => true,
                        }),
                    Some(v) => {
                        &&& v@.len() == 1
                        &&& (v@[0] as int) < n_splits
                        &&& self.reg_cand_gain(gsums, gmoms, gcnts, iscat, v@[0] as int) == Some(
                            (r.gain as int, r.gain_importance as int),
                        )
                        &&& r.gain > 0
                        &&& forall|pos: int|
                            #![trigger self.reg_cand_gain(gsums, gmoms, gcnts, iscat, pos)]
                            0 <= pos < n_splits ==> (match self.reg_cand_gain(
                                gsums,
                                gmoms,
                                gcnts,
                                iscat,
                                pos,
                            ) {
                                Some(gg) => gg.0 <= r.gain,
                                None => true,
                            })
                        &&& forall|pos: int|
                            #![trigger self.reg_cand_gain(gsums, gmoms, gcnts, iscat, pos)]
                            0 <= pos < v@[0] ==> (match self.reg_cand_gain(
                                gsums,
                                gmoms,
                                gcnts,
                                iscat,
                                pos,
                            ) {
                                Some(gg) => gg.0 < r.gain,
                                None => true,
                            })
                    },
                }
            }),
            self.split_describes(*m, indices@, node_id as int, feature_id as int, r),
    {
        let iscat = m.is_bool[feature_id];
        let feature_size = m.bin_size[feature_id];
        let treatment_id: usize = 0;
        let treatment_size = m.treatment_size[treatment_id];

        let sum = Sum::calculate(m, feature_id, iscat, treatment_id, indices, feature_size,
            treatment_size);
        let moment = SecondOrderSum::calculate(m, feature_id, iscat, treatment_id, indices,
            feature_size, treatment_size);
        let count = CountNoY::calculate(m, feature_id, iscat, treatment_id, indices,
            feature_size, treatment_size);
        proof {
            lemma_reg_matches_table(*m, indices@, feature_id as int, RegKind::YSum, iscat,
                sum.stat@.map_values(|v: Vec<i64>| v@), feature_size as int,
                treatment_size as int);
            lemma_reg_matches_table(*m, indices@, feature_id as int, RegKind::YSquareSum, iscat,
                moment.stat@.map_values(|v: Vec<i64>| v@), feature_size as int,
                treatment_size as int);
            lemma_reg_matches_table(*m, indices@, feature_id as int, RegKind::WeightSum, iscat,
                count.stat@.map_values(|v: Vec<i64>| v@), feature_size as int,
                treatment_size as int);
            assert(sum.stat@.map_values(|v: Vec<i64>| v@)[0] == sum.stat@[0]@);
            assert(moment.stat@.map_values(|v: Vec<i64>| v@)[0] == moment.stat@[0]@);
            assert(count.stat@.map_values(|v: Vec<i64>| v@)[0] == count.stat@[0]@);
        }
        let (value, gain, gain_importance) = self.find_best_split_plain(&sum, &moment, &count);

        let parent_sum = Self::parent_stat(&sum.stat, iscat);
        let parent_count = Self::parent_stat(&count.stat, iscat);
        let mut summary: Vec<Vec<i64>> = Vec::new();
        let n_treatment = parent_sum.len();
        let mut i: usize = 0;
        while i < n_treatment
            invariant
                n_treatment == parent_sum@.len(),
                parent_count@.len() == n_treatment,
                forall|g: int| 0 <= g < n_treatment ==> fix_wf((#[trigger] parent_sum@[g]) as int),
                forall|g: int|
                    0 <= g < n_treatment ==> fix_wf((#[trigger] parent_count@[g]) as int),
                i <= n_treatment,
                summary@.len() == i,
                forall|g: int|
                    0 <= g < i ==> (#[trigger] summary@[g])@.len() == 1,
                forall|g: int|
                    0 <= g < i ==> (#[trigger] summary@[g])@[0] as int == clip(
                        div_val(parent_sum@[g] as int, parent_count@[g] as int),
                    ),
                forall|g: int|
                    0 <= g < i ==> fix_wf((#[trigger] summary@[g])@[0] as int),
            decreases n_treatment - i,
        {
            let mut mean: Vec<i64> = Vec::new();
            mean.push(fdiv(parent_sum[i], parent_count[i]));
            summary.push(mean);
            i = i + 1;
        }
        proof {
            reveal(RegressionStrategy::split_describes);
            let ms = Self::mean_summary_of(*m, indices@, feature_id as int, iscat);
            let mapped = summary@.map_values(|v: Vec<i64>| v@);
            assert forall|g: int| 0 <= g < n_treatment implies mapped[g] == ms[g] by {
                assert(mapped[g] == summary@[g]@);
                assert(summary@[g]@ =~= ms[g]);
            }
            assert(mapped =~= ms);
        }
        SplitInfo {
            node_id,
            feature_id,
            treatment_id,
            iscat,
            value,
            gain,
            gain_importance,
            summary,
        }
    }
}


impl RegressionStrategy {
    /// Everything the criterion promises of the record it emits for one
    /// node and feature: the identifiers, the per-group mean summary, and
    /// the winner description over the candidate gains.
    #[verifier::opaque]
    pub open spec fn split_describes(
        self,
        m: DMatrix,
        idx: Seq<usize>,
        node_id: int,
        feature_id: int,
        r: SplitInfo,
    ) -> bool {
        let iscat = m.is_bool@[feature_id];
        let gsums = reg_table_of(m, idx, feature_id, iscat, RegKind::YSum);
        let gmoms = reg_table_of(m, idx, feature_id, iscat, RegKind::YSquareSum);
        let gcnts = reg_table_of(m, idx, feature_id, iscat, RegKind::WeightSum);
        let n_splits = m.bin_size@[feature_id] as int;
        &&& r.node_id == node_id
        &&& r.feature_id == feature_id
        &&& r.treatment_id == 0
        &&& r.iscat == iscat
        &&& r.summary@.map_values(|v: Vec<i64>| v@) == Self::mean_summary_of(
            m,
            idx,
            feature_id,
            iscat,
        )
        &&& r.summary_ok()
        &&& match r.value {
            None => r.gain == 0 && forall|pos: int|
                #![trigger self.reg_cand_gain(gsums, gmoms, gcnts, iscat, pos)]
                0 <= pos < n_splits ==> (match self.reg_cand_gain(gsums, gmoms, gcnts, iscat, pos) {
                    Some(gg) => gg.0 <= 0,
                    None => true,
                }),
            Some(v) => {
                &&& v@.len() == 1
                &&& (v@[0] as int) < n_splits
                &&& self.reg_cand_gain(gsums, gmoms, gcnts, iscat, v@[0] as int) == Some(
                    (r.gain as int, r.gain_importance as int),
                )
                &&& r.gain > 0
                &&& forall|pos: int|
                    #![trigger self.reg_cand_gain(gsums, gmoms, gcnts, iscat, pos)]
                    0 <= pos < n_splits ==> (match self.reg_cand_gain(
                        gsums,
                        gmoms,
                        gcnts,
                        iscat,
                        pos,
                    ) {
                        Some(gg) => gg.0 <= r.gain,
                        None => true,
                    })
                &&& forall|pos: int|
                    #![trigger self.reg_cand_gain(gsums, gmoms, gcnts, iscat, pos)]
                    0 <= pos < v@[0] ==> (match self.reg_cand_gain(
                        gsums,
                        gmoms,
                        gcnts,
                        iscat,
                        pos,
                    ) {
                        Some(gg) => gg.0 < r.gain,
                        None => true,
                    })
            },
        }
    }
}

} // verus!



