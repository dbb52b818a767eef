//! The Kullback-Leibler split criterion for binary responses: each treatment
//! group's positive-rate is compared against the control group's, and the
//! candidate boundary with the largest divergence gain wins.
//!
//! Every quantity is fixed-point; each spec function pins its executable
//! counterpart exactly, operation by operation.

use vstd::prelude::*;
use crate::statistic::{Count, count_cell, count_prefix};
use crate::config::TreeConfig;
use crate::dmatrix::DMatrix;
use crate::split_info::SplitInfo;
use crate::fixed::{
    SCALE, CLIP, clip, mag, mul_val, div_val, ln_val, fix_wf, fadd, fsub, fmul, fdiv, fln,
    lemma_div_val_le_scale, lemma_mul_val_prob, lemma_div_val_ge_one,
};

verus! {

/// One fixed-point unit of the machine epsilon of the caller's raw values.
pub const EPS_FLOAT: i64 = 2;

/// The probability floor `1e-6`, in fixed point.
pub const EPS_KL: i64 = 16;

/// `0.1` in fixed point, the additive guard of the normalization divisions.
pub const TENTH: i64 = 1677721;

/// Divergence `KL(pk || qk)` between two Bernoulli rates in `[0, 1]`:
/// `qk` is clamped away from zero and one, degenerate `pk` fall back to a
/// single logarithm, and the result is floored at zero, where the true
/// divergence sits.
pub open spec fn kl_div(pk: int, qk: int) -> int {
    if qk < EPS_FLOAT as int {
        0
    } else {
        let q1 = if qk > EPS_KL as int {
            qk
        } else {
            EPS_KL as int
        };
        let qc = if q1 < SCALE as int - EPS_KL as int {
            q1
        } else {
            SCALE as int - EPS_KL as int
        };
        if pk < EPS_FLOAT as int {
            -ln_val(SCALE as int - qc)
        } else if SCALE as int - pk < EPS_FLOAT as int {
            -ln_val(qc)
        } else {
            let t1 = clip(mul_val(pk, ln_val(clip(div_val(pk, qc)))));
            let t2 = clip(
                mul_val(SCALE as int - pk, ln_val(clip(div_val(SCALE as int - pk, SCALE as int - qc)))),
            );
            if clip(t1 + t2) < 0 {
                0
            } else {
                clip(t1 + t2)
            }
        }
    }
}

/// The divergence never goes below zero: the degenerate branches negate a
/// logarithm of a value of at most one, and the main branch is floored at
/// zero, where truncation could otherwise dip a few units under.
pub proof fn lemma_kl_div_nonneg(pk: int, qk: int)
    requires
        0 <= pk <= SCALE as int,
        0 <= qk <= SCALE as int,
    ensures
        kl_div(pk, qk) >= 0,
{
    if qk >= EPS_FLOAT as int {
        let q1 = if qk > EPS_KL as int {
            qk
        } else {
            EPS_KL as int
        };
        let qc = if q1 < SCALE as int - EPS_KL as int {
            q1
        } else {
            SCALE as int - EPS_KL as int
        };
        if pk < EPS_FLOAT as int {
            crate::fixed::lemma_ln_val_nonpos(SCALE as int - qc);
        } else if SCALE as int - pk < EPS_FLOAT as int {
            crate::fixed::lemma_ln_val_nonpos(qc);
        }
    }
}

/// The divergence of two rates stays within a small fixed bound.
pub proof fn lemma_kl_div_bounds(pk: int, qk: int)
    requires
        0 <= pk <= SCALE as int,
        0 <= qk <= SCALE as int,
    ensures
        0 <= kl_div(pk, qk) <= 130 * (SCALE as int),
{
    lemma_kl_div_nonneg(pk, qk);
    if qk >= EPS_FLOAT as int {
        let q1 = if qk > EPS_KL as int {
            qk
        } else {
            EPS_KL as int
        };
        let qc = if q1 < SCALE as int - EPS_KL as int {
            q1
        } else {
            SCALE as int - EPS_KL as int
        };
        if pk < EPS_FLOAT as int {
            crate::fixed::lemma_ln_val_bounds(SCALE as int - qc);
        } else if SCALE as int - pk < EPS_FLOAT as int {
            crate::fixed::lemma_ln_val_bounds(qc);
        } else {
            assert(qc <= pk * (SCALE as int) && (SCALE as int - qc) <= (SCALE as int - pk) * (
            SCALE as int)) by (nonlinear_arith)
                requires
                    2 <= pk,
                    2 <= SCALE as int - pk,
                    0 < qc <= SCALE as int,
                    0 < SCALE as int - qc <= SCALE as int,
            ;
            lemma_div_val_ge_one(pk, qc);
            lemma_div_val_ge_one(SCALE as int - pk, SCALE as int - qc);
            lemma_ratio_small(pk, qc);
            lemma_ratio_small(SCALE as int - pk, SCALE as int - qc);
            crate::fixed::lemma_ln_val_bounds(clip(div_val(pk, qc)));
            crate::fixed::lemma_ln_val_bounds(clip(div_val(SCALE as int - pk, SCALE as int - qc)));
            lemma_mul_val_prob_signed(pk, ln_val(clip(div_val(pk, qc))));
            lemma_mul_val_prob_signed(
                SCALE as int - pk,
                ln_val(clip(div_val(SCALE as int - pk, SCALE as int - qc))),
            );
        }
    }
}

/// Divergence of two Bernoulli rates, exactly [`kl_div`].
pub fn kl_divergence(pk: i64, qk: i64) -> (r: i64)
    requires
        0 <= pk <= SCALE,
        0 <= qk <= SCALE,
    ensures
        r as int == kl_div(pk as int, qk as int),
        0 <= r as int <= 130 * (SCALE as int),
{
    proof {
        lemma_kl_div_nonneg(pk as int, qk as int);
    }
    if qk < EPS_FLOAT {
        return 0;
    }
    let q1 = if qk > EPS_KL {
        qk
    } else {
        EPS_KL
    };
    let qc = if q1 < SCALE - EPS_KL {
        q1
    } else {
        SCALE - EPS_KL
    };
    if pk < EPS_FLOAT {
        let l = fln(SCALE - qc);
        proof {
            crate::fixed::lemma_ln_val_nonpos(SCALE as int - qc);
        }
        -l
    } else if SCALE - pk < EPS_FLOAT {
        let l = fln(qc);
        proof {
            crate::fixed::lemma_ln_val_nonpos(qc as int);
        }
        -l
    } else {
        proof {
            assert(qc as int <= pk as int * (SCALE as int) && (SCALE as int - qc) <= (
            SCALE as int - pk) * (SCALE as int)) by (nonlinear_arith)
                requires
                    2 <= pk as int,
                    2 <= SCALE as int - pk,
                    0 < qc as int <= SCALE as int,
                    0 < SCALE as int - qc <= SCALE as int,
            ;
            lemma_div_val_ge_one(pk as int, qc as int);
            lemma_div_val_ge_one(SCALE as int - pk, SCALE as int - qc as int);
            lemma_ratio_small(pk as int, qc as int);
            lemma_ratio_small(SCALE as int - pk, SCALE as int - qc as int);
        }
        let r1 = fdiv(pk, qc);
        let l1 = fln(r1);
        let t1 = fmul(pk, l1);
        let r2 = fdiv(SCALE - pk, SCALE - qc);
        let l2 = fln(r2);
        let t2 = fmul(SCALE - pk, l2);
        proof {
            lemma_mul_val_prob_signed(pk as int, l1 as int);
            lemma_mul_val_prob_signed(SCALE as int - pk, l2 as int);
        }
        let raw = fadd(t1, t2);
        if raw < 0 {
            0
        } else {
            raw
        }
    }
}

/// A clipped ratio of two bounded positives stays comfortably in range.
proof fn lemma_ratio_small(a: int, b: int)
    requires
        1 <= a <= SCALE as int,
        1 <= b <= SCALE as int,
    ensures
        0 <= clip(div_val(a, b)) <= (SCALE as int) * (SCALE as int),
        clip(div_val(a, b)) == div_val(a, b),
{
    assert(a * (SCALE as int) <= (SCALE as int) * (SCALE as int)) by (nonlinear_arith)
        requires
            0 <= a <= SCALE as int,
    ;
    assert(0 <= a * (SCALE as int)) by (nonlinear_arith)
        requires
            0 <= a,
    ;
    vstd::arithmetic::div_mod::lemma_div_is_ordered(
        a * (SCALE as int),
        (SCALE as int) * (SCALE as int),
        b,
    );
    vstd::arithmetic::div_mod::lemma_div_is_ordered_by_denominator(
        (SCALE as int) * (SCALE as int),
        1,
        b,
    );
    vstd::arithmetic::div_mod::lemma_div_pos_is_pos(a * (SCALE as int), b);
}

/// Scaling a signed bounded value by a probability keeps its magnitude.
proof fn lemma_mul_val_prob_signed(p: int, v: int)
    requires
        0 <= p <= SCALE as int,
        -64 * (SCALE as int) <= v <= 64 * (SCALE as int),
    ensures
        -64 * (SCALE as int) <= mul_val(p, v) <= 64 * (SCALE as int),
        clip(mul_val(p, v)) == mul_val(p, v),
{
    lemma_mul_val_prob(p, if v < 0 {
        -v
    } else {
        v
    });
}


/// Shape of a class-count table: positives and negatives for `ng` groups,
/// every cell a nonnegative fixed-point value.
pub open spec fn count_ok(count: Seq<Seq<i64>>, ng: int) -> bool {
    &&& count.len() == 2
    &&& count[0].len() == ng
    &&& count[1].len() == ng
    &&& forall|c: int, i: int|
        0 <= c < 2 && 0 <= i < ng ==> 0 <= (#[trigger] count[c][i]) as int <= CLIP as int
}

/// Shape of a node summary: per group a `[rate, total]` row with the rate
/// in `[0, 1]`.
pub open spec fn summaries_ok(s: Seq<Seq<i64>>, ng: int) -> bool {
    &&& s.len() == ng
    &&& forall|i: int| 0 <= i < ng ==> (#[trigger] s[i]).len() == 2
    &&& forall|i: int| 0 <= i < ng ==> 0 <= (#[trigger] s[i])[0] <= SCALE
    &&& forall|i: int| 0 <= i < ng ==> 0 <= (#[trigger] s[i])[1] <= CLIP
}

/// Total weight of group `i`: negatives plus positives.
pub open spec fn summary_n(count: Seq<Seq<i64>>, i: int) -> int {
    clip(count[0][i] + count[1][i])
}

/// Regularized positive rate of group `i`: the plain rate at the root; under
/// a parent, smoothed toward the parent rate, or replaced by it entirely
/// when the group is small.
pub open spec fn summary_p(
    count: Seq<Seq<i64>>,
    parent: Option<Seq<Seq<i64>>>,
    mst: int,
    nreg: int,
    i: int,
) -> int {
    let n = summary_n(count, i);
    let n_pos = count[1][i] as int;
    let p0 = if n > 0 {
        clip(div_val(n_pos, n))
    } else {
        0
    };
    match parent {
        None => p0,
        Some(ps) => {
            let pp = ps[i][0] as int;
            if n > mst * (SCALE as int) {
                clip(
                    div_val(
                        clip(n_pos + clip(mul_val(pp, nreg * (SCALE as int)))),
                        clip(n + nreg * (SCALE as int)),
                    ),
                )
            } else {
                pp
            }
        },
    }
}

/// Node score: the sum of the divergences of every non-control group's rate
/// against the control rate, over the first `i` groups.
pub open spec fn eval_to(s: Seq<Seq<i64>>, i: int) -> int
    decreases i,
{
    if i <= 1 {
        0
    } else {
        clip(eval_to(s, i - 1) + kl_div(s[i - 1][0] as int, s[0][0] as int))
    }
}

/// A node score is never negative: it sums nonnegative divergences.
pub proof fn lemma_eval_to_nonneg(s: Seq<Seq<i64>>, i: int)
    requires
        summaries_ok(s, s.len() as int),
        i <= s.len(),
    ensures
        eval_to(s, i) >= 0,
    decreases i,
{
    if i > 1 {
        lemma_eval_to_nonneg(s, i - 1);
        lemma_kl_div_nonneg(s[i - 1][0] as int, s[0][0] as int);
    }
}

/// The split criterion driven by the divergence of positive rates.
#[derive(Clone, Copy, Debug)]
pub struct KLStrategy {
    pub min_samples_leaf: usize,
    pub min_samples_treatment: usize,
    pub n_reg: usize,
    pub alpha: i64,
    pub normalization: bool,
}

impl KLStrategy {
    /// Strategy parameters within the fixed-point range.
    pub open spec fn wf(self) -> bool {
        &&& self.min_samples_leaf <= 0x4000_0000
        &&& self.min_samples_treatment <= 0x4000_0000
        &&& self.n_reg <= 0x4000_0000
        &&& 0 <= self.alpha <= SCALE
    }

    /// Per-group `[rate, total]` summary of a class-count table, regularized
    /// against the parent summary when one is given.
    pub fn count_reg(
        count: &Vec<Vec<i64>>,
        parent: &Option<Vec<Vec<i64>>>,
        min_samples_treatment: usize,
        n_reg: usize,
    ) -> (r: Vec<Vec<i64>>)
        requires
            count@.len() == 2,
            count_ok(count@.map_values(|v: Vec<i64>| v@), count@[0]@.len() as int),
            count@[1]@.len() == count@[0]@.len(),
            match parent {
                Some(ps) => summaries_ok(
                    ps@.map_values(|v: Vec<i64>| v@),
                    count@[0]@.len() as int,
                ),
                None => true,
            },
            min_samples_treatment <= 0x4000_0000,
            n_reg <= 0x4000_0000,
        ensures
            summaries_ok(r@.map_values(|v: Vec<i64>| v@), count@[0]@.len() as int),
            forall|i: int|
                0 <= i < count@[0]@.len() ==> (#[trigger] r@[i]@[0]) as int == summary_p(
                    count@.map_values(|v: Vec<i64>| v@),
                    match parent {
                        Some(ps) => Some(ps@.map_values(|v: Vec<i64>| v@)),
                        None => None,
                    },
                    min_samples_treatment as int,
                    n_reg as int,
                    i,
                ),
            forall|i: int|
                0 <= i < count@[0]@.len() ==> (#[trigger] r@[i]@[1]) as int == summary_n(
                    count@.map_values(|v: Vec<i64>| v@),
                    i,
                ),
    {
        let ghost gcount = count@.map_values(|v: Vec<i64>| v@);
        let ghost gparent: Option<Seq<Seq<i64>>> = match parent {
            Some(ps) => Some(ps@.map_values(|v: Vec<i64>| v@)),
            None => None,
        };
        let n_groups = count[0].len();
        let mst_fix: i64 = (min_samples_treatment as i64) * SCALE;
        let nreg_fix: i64 = (n_reg as i64) * SCALE;
        let mut node_summary: Vec<Vec<i64>> = Vec::new();
        let mut i: usize = 0;
        while i < n_groups
            invariant
                count@.len() == 2,
                gcount == count@.map_values(|v: Vec<i64>| v@),
                count_ok(gcount, n_groups as int),
                n_groups == count@[0]@.len(),
                count@[1]@.len() == n_groups,
                match parent {
                    Some(ps) => gparent == Some(ps@.map_values(|v: Vec<i64>| v@))
                        && summaries_ok(ps@.map_values(|v: Vec<i64>| v@), n_groups as int),
                    None => gparent is None,
                },
                min_samples_treatment <= 0x4000_0000,
                n_reg <= 0x4000_0000,
                mst_fix as int == min_samples_treatment * (SCALE as int),
                nreg_fix as int == n_reg * (SCALE as int),
                i <= n_groups,
                node_summary@.len() == i,
                forall|k: int|
                    0 <= k < i ==> (#[trigger] node_summary@[k])@.len() == 2,
                forall|k: int|
                    0 <= k < i ==> (#[trigger] node_summary@[k])@[0] as int == summary_p(
                        gcount,
                        gparent,
                        min_samples_treatment as int,
                        n_reg as int,
                        k,
                    ) && 0 <= node_summary@[k]@[0] <= SCALE,
                forall|k: int|
                    0 <= k < i ==> (#[trigger] node_summary@[k])@[1] as int == summary_n(
                        gcount,
                        k,
                    ) && 0 <= node_summary@[k]@[1] <= CLIP,
            decreases n_groups - i,
        {
            let n_neg = count[0][i];
            let n_pos = count[1][i];
            let n = fadd(n_neg, n_pos);
            proof {
                assert(n_pos as int <= n as int);
            }
            let mut p: i64 = 0;
            if n > 0 {
                proof {
                    lemma_div_val_le_scale(n_pos as int, n as int);
                }
                p = fdiv(n_pos, n);
            }
            match parent {
                Some(ps) => {
                    proof {
                        let mapped = ps@.map_values(|v: Vec<i64>| v@);
                        assert(mapped.len() == ps@.len());
                        assert(mapped[i as int] == ps@[i as int]@);
                    }
                    let pp = ps[i][0];
                    if n > mst_fix {
                        proof {
                            lemma_mul_val_prob(pp as int, nreg_fix as int);
                        }
                        let t = fmul(pp, nreg_fix);
                        let num = fadd(n_pos, t);
                        let den = fadd(n, nreg_fix);
                        proof {
                            assert(num as int <= den as int);
                            lemma_div_val_le_scale(num as int, den as int);
                        }
                        p = fdiv(num, den);
                    } else {
                        p = pp;
                    }
                },
                None => (),
            }
            let mut row: Vec<i64> = Vec::new();
            row.push(p);
            row.push(n);
            node_summary.push(row);
            i = i + 1;
        }
        proof {
            let mapped = node_summary@.map_values(|v: Vec<i64>| v@);
            assert forall|k: int| 0 <= k < n_groups implies mapped[k]
                == (#[trigger] node_summary@[k])@ by {}
        }
        node_summary
    }

    /// Node score of a summary: the divergences of every non-control group
    /// against the control group, summed.
    pub fn evaluation(node_summary: &Vec<Vec<i64>>) -> (r: i64)
        requires
            node_summary@.len() >= 1,
            summaries_ok(
                node_summary@.map_values(|v: Vec<i64>| v@),
                node_summary@.len() as int,
            ),
        ensures
            r as int == eval_to(
                node_summary@.map_values(|v: Vec<i64>| v@),
                node_summary@.len() as int,
            ),
            0 <= r as int,
            fix_wf(r as int),
    {
        proof {
            lemma_eval_to_nonneg(
                node_summary@.map_values(|v: Vec<i64>| v@),
                node_summary@.len() as int,
            );
        }
        let ghost gs = node_summary@.map_values(|v: Vec<i64>| v@);
        proof {
            assert(gs.len() == node_summary@.len());
            assert(gs[0] == node_summary@[0]@);
        }
        let p_c = node_summary[0][0];
        let n = node_summary.len();
        let mut s: i64 = 0;
        let mut i: usize = 1;
        while i < n
            invariant
                n == node_summary@.len(),
                gs == node_summary@.map_values(|v: Vec<i64>| v@),
                summaries_ok(gs, n as int),
                p_c as int == gs[0][0] as int,
                1 <= i <= n || (n == 1 && i == 1),
                s as int == eval_to(gs, i as int),
                fix_wf(s as int),
            decreases n - i,
        {
            proof {
                assert(gs[i as int] == node_summary@[i as int]@);
            }
            let p = node_summary[i][0];
            let d = kl_divergence(p, p_c);
            s = fadd(s, d);
            i = i + 1;
        }
        s
    }
}


/// `0.5` in fixed point, the normalization floor.
pub const HALF: i64 = 8388608;

/// Entropy term `H(p, q)`: `-p * ln(p)` when `q` stands for the marker value
/// minus one, `-p * ln(q)` for positive `q`, zero otherwise.
pub open spec fn entropy_val(p: int, q: int) -> int {
    if -(SCALE as int) - EPS_FLOAT as int <= q <= -(SCALE as int) + EPS_FLOAT as int && p > 0 {
        -clip(mul_val(p, ln_val(p)))
    } else if q > 0 {
        -clip(mul_val(p, ln_val(q)))
    } else {
        0
    }
}

/// The entropy term is never negative: both logarithm arguments are at
/// most one.
proof fn lemma_entropy_nonneg(p: int, q: int)
    requires
        0 <= p <= SCALE as int,
        fix_wf(q),
        q <= SCALE as int,
    ensures
        entropy_val(p, q) >= 0,
{
    if -(SCALE as int) - EPS_FLOAT as int <= q <= -(SCALE as int) + EPS_FLOAT as int && p > 0 {
        crate::fixed::lemma_ln_val_nonpos(p);
        crate::fixed::lemma_mul_val_nonpos(p, ln_val(p));
    } else if q > 0 {
        crate::fixed::lemma_ln_val_nonpos(q);
        crate::fixed::lemma_mul_val_nonpos(p, ln_val(q));
    }
}

/// Entropy term, exactly [`entropy_val`].
pub fn entropy_h(p: i64, q: i64) -> (r: i64)
    requires
        0 <= p <= SCALE,
        fix_wf(q as int),
        q <= SCALE,
    ensures
        r as int == entropy_val(p as int, q as int),
        0 <= r as int <= 64 * (SCALE as int),
{
    proof {
        lemma_entropy_nonneg(p as int, q as int);
    }
    if q >= -SCALE - EPS_FLOAT && q <= -SCALE + EPS_FLOAT && p > 0 {
        proof {
            crate::fixed::lemma_ln_val_bounds(p as int);
            lemma_mul_val_prob_signed(p as int, ln_val(p as int));
        }
        let l = fln(p);
        -fmul(p, l)
    } else if q > 0 {
        proof {
            crate::fixed::lemma_ln_val_bounds(q as int);
            lemma_mul_val_prob_signed(p as int, ln_val(q as int));
        }
        let l = fln(q);
        -fmul(p, l)
    } else {
        0
    }
}

/// The entropy term of a probability stays within the logarithm bound.
proof fn lemma_entropy_bounds(p: int, q: int)
    requires
        0 <= p <= SCALE as int,
        fix_wf(q),
        q <= SCALE as int,
    ensures
        -64 * (SCALE as int) <= entropy_val(p, q) <= 64 * (SCALE as int),
{
    if -(SCALE as int) - EPS_FLOAT as int <= q <= -(SCALE as int) + EPS_FLOAT as int && p > 0 {
        crate::fixed::lemma_ln_val_bounds(p);
        lemma_mul_val_prob_signed(p, ln_val(p));
    } else if q > 0 {
        crate::fixed::lemma_ln_val_bounds(q);
        lemma_mul_val_prob_signed(p, ln_val(q));
    }
}

/// Clipped fold of the non-control group totals of a summary, over the
/// groups before `i`.
pub open spec fn col_n_sum(s: Seq<Seq<i64>>, i: int) -> int
    decreases i,
{
    if i <= 1 {
        0
    } else {
        clip(col_n_sum(s, i - 1) + s[i - 1][1])
    }
}

/// Clipped fold of all group totals of a summary, over the groups before
/// `i`.
pub open spec fn col_n_sum_all(s: Seq<Seq<i64>>, i: int) -> int
    decreases i,
{
    if i <= 0 {
        0
    } else {
        clip(col_n_sum_all(s, i - 1) + s[i - 1][1])
    }
}

/// Minimum group total of a summary among the groups before `i`.
pub open spec fn col_n_min(s: Seq<Seq<i64>>, i: int) -> int
    decreases i,
{
    if i <= 1 {
        s[0][1] as int
    } else {
        let m = col_n_min(s, i - 1);
        if (s[i - 1][1] as int) < m {
            s[i - 1][1] as int
        } else {
            m
        }
    }
}

impl KLStrategy {
    /// One group's two normalization terms, taken at group `g`.
    pub open spec fn norm_group_terms(
        s: Seq<Seq<i64>>,
        ls: Seq<Seq<i64>>,
        alpha: int,
        pc_a: int,
        total: int,
        n_c: int,
        g: int,
    ) -> (int, int) {
        let e = s[g][1] as int;
        let le = ls[g][1] as int;
        let pt_i = clip(div_val(le, clip(e + TENTH as int)));
        let h2 = entropy_val(clip(div_val(e, clip(e + n_c))), clip(div_val(n_c, clip(e + n_c))));
        let v2 = clip(
            mul_val(clip(mul_val(SCALE as int - alpha, h2)), kl_div(pt_i, pc_a)),
        );
        let v3 = clip(mul_val(clip(div_val(e, total)), entropy_val(pt_i, -(SCALE as int))));
        (v2, v3)
    }

    /// Normalization accumulator after the groups before `g`, starting from
    /// the first term `v1`.
    pub open spec fn norm_acc(
        s: Seq<Seq<i64>>,
        ls: Seq<Seq<i64>>,
        alpha: int,
        pc_a: int,
        total: int,
        n_c: int,
        v1: int,
        g: int,
    ) -> int
        decreases g,
    {
        if g <= 1 {
            v1
        } else {
            let (v2, v3) = Self::norm_group_terms(s, ls, alpha, pc_a, total, n_c, g - 1);
            clip(clip(Self::norm_acc(s, ls, alpha, pc_a, total, n_c, v1, g - 1) + v2) + v3)
        }
    }

    /// The full normalization factor of a candidate split.
    pub open spec fn norm_val(s: Seq<Seq<i64>>, ls: Seq<Seq<i64>>, alpha: int) -> int {
        let ng = s.len() as int;
        let n_c = s[0][1] as int;
        let lc = ls[0][1] as int;
        let nts = col_n_sum(s, ng);
        let ntls = col_n_sum(ls, ng);
        let total = clip(nts + n_c);
        let pt_a = clip(div_val(ntls, clip(nts + TENTH as int)));
        let pc_a = clip(div_val(lc, clip(n_c + TENTH as int)));
        let h1 = entropy_val(clip(div_val(nts, total)), clip(div_val(n_c, total)));
        let v1 = clip(mul_val(clip(mul_val(alpha, h1)), kl_div(pt_a, pc_a)));
        let acc = Self::norm_acc(s, ls, alpha, pc_a, total, n_c, v1, ng);
        let v4 = clip(
            mul_val(clip(div_val(n_c, total)), entropy_val(pc_a, -(SCALE as int))),
        );
        clip(clip(acc + v4) + HALF as int)
    }

    /// Normalization factor, exactly [`KLStrategy::norm_val`]. The summaries
    /// must cover the same groups, each left total at most its parent total.
    #[verifier::rlimit(100)]
    pub fn norm(node_summary: &Vec<Vec<i64>>, left_node_summary: &Vec<Vec<i64>>, alpha: i64) -> (r:
        i64)
        requires
            node_summary@.len() >= 1,
            left_node_summary@.len() == node_summary@.len(),
            summaries_ok(
                node_summary@.map_values(|v: Vec<i64>| v@),
                node_summary@.len() as int,
            ),
            summaries_ok(
                left_node_summary@.map_values(|v: Vec<i64>| v@),
                node_summary@.len() as int,
            ),
            forall|i: int|
                0 <= i < node_summary@.len() ==> (#[trigger] left_node_summary@[i]@[1])
                    <= node_summary@[i]@[1],
            0 <= alpha <= SCALE,
        ensures
            r as int == KLStrategy::norm_val(
                node_summary@.map_values(|v: Vec<i64>| v@),
                left_node_summary@.map_values(|v: Vec<i64>| v@),
                alpha as int,
            ),
            HALF <= r as int,
            fix_wf(r as int),
    {
        let ghost gs = node_summary@.map_values(|v: Vec<i64>| v@);
        let ghost gls = left_node_summary@.map_values(|v: Vec<i64>| v@);
        proof {
            assert(gs.len() == node_summary@.len());
            assert(gls.len() == left_node_summary@.len());
            assert(gs[0] == node_summary@[0]@);
            assert(gls[0] == left_node_summary@[0]@);
        }
        let ng = node_summary.len();
        let n_c = node_summary[0][1];
        let lc = left_node_summary[0][1];
        // non-control totals
        let mut nts: i64 = 0;
        let mut ntls: i64 = 0;
        let mut i: usize = 1;
        while i < ng
            invariant
                ng == node_summary@.len(),
                gs == node_summary@.map_values(|v: Vec<i64>| v@),
                gls == left_node_summary@.map_values(|v: Vec<i64>| v@),
                gls.len() == gs.len(),
                summaries_ok(gs, ng as int),
                summaries_ok(gls, ng as int),
                1 <= i <= ng || (ng == 1 && i == 1),
                nts as int == col_n_sum(gs, i as int),
                ntls as int == col_n_sum(gls, i as int),
                fix_wf(nts as int),
                fix_wf(ntls as int),
            decreases ng - i,
        {
            proof {
                assert(gs[i as int] == node_summary@[i as int]@);
                assert(gls[i as int] == left_node_summary@[i as int]@);
            }
            nts = fadd(nts, node_summary[i][1]);
            ntls = fadd(ntls, left_node_summary[i][1]);
            i = i + 1;
        }
        let total = fadd(nts, n_c);
        let pt_a = fdiv(ntls, fadd(nts, TENTH));
        let pc_a = fdiv(lc, fadd(n_c, TENTH));
        proof {
            lemma_col_n_sum_le(gs, gls, ng as int);
            assert(0 <= ntls as int && ntls as int <= nts as int);
            lemma_guarded_ratio(ntls as int, nts as int);
            lemma_guarded_ratio(lc as int, n_c as int);
            lemma_div_pair_le_scale(nts as int, n_c as int);
        }
        let h1 = entropy_h(fdiv(nts, total), fdiv(n_c, total));
        proof {
            lemma_mul_val_prob_signed(alpha as int, h1 as int);
            lemma_kl_div_bounds(pt_a as int, pc_a as int);
            lemma_norm_product(alpha as int, h1 as int, kl_div(pt_a as int, pc_a as int));
        }
        let k1 = kl_divergence(pt_a, pc_a);
        proof {
            crate::fixed::lemma_mul_val_nonneg(alpha as int, h1 as int);
            crate::fixed::lemma_mul_val_nonneg(
                clip(mul_val(alpha as int, h1 as int)),
                kl_div(pt_a as int, pc_a as int),
            );
        }
        let mut norm_res = fmul(fmul(alpha, h1), k1);
        let ghost v1: int = norm_res as int;
        let mut g: usize = 1;
        while g < ng
            invariant
                ng == node_summary@.len(),
                gs == node_summary@.map_values(|v: Vec<i64>| v@),
                gls == left_node_summary@.map_values(|v: Vec<i64>| v@),
                gls.len() == gs.len(),
                summaries_ok(gs, ng as int),
                summaries_ok(gls, ng as int),
                forall|t: int|
                    0 <= t < ng ==> (#[trigger] gls[t][1]) <= gs[t][1],
                0 <= alpha <= SCALE,
                n_c as int == gs[0][1] as int,
                total as int == clip(col_n_sum(gs, ng as int) + n_c as int),
                pc_a as int == clip(
                    div_val(gls[0][1] as int, clip(gs[0][1] as int + TENTH as int)),
                ),
                0 <= pc_a <= SCALE,
                fix_wf(total as int),
                1 <= g <= ng || (ng == 1 && g == 1),
                norm_res as int == KLStrategy::norm_acc(
                    gs,
                    gls,
                    alpha as int,
                    pc_a as int,
                    total as int,
                    n_c as int,
                    v1,
                    g as int,
                ),
                0 <= norm_res as int,
                fix_wf(norm_res as int),
            decreases ng - g,
        {
            proof {
                assert(gs[g as int] == node_summary@[g as int]@);
                assert(gls[g as int] == left_node_summary@[g as int]@);
            }
            let e = node_summary[g][1];
            let le = left_node_summary[g][1];
            let pt_i = fdiv(le, fadd(e, TENTH));
            proof {
                lemma_guarded_ratio(le as int, e as int);
                lemma_div_pair_le_scale(e as int, n_c as int);
            }
            let h2 = entropy_h(fdiv(e, fadd(e, n_c)), fdiv(n_c, fadd(e, n_c)));
            proof {
                lemma_mul_val_prob_signed(SCALE as int - alpha as int, h2 as int);
                lemma_kl_div_bounds(pt_i as int, pc_a as int);
                lemma_norm_product(
                    SCALE as int - alpha as int,
                    h2 as int,
                    kl_div(pt_i as int, pc_a as int),
                );
            }
            let k2 = kl_divergence(pt_i, pc_a);
            proof {
                crate::fixed::lemma_mul_val_nonneg(SCALE as int - alpha as int, h2 as int);
                crate::fixed::lemma_mul_val_nonneg(
                    clip(mul_val(SCALE as int - alpha as int, h2 as int)),
                    kl_div(pt_i as int, pc_a as int),
                );
            }
            let v2 = fmul(fmul(SCALE - alpha, h2), k2);
            proof {
                lemma_col_n_sum_part(gs, g as int, ng as int);
                lemma_div_val_le_scale_clip(e as int, total as int);
                lemma_entropy_bounds(pt_i as int, -(SCALE as int));
                lemma_mul_val_prob_signed(
                    clip(div_val(e as int, total as int)),
                    entropy_val(pt_i as int, -(SCALE as int)),
                );
            }
            let h3 = entropy_h(pt_i, -SCALE);
            proof {
                crate::fixed::lemma_div_val_nonneg(e as int, total as int);
                crate::fixed::lemma_mul_val_nonneg(
                    clip(div_val(e as int, total as int)),
                    entropy_val(pt_i as int, -(SCALE as int)),
                );
            }
            let v3 = fmul(fdiv(e, total), h3);
            norm_res = fadd(norm_res, v2);
            norm_res = fadd(norm_res, v3);
            g = g + 1;
        }
        proof {
            lemma_div_val_le_scale_clip(n_c as int, total as int);
            lemma_guarded_ratio(lc as int, n_c as int);
            lemma_entropy_bounds(pc_a as int, -(SCALE as int));
            lemma_mul_val_prob_signed(
                clip(div_val(n_c as int, total as int)),
                entropy_val(pc_a as int, -(SCALE as int)),
            );
        }
        let h4 = entropy_h(pc_a, -SCALE);
        proof {
            crate::fixed::lemma_div_val_nonneg(n_c as int, total as int);
            crate::fixed::lemma_mul_val_nonneg(
                clip(div_val(n_c as int, total as int)),
                entropy_val(pc_a as int, -(SCALE as int)),
            );
        }
        let v4 = fmul(fdiv(n_c, total), h4);
        norm_res = fadd(norm_res, v4);
        norm_res = fadd(norm_res, HALF);
        norm_res
    }
}

/// Non-control sums of the left summary never exceed the parent's.
proof fn lemma_col_n_sum_le(s: Seq<Seq<i64>>, ls: Seq<Seq<i64>>, i: int)
    requires
        s.len() == ls.len(),
        summaries_ok(s, s.len() as int),
        summaries_ok(ls, s.len() as int),
        forall|t: int| 0 <= t < s.len() ==> (#[trigger] ls[t][1]) <= s[t][1],
        i <= s.len(),
    ensures
        0 <= col_n_sum(ls, i) <= col_n_sum(s, i),
    decreases i,
{
    if i > 1 {
        lemma_col_n_sum_le(s, ls, i - 1);
    }
}

/// One group's total is at most the clipped grand total.
proof fn lemma_col_n_sum_part(s: Seq<Seq<i64>>, g: int, ng: int)
    requires
        summaries_ok(s, s.len() as int),
        ng == s.len(),
        1 <= g < ng,
    ensures
        s[g][1] as int <= clip(col_n_sum(s, ng) + s[0][1] as int),
{
    lemma_col_n_sum_ge_one(s, g, ng);
}

proof fn lemma_col_n_sum_ge_one(s: Seq<Seq<i64>>, g: int, i: int)
    requires
        summaries_ok(s, s.len() as int),
        i <= s.len(),
        1 <= g < i,
    ensures
        s[g][1] as int <= col_n_sum(s, i) <= CLIP as int,
        0 <= col_n_sum(s, i),
    decreases i,
{
    if g < i - 1 {
        lemma_col_n_sum_ge_one(s, g, i - 1);
    } else {
        lemma_col_n_sum_nonneg(s, i - 1);
    }
}

proof fn lemma_col_n_sum_nonneg(s: Seq<Seq<i64>>, i: int)
    requires
        summaries_ok(s, s.len() as int),
        i <= s.len(),
    ensures
        0 <= col_n_sum(s, i) <= CLIP as int,
    decreases i,
{
    if i > 1 {
        lemma_col_n_sum_nonneg(s, i - 1);
    }
}

/// A ratio with a guarded denominator is a probability when the numerator
/// is at most the unguarded denominator.
proof fn lemma_guarded_ratio(a: int, b: int)
    requires
        0 <= a <= b,
        b <= CLIP as int,
    ensures
        0 <= clip(div_val(a, clip(b + TENTH as int))) <= SCALE as int,
{
    lemma_div_val_le_scale(a, clip(b + TENTH as int));
}

/// Both shares of a two-way total are probabilities.
proof fn lemma_div_pair_le_scale(a: int, b: int)
    requires
        0 <= a <= CLIP as int,
        0 <= b <= CLIP as int,
    ensures
        0 <= clip(div_val(a, clip(a + b))) <= SCALE as int,
        0 <= clip(div_val(b, clip(a + b))) <= SCALE as int,
{
    lemma_div_val_le_scale(a, clip(a + b));
    lemma_div_val_le_scale(b, clip(a + b));
}

/// A ratio of a part against a clipped total is a probability.
proof fn lemma_div_val_le_scale_clip(a: int, b: int)
    requires
        0 <= a <= b,
    ensures
        0 <= clip(div_val(a, b)) <= SCALE as int,
{
    lemma_div_val_le_scale(a, b);
}

/// The product of a factor at most one, a small entropy and a small
/// divergence stays small.
proof fn lemma_norm_product(alpha: int, h: int, k: int)
    requires
        0 <= alpha <= SCALE as int,
        -64 * (SCALE as int) <= h <= 64 * (SCALE as int),
        -130 * (SCALE as int) <= k <= 130 * (SCALE as int),
    ensures
        fix_wf(mul_val(clip(mul_val(alpha, h)), k)),
        fix_wf(clip(mul_val(alpha, h))),
{
    lemma_mul_val_prob_signed(alpha, h);
    let ah = clip(mul_val(alpha, h));
    assert(mag(ah) * mag(k) <= (64 * (SCALE as int)) * (130 * (SCALE as int))) by (
    nonlinear_arith)
        requires
            0 <= mag(ah) <= 64 * (SCALE as int),
            0 <= mag(k) <= 130 * (SCALE as int),
    ;
    vstd::arithmetic::div_mod::lemma_div_is_ordered(
        mag(ah) * mag(k),
        (64 * (SCALE as int)) * (130 * (SCALE as int)),
        SCALE as int,
    );
    vstd::arithmetic::div_mod::lemma_div_pos_is_pos(mag(ah) * mag(k), SCALE as int);
    assert((64 * (SCALE as int)) * (130 * (SCALE as int)) / (SCALE as int) < CLIP as int) by (
    nonlinear_arith)
        requires
            SCALE as int == 0x100_0000,
            CLIP as int == 0x4000_0000_0000_0000,
    ;
}


/// Whether the normalization formula meets no unguarded zero denominator:
/// the grand total is positive and every group shares some weight with the
/// control group.
pub open spec fn norm_defined(s: Seq<Seq<i64>>) -> bool {
    let ng = s.len() as int;
    let n_c = s[0][1] as int;
    &&& 0 < clip(col_n_sum(s, ng) + n_c)
    &&& forall|g: int| 1 <= g < ng ==> 0 < clip((#[trigger] s[g][1]) as int + n_c)
}

impl KLStrategy {
    /// The per-group `[rate, total]` summary rows of a count table, as a
    /// sequence.
    pub open spec fn summary_of(
        count: Seq<Seq<i64>>,
        parent: Option<Seq<Seq<i64>>>,
        mst: int,
        nreg: int,
    ) -> Seq<Seq<i64>> {
        Seq::new(
            count[0].len(),
            |i: int|
                seq![
                    summary_p(count, parent, mst, nreg, i) as i64,
                    summary_n(count, i) as i64,
                ],
        )
    }

    /// Gain of one candidate split, or nothing when a side is too small,
    /// a treatment group is too thin, the split is empty, or the enabled
    /// normalization would divide by nothing.
    pub open spec fn gain_of(
        self,
        left: Seq<Seq<i64>>,
        right: Seq<Seq<i64>>,
        parent: Seq<Seq<i64>>,
        parent_score: int,
    ) -> Option<(int, int)> {
        let ng = left[0].len() as int;
        let mst = self.min_samples_treatment as int;
        let nreg = self.n_reg as int;
        let lsum = Self::summary_of(left, Some(parent), mst, nreg);
        let rsum = Self::summary_of(right, Some(parent), mst, nreg);
        let left_score = eval_to(lsum, ng);
        let right_score = eval_to(rsum, ng);
        let ln = col_n_sum_all(lsum, ng);
        let rn = col_n_sum_all(rsum, ng);
        let ln_min = col_n_min(lsum, ng);
        let rn_min = col_n_min(rsum, ng);
        let msl_fix = self.min_samples_leaf * (SCALE as int);
        let mst_fix = mst * (SCALE as int);
        if ln < msl_fix || rn < msl_fix {
            None
        } else if ln_min < mst_fix || rn_min < mst_fix {
            None
        } else {
            let n = clip(ln + rn);
            if n == 0 {
                None
            } else {
                let p = clip(div_val(ln, n));
                let gain0 = clip(
                    clip(
                        clip(mul_val(p, left_score)) + clip(
                            mul_val(SCALE as int - p, right_score),
                        ),
                    ) - parent_score,
                );
                let gi = clip(
                    clip(
                        clip(mul_val(ln, left_score)) + clip(mul_val(rn, right_score)),
                    ) - clip(mul_val(n, parent_score)),
                );
                if self.normalization {
                    if norm_defined(parent) {
                        Some((clip(div_val(gain0, Self::norm_val(parent, lsum, self.alpha as int))), gi))
                    } else {
                        None
                    }
                } else {
                    Some((gain0, gi))
                }
            }
        }
    }

    /// Gain of one candidate split, exactly [`KLStrategy::gain_of`]. With
    /// normalization enabled, a parent summary in which some treatment
    /// group shares no weight with the control group scores no candidate:
    /// the normalization formula has no meaningful value there (reachable
    /// only with a treatment minimum of zero).
    #[verifier::rlimit(100)]
    pub fn calculate_gain(
        &self,
        left_count: &Vec<Vec<i64>>,
        right_count: &Vec<Vec<i64>>,
        parent: &Option<Vec<Vec<i64>>>,
        parent_score: i64,
    ) -> (r: Option<(i64, i64)>)
        requires
            self.wf(),
            left_count@.len() == 2,
            right_count@.len() == 2,
            left_count@[0]@.len() >= 1,
            count_ok(
                left_count@.map_values(|v: Vec<i64>| v@),
                left_count@[0]@.len() as int,
            ),
            left_count@[1]@.len() == left_count@[0]@.len(),
            count_ok(
                right_count@.map_values(|v: Vec<i64>| v@),
                left_count@[0]@.len() as int,
            ),
            right_count@[0]@.len() == left_count@[0]@.len(),
            right_count@[1]@.len() == left_count@[0]@.len(),
            parent is Some,
            summaries_ok(
                parent.unwrap()@.map_values(|v: Vec<i64>| v@),
                left_count@[0]@.len() as int,
            ),
            forall|i: int|
                0 <= i < left_count@[0]@.len() ==> summary_n(
                    left_count@.map_values(|v: Vec<i64>| v@),
                    i,
                ) <= (#[trigger] parent.unwrap()@[i]@[1]) as int,
            fix_wf(parent_score as int),
        ensures
            ({
                let gl = left_count@.map_values(|v: Vec<i64>| v@);
                let gr = right_count@.map_values(|v: Vec<i64>| v@);
                let gp = parent.unwrap()@.map_values(|v: Vec<i64>| v@);
                match r {
                    Some((g, gi)) => self.gain_of(gl, gr, gp, parent_score as int) == Some(
                        (g as int, gi as int),
                    ) && fix_wf(g as int) && fix_wf(gi as int),
                    None => self.gain_of(gl, gr, gp, parent_score as int) is None,
                }
            }),
    {
        let ghost gl = left_count@.map_values(|v: Vec<i64>| v@);
        let ghost gr = right_count@.map_values(|v: Vec<i64>| v@);
        let ghost gp = parent.unwrap()@.map_values(|v: Vec<i64>| v@);
        let ng = left_count[0].len();
        let left_node_summary = Self::count_reg(
            left_count,
            parent,
            self.min_samples_treatment,
            self.n_reg,
        );
        let right_node_summary = Self::count_reg(
            right_count,
            parent,
            self.min_samples_treatment,
            self.n_reg,
        );
        proof {
            let lsum = Self::summary_of(
                gl,
                Some(gp),
                self.min_samples_treatment as int,
                self.n_reg as int,
            );
            let mapped = left_node_summary@.map_values(|v: Vec<i64>| v@);
            assert forall|i: int| 0 <= i < ng implies mapped[i] == lsum[i] by {
                assert(mapped[i] == left_node_summary@[i]@);
                assert(left_node_summary@[i]@ =~= lsum[i]);
            }
            assert(mapped =~= lsum);
            let rsum = Self::summary_of(
                gr,
                Some(gp),
                self.min_samples_treatment as int,
                self.n_reg as int,
            );
            let rmapped = right_node_summary@.map_values(|v: Vec<i64>| v@);
            assert forall|i: int| 0 <= i < ng implies rmapped[i] == rsum[i] by {
                assert(rmapped[i] == right_node_summary@[i]@);
                assert(right_node_summary@[i]@ =~= rsum[i]);
            }
            assert(rmapped =~= rsum);
        }
        let left_score = Self::evaluation(&left_node_summary);
        let right_score = Self::evaluation(&right_node_summary);

        let mut ln: i64 = 0;
        let mut rn: i64 = 0;
        let mut i: usize = 0;
        while i < ng
            invariant
                ng == left_node_summary@.len(),
                ng == right_node_summary@.len(),
                summaries_ok(left_node_summary@.map_values(|v: Vec<i64>| v@), ng as int),
                summaries_ok(right_node_summary@.map_values(|v: Vec<i64>| v@), ng as int),
                i <= ng,
                ln as int == col_n_sum_all(
                    left_node_summary@.map_values(|v: Vec<i64>| v@),
                    i as int,
                ),
                rn as int == col_n_sum_all(
                    right_node_summary@.map_values(|v: Vec<i64>| v@),
                    i as int,
                ),
                fix_wf(ln as int),
                fix_wf(rn as int),
            decreases ng - i,
        {
            proof {
                assert(left_node_summary@.map_values(|v: Vec<i64>| v@)[i as int]
                    == left_node_summary@[i as int]@);
                assert(right_node_summary@.map_values(|v: Vec<i64>| v@)[i as int]
                    == right_node_summary@[i as int]@);
            }
            ln = fadd(ln, left_node_summary[i][1]);
            rn = fadd(rn, right_node_summary[i][1]);
            i = i + 1;
        }

        proof {
            assert(left_node_summary@.map_values(|v: Vec<i64>| v@)[0]
                == left_node_summary@[0]@);
            assert(right_node_summary@.map_values(|v: Vec<i64>| v@)[0]
                == right_node_summary@[0]@);
        }
        let mut ln_min: i64 = left_node_summary[0][1];
        let mut rn_min: i64 = right_node_summary[0][1];
        let mut j: usize = 1;
        while j < ng
            invariant
                ng == left_node_summary@.len(),
                ng == right_node_summary@.len(),
                ng >= 1,
                summaries_ok(left_node_summary@.map_values(|v: Vec<i64>| v@), ng as int),
                summaries_ok(right_node_summary@.map_values(|v: Vec<i64>| v@), ng as int),
                1 <= j <= ng || (ng == 1 && j == 1),
                ln_min as int == col_n_min(
                    left_node_summary@.map_values(|v: Vec<i64>| v@),
                    j as int,
                ),
                rn_min as int == col_n_min(
                    right_node_summary@.map_values(|v: Vec<i64>| v@),
                    j as int,
                ),
            decreases ng - j,
        {
            proof {
                assert(left_node_summary@.map_values(|v: Vec<i64>| v@)[j as int]
                    == left_node_summary@[j as int]@);
                assert(right_node_summary@.map_values(|v: Vec<i64>| v@)[j as int]
                    == right_node_summary@[j as int]@);
            }
            let lv = left_node_summary[j][1];
            if lv < ln_min {
                ln_min = lv;
            }
            let rv = right_node_summary[j][1];
            if rv < rn_min {
                rn_min = rv;
            }
            j = j + 1;
        }

        let msl_fix: i64 = (self.min_samples_leaf as i64) * SCALE;
        let mst_fix: i64 = (self.min_samples_treatment as i64) * SCALE;
        if ln < msl_fix || rn < msl_fix {
            return None;
        }
        if ln_min < mst_fix || rn_min < mst_fix {
            return None;
        }

        let n = fadd(ln, rn);
        if n == 0 {
            return None;
        }
        proof {
            lemma_div_val_le_scale(ln as int, n as int);
        }
        let p = fdiv(ln, n);
        let gain0 = fsub(fadd(fmul(p, left_score), fmul(fsub(SCALE, p), right_score)),
            parent_score);
        let gain_importance = fsub(
            fadd(fmul(ln, left_score), fmul(rn, right_score)),
            fmul(n, parent_score),
        );

        if self.normalization {
            let ps = match parent {
                Some(v) => v,
                None => { return None; },
            };
            // a summary without any weight cannot be normalized against
            let png = ps.len();
            let mut pnts: i64 = 0;
            let ghost gps = ps@.map_values(|v: Vec<i64>| v@);
            proof {
                assert(gps[0] == ps@[0]@);
            }
            let p_n_c = ps[0][1];
            let mut t: usize = 1;
            let mut group_zero = false;
            while t < png
                invariant
                    png == ps@.len(),
                    gps == ps@.map_values(|v: Vec<i64>| v@),
                    summaries_ok(gps, png as int),
                    p_n_c as int == gps[0][1] as int,
                    1 <= t <= png || (png == 1 && t == 1),
                    pnts as int == col_n_sum(gps, t as int),
                    fix_wf(pnts as int),
                    group_zero == exists|u: int|
                        1 <= u < t && 0 >= clip((#[trigger] gps[u][1]) as int + p_n_c as int),
                decreases png - t,
            {
                proof {
                    assert(gps[t as int] == ps@[t as int]@);
                }
                let e = ps[t][1];
                pnts = fadd(pnts, e);
                if fadd(e, p_n_c) <= 0 {
                    group_zero = true;
                    proof {
                        assert(1 <= t as int && (t as int) < t + 1 && 0 >= clip(
                            gps[t as int][1] as int + p_n_c as int,
                        ));
                    }
                }
                t = t + 1;
            }
            let ptotal = fadd(pnts, p_n_c);
            if ptotal <= 0 || group_zero {
                proof {
                    assert(!norm_defined(gps));
                }
                return None;
            }
            proof {
                assert forall|g: int|
                    1 <= g < png implies 0 < clip((#[trigger] gps[g][1]) as int + p_n_c as int) by {}
                assert(norm_defined(gps));
            }
            let nf = KLStrategy::norm(ps, &left_node_summary, self.alpha);
            let gain = fdiv(gain0, nf);
            Some((gain, gain_importance))
        } else {
            Some((gain0, gain_importance))
        }
    }
}


/// Dimensions and value bounds under which a class histogram can be
/// searched: two classes, at least one group, bins that the code type can
/// hold, nonnegative in-range cells, and (for a continuous feature) rows
/// that only grow along the bin axis.
pub open spec fn stat_wf(stat: Seq<Seq<Seq<i64>>>, iscat: bool) -> bool {
    &&& stat.len() == 2
    &&& stat[0].len() >= 1
    &&& stat[1].len() == stat[0].len()
    &&& forall|c: int, g: int|
        0 <= c < 2 && 0 <= g < stat[0].len() ==> 1 <= (#[trigger] stat[c][g]).len() <= 256
    &&& forall|c: int, g: int|
        0 <= c < 2 && 0 <= g < stat[0].len() ==> (#[trigger] stat[c][g]).len()
            == stat[0][0].len()
    &&& forall|c: int, g: int, b: int|
        0 <= c < 2 && 0 <= g < stat[0].len() && 0 <= b < stat[c][g].len() ==> 0 <= (
        #[trigger] stat[c][g][b]) as int <= CLIP as int
    &&& !iscat ==> forall|c: int, g: int, b1: int, b2: int|
        0 <= c < 2 && 0 <= g < stat[0].len() && 0 <= b1 <= b2 < stat[c][g].len()
            ==> (#[trigger] stat[c][g][b1]) <= (#[trigger] stat[c][g][b2])
}

/// Class totals per group: the fold of a categorical row, or the last
/// prefix value of a continuous one.
pub open spec fn parent_count_of(stat: Seq<Seq<Seq<i64>>>, iscat: bool) -> Seq<Seq<i64>> {
    Seq::new(
        2,
        |c: int|
            Seq::new(
                stat[0].len(),
                |g: int|
                    if iscat {
                        crate::linalg::fold_sum(stat[c][g]) as i64
                    } else {
                        stat[c][g].last()
                    },
            ),
    )
}

/// Class counts left of (and including) candidate position `pos`.
pub open spec fn left_count_at(stat: Seq<Seq<Seq<i64>>>, pos: int) -> Seq<Seq<i64>> {
    Seq::new(2, |c: int| Seq::new(stat[0].len(), |g: int| stat[c][g][pos]))
}

/// Class counts right of candidate position `pos`.
pub open spec fn right_count_at(stat: Seq<Seq<Seq<i64>>>, iscat: bool, pos: int) -> Seq<
    Seq<i64>,
> {
    Seq::new(
        2,
        |c: int|
            Seq::new(
                stat[0].len(),
                |g: int|
                    clip(
                        parent_count_of(stat, iscat)[c][g] as int - left_count_at(stat, pos)[c][g] as int,
                    ) as i64,
            ),
    )
}

impl KLStrategy {
    /// The regularized summary of the whole node.
    pub open spec fn parent_summary_of(self, stat: Seq<Seq<Seq<i64>>>, iscat: bool) -> Seq<
        Seq<i64>,
    > {
        Self::summary_of(
            parent_count_of(stat, iscat),
            None,
            self.min_samples_treatment as int,
            self.n_reg as int,
        )
    }

    /// Gain of candidate `pos` over a histogram.
    pub open spec fn cand_gain(self, stat: Seq<Seq<Seq<i64>>>, iscat: bool, pos: int) -> Option<
        (int, int),
    > {
        let ps = self.parent_summary_of(stat, iscat);
        self.gain_of(
            left_count_at(stat, pos),
            right_count_at(stat, iscat, pos),
            ps,
            eval_to(ps, stat[0].len() as int),
        )
    }

    /// Search every candidate boundary of a histogram: the winner is the
    /// first position whose gain strictly exceeds every earlier one and
    /// zero; the node summary is returned for prediction.
    #[verifier::rlimit(100)]
    pub fn find_best_split_plain(&self, hist: &Count) -> (r: (
        Option<Vec<u8>>,
        i64,
        i64,
        Vec<Vec<i64>>,
    ))
        requires
            self.wf(),
            stat_wf(
                hist.stat@.map_values(|p: Vec<Vec<i64>>| p@.map_values(|v: Vec<i64>| v@)),
                hist.iscat,
            ),
        ensures
            ({
                let gstat = hist.stat@.map_values(
                    |p: Vec<Vec<i64>>| p@.map_values(|v: Vec<i64>| v@),
                );
                let n_splits = gstat[0][0].len() - 1;
                &&& r.3@.map_values(|v: Vec<i64>| v@) == self.parent_summary_of(
                    gstat,
                    hist.iscat,
                )
                &&& summaries_ok(r.3@.map_values(|v: Vec<i64>| v@), gstat[0].len() as int)
                &&& r.3@.len() == gstat[0].len()
                &&& self.best_outcome(
                    gstat,
                    hist.iscat,
                    match r.0 {
                        Some(v) => Some(v@[0] as int),
                        None => None,
                    },
                    r.1 as int,
                )
                &&& match r.0 {
                    None => r.1 == 0 && r.2 == 0 && forall|pos: int|
                        #![trigger self.cand_gain(gstat, hist.iscat, pos)]
                        0 <= pos < n_splits ==> (match self.cand_gain(gstat, hist.iscat, pos) {
                            Some(gg) => gg.0 <= 0,
                            None => true,
                        }),
                    Some(v) => {
                        &&& v@.len() == 1
                        &&& (v@[0] as int) < n_splits
                        &&& self.cand_gain(gstat, hist.iscat, v@[0] as int) == Some(
                            (r.1 as int, r.2 as int),
                        )
                        &&& r.1 > 0
                        &&& forall|pos: int|
                            #![trigger self.cand_gain(gstat, hist.iscat, pos)]
                            0 <= pos < n_splits ==> (match self.cand_gain(
                                gstat,
                                hist.iscat,
                                pos,
                            ) {
                                Some(gg) => gg.0 <= r.1,
                                None => true,
                            })
                        &&& forall|pos: int|
                            #![trigger self.cand_gain(gstat, hist.iscat, pos)]
                            0 <= pos < v@[0] ==> (match self.cand_gain(
                                gstat,
                                hist.iscat,
                                pos,
                            ) {
                                Some(gg) => gg.0 < r.1,
                                None => true,
                            })
                    },
                }
            }),
    {
        let ghost gstat = hist.stat@.map_values(
            |p: Vec<Vec<i64>>| p@.map_values(|v: Vec<i64>| v@),
        );
        let iscat = hist.iscat;
        let ng = hist.stat[0].len();
        let nb = hist.stat[0][0].len();
        proof {
            assert(gstat[0] == hist.stat@[0]@.map_values(|v: Vec<i64>| v@));
            assert(gstat[1] == hist.stat@[1]@.map_values(|v: Vec<i64>| v@));
            assert(gstat[0][0] == hist.stat@[0]@[0]@);
        }

        // class totals per group
        let mut parent_count: Vec<Vec<i64>> = Vec::new();
        let mut c: usize = 0;
        while c < 2
            invariant
                gstat == hist.stat@.map_values(
                    |p: Vec<Vec<i64>>| p@.map_values(|v: Vec<i64>| v@),
                ),
                stat_wf(gstat, iscat),
                iscat == hist.iscat,
                ng == gstat[0].len(),
                nb == gstat[0][0].len(),
                c <= 2,
                parent_count@.len() == c,
                forall|cc: int|
                    0 <= cc < c ==> (#[trigger] parent_count@[cc])@.len() == ng,
                forall|cc: int, g: int|
                    0 <= cc < c && 0 <= g < ng ==> (#[trigger] parent_count@[cc]@[g]) as int
                        == parent_count_of(gstat, iscat)[cc][g] as int,
            decreases 2 - c,
        {
            proof {
                assert(gstat[c as int] == hist.stat@[c as int]@.map_values(|v: Vec<i64>| v@));
            }
            let mut cnt: Vec<i64> = Vec::new();
            let mut g: usize = 0;
            while g < ng
                invariant
                    gstat == hist.stat@.map_values(
                        |p: Vec<Vec<i64>>| p@.map_values(|v: Vec<i64>| v@),
                    ),
                    stat_wf(gstat, iscat),
                    c < 2,
                    ng == gstat[0].len(),
                    g <= ng,
                    cnt@.len() == g,
                    forall|gg: int|
                        0 <= gg < g ==> (#[trigger] cnt@[gg]) as int == parent_count_of(
                            gstat,
                            iscat,
                        )[c as int][gg] as int,
                decreases ng - g,
            {
                proof {
                    assert(gstat[c as int] == hist.stat@[c as int]@.map_values(
                        |v: Vec<i64>| v@,
                    ));
                    assert(gstat[c as int][g as int] == hist.stat@[c as int]@[g as int]@);
                }
                let row = &hist.stat[c][g];
                let len = row.len();
                let v: i64;
                if iscat {
                    let mut acc: i64 = 0;
                    let mut b: usize = 0;
                    proof {
                        assert(row@.subrange(0, 0) =~= Seq::<i64>::empty());
                        crate::linalg::lemma_fold_sum_nonneg(row@);
                    }
                    while b < len
                        invariant
                            len == row@.len(),
                            forall|j: int|
                                0 <= j < row@.len() ==> 0 <= (#[trigger] row@[j]) as int
                                    <= CLIP as int,
                            b <= len,
                            acc as int == crate::linalg::fold_sum(row@.subrange(0, b as int)),
                            fix_wf(acc as int),
                        decreases len - b,
                    {
                        proof {
                            assert(row@.subrange(0, b + 1).drop_last() =~= row@.subrange(
                                0,
                                b as int,
                            ));
                        }
                        acc = fadd(acc, row[b]);
                        b = b + 1;
                    }
                    proof {
                        assert(row@.subrange(0, len as int) =~= row@);
                    }
                    v = acc;
                } else {
                    v = row[len - 1];
                }
                cnt.push(v);
                g = g + 1;
            }
            parent_count.push(cnt);
            c = c + 1;
        }
        proof {
            let pc = parent_count_of(gstat, iscat);
            let mapped = parent_count@.map_values(|v: Vec<i64>| v@);
            assert forall|cc: int| 0 <= cc < 2 implies mapped[cc] == pc[cc] by {
                assert(mapped[cc] == parent_count@[cc]@);
                assert(parent_count@[cc]@ =~= pc[cc]);
            }
            assert(mapped =~= pc);
            assert forall|cc: int, g: int|
                0 <= cc < 2 && 0 <= g < ng implies 0 <= (#[trigger] pc[cc][g]) as int
                <= CLIP as int by {
                if iscat {
                    crate::linalg::lemma_fold_sum_nonneg(gstat[cc][g]);
                } else {
                }
            }
        }

        let parent_vec = KLStrategy::count_reg(
            &parent_count,
            &None,
            self.min_samples_treatment,
            self.n_reg,
        );
        let popt: Option<Vec<Vec<i64>>> = Some(parent_vec);
        let parent: &Vec<Vec<i64>> = match &popt {
            Some(p) => p,
            None => {
                return (None, 0, 0, Vec::new());
            },
        };
        proof {
            let psum = self.parent_summary_of(gstat, iscat);
            let mapped = parent@.map_values(|v: Vec<i64>| v@);
            assert forall|i: int| 0 <= i < ng implies mapped[i] == psum[i] by {
                assert(mapped[i] == parent@[i]@);
                assert(parent@[i]@ =~= psum[i]);
            }
            assert(mapped =~= psum);
        }
        let parent_score = KLStrategy::evaluation(&parent);

        let n_splits = nb - 1;
        let mut best_gain: i64 = 0;
        let mut best_gain_importance: i64 = 0;
        let mut best_split_value: Option<Vec<u8>> = None;
        let mut best_pos: usize = 0;

        let mut pos: usize = 0;
        while pos < n_splits
            invariant
                gstat == hist.stat@.map_values(
                    |p: Vec<Vec<i64>>| p@.map_values(|v: Vec<i64>| v@),
                ),
                stat_wf(gstat, iscat),
                iscat == hist.iscat,
                self.wf(),
                ng == gstat[0].len(),
                nb == gstat[0][0].len(),
                n_splits == nb - 1,
                n_splits <= 255,
                pos <= n_splits,
                parent_count@.len() == 2,
                parent_count@.map_values(|v: Vec<i64>| v@) == parent_count_of(gstat, iscat),
                forall|cc: int|
                    0 <= cc < 2 ==> (#[trigger] parent_count@[cc])@.len() == ng,
                popt is Some,
                popt.unwrap()@.map_values(|v: Vec<i64>| v@) == self.parent_summary_of(
                    gstat,
                    iscat,
                ),
                popt.unwrap()@.len() == ng,
                summaries_ok(popt.unwrap()@.map_values(|v: Vec<i64>| v@), ng as int),
                parent_score as int == eval_to(
                    self.parent_summary_of(gstat, iscat),
                    ng as int,
                ),
                fix_wf(parent_score as int),
                match best_split_value {
                    None => best_gain == 0 && best_gain_importance == 0 && forall|t: int|
                        #![trigger self.cand_gain(gstat, iscat, t)]
                        0 <= t < pos ==> (match self.cand_gain(gstat, iscat, t) {
                            Some(gg) => gg.0 <= 0,
                            None => true,
                        }),
                    Some(v) => {
                        &&& v@.len() == 1
                        &&& v@[0] == best_pos
                        &&& best_pos < pos
                        &&& self.cand_gain(gstat, iscat, best_pos as int) == Some(
                            (best_gain as int, best_gain_importance as int),
                        )
                        &&& best_gain > 0
                        &&& fix_wf(best_gain as int)
                        &&& fix_wf(best_gain_importance as int)
                        &&& forall|t: int|
                            #![trigger self.cand_gain(gstat, iscat, t)]
                            0 <= t < pos ==> (match self.cand_gain(gstat, iscat, t) {
                                Some(gg) => gg.0 <= best_gain,
                                None => true,
                            })
                        &&& forall|t: int|
                            #![trigger self.cand_gain(gstat, iscat, t)]
                            0 <= t < best_pos ==> (match self.cand_gain(gstat, iscat, t) {
                                Some(gg) => gg.0 < best_gain,
                                None => true,
                            })
                    },
                },
            decreases n_splits - pos,
        {
            // counts on each side of the boundary
            let mut left_count: Vec<Vec<i64>> = Vec::new();
            let mut right_count: Vec<Vec<i64>> = Vec::new();
            let mut cc: usize = 0;
            while cc < 2
                invariant
                    gstat == hist.stat@.map_values(
                        |p: Vec<Vec<i64>>| p@.map_values(|v: Vec<i64>| v@),
                    ),
                    stat_wf(gstat, iscat),
                    ng == gstat[0].len(),
                    nb == gstat[0][0].len(),
                    pos < nb - 1,
                    parent_count@.len() == 2,
                    parent_count@.map_values(|v: Vec<i64>| v@) == parent_count_of(
                        gstat,
                        iscat,
                    ),
                    forall|t: int|
                        0 <= t < 2 ==> (#[trigger] parent_count@[t])@.len() == ng,
                    cc <= 2,
                    left_count@.len() == cc,
                    right_count@.len() == cc,
                    forall|t: int|
                        0 <= t < cc ==> (#[trigger] left_count@[t])@.len() == ng,
                    forall|t: int|
                        0 <= t < cc ==> (#[trigger] right_count@[t])@.len() == ng,
                    forall|t: int, g: int|
                        0 <= t < cc && 0 <= g < ng ==> (#[trigger] left_count@[t]@[g]) as int
                            == left_count_at(gstat, pos as int)[t][g] as int,
                    forall|t: int, g: int|
                        0 <= t < cc && 0 <= g < ng ==> (#[trigger] right_count@[t]@[g]) as int
                            == right_count_at(gstat, iscat, pos as int)[t][g] as int,
                decreases 2 - cc,
            {
                proof {
                    assert(gstat[cc as int] == hist.stat@[cc as int]@.map_values(
                        |v: Vec<i64>| v@,
                    ));
                }
                let mut lrow: Vec<i64> = Vec::new();
                let mut rrow: Vec<i64> = Vec::new();
                let mut g: usize = 0;
                while g < ng
                    invariant
                        gstat == hist.stat@.map_values(
                            |p: Vec<Vec<i64>>| p@.map_values(|v: Vec<i64>| v@),
                        ),
                        stat_wf(gstat, iscat),
                        ng == gstat[0].len(),
                        nb == gstat[0][0].len(),
                        pos < nb - 1,
                        cc < 2,
                        parent_count@.len() == 2,
                        parent_count@.map_values(|v: Vec<i64>| v@) == parent_count_of(
                            gstat,
                            iscat,
                        ),
                        forall|t: int|
                            0 <= t < 2 ==> (#[trigger] parent_count@[t])@.len() == ng,
                        g <= ng,
                        lrow@.len() == g,
                        rrow@.len() == g,
                        forall|t: int|
                            0 <= t < g ==> (#[trigger] lrow@[t]) as int == left_count_at(
                                gstat,
                                pos as int,
                            )[cc as int][t] as int,
                        forall|t: int|
                            0 <= t < g ==> (#[trigger] rrow@[t]) as int == right_count_at(
                                gstat,
                                iscat,
                                pos as int,
                            )[cc as int][t] as int,
                    decreases ng - g,
                {
                    proof {
                        assert(gstat[cc as int] == hist.stat@[cc as int]@.map_values(
                            |v: Vec<i64>| v@,
                        ));
                        assert(gstat[cc as int][g as int] == hist.stat@[cc as int]@[g as int]@);
                        assert(parent_count@.map_values(|v: Vec<i64>| v@)[cc as int]
                            == parent_count@[cc as int]@);
                    }
                    let l = hist.stat[cc][g][pos];
                    let p = parent_count[cc][g];
                    proof {
                        if iscat {
                            crate::linalg::lemma_fold_sum_ge_cell(gstat[cc as int][g as int], pos as int);
                        }
                    }
                    let rr = fsub(p, l);
                    lrow.push(l);
                    rrow.push(rr);
                    g = g + 1;
                }
                left_count.push(lrow);
                right_count.push(rrow);
                cc = cc + 1;
            }
            proof {
                let lc = left_count_at(gstat, pos as int);
                let rc = right_count_at(gstat, iscat, pos as int);
                let lm = left_count@.map_values(|v: Vec<i64>| v@);
                let rm = right_count@.map_values(|v: Vec<i64>| v@);
                assert forall|t: int| 0 <= t < 2 implies lm[t] == lc[t] && rm[t] == rc[t] by {
                    assert(lm[t] == left_count@[t]@);
                    assert(rm[t] == right_count@[t]@);
                    assert(left_count@[t]@ =~= lc[t]);
                    assert(right_count@[t]@ =~= rc[t]);
                }
                assert(lm =~= lc);
                assert(rm =~= rc);
                // right cells are nonnegative and summaries dominated
                assert forall|t: int, g: int|
                    0 <= t < 2 && 0 <= g < ng implies 0 <= (#[trigger] rc[t][g]) as int
                    <= CLIP as int by {
                    if iscat {
                        crate::linalg::lemma_fold_sum_ge_cell(gstat[t][g], pos as int);
                    }
                }
                assert forall|i: int|
                    0 <= i < ng implies summary_n(lc, i) <= (
                #[trigger] popt.unwrap()@[i]@[1]) as int by {
                    assert(popt.unwrap()@.map_values(|v: Vec<i64>| v@)[i]
                        == popt.unwrap()@[i]@);
                    if iscat {
                        crate::linalg::lemma_fold_sum_ge_cell(gstat[0][i], pos as int);
                        crate::linalg::lemma_fold_sum_ge_cell(gstat[1][i], pos as int);
                    }
                }
            }
            let result = self.calculate_gain(&left_count, &right_count, &popt, parent_score);
            match result {
                Some((gain, gain_importance)) => {
                    if gain > best_gain {
                        best_gain = gain;
                        best_gain_importance = gain_importance;
                        let mut value: Vec<u8> = Vec::new();
                        value.push(pos as u8);
                        best_split_value = Some(value);
                        best_pos = pos;
                    }
                },
                None => (),
            }
            pos = pos + 1;
        }
        let parent_out: Vec<Vec<i64>> = match popt {
            Some(p) => p,
            None => {
                return (None, 0, 0, Vec::new());
            },
        };
        (best_split_value, best_gain, best_gain_importance, parent_out)
    }
}


/// The class histogram of a node under one feature, as the divergence
/// criterion reads it: plain cells for a categorical feature, prefix sums
/// otherwise, with treatment column zero.
pub open spec fn kl_stat_of(m: DMatrix, idx: Seq<usize>, f: int, iscat: bool) -> Seq<
    Seq<Seq<i64>>,
> {
    let ts = m.treatment_size@[0] as nat;
    let fs = m.bin_size@[f] as int;
    Seq::new(
        2,
        |c: int|
            Seq::new(
                ts,
                |g: int|
                    Seq::new(
                        (fs + 1) as nat,
                        |b: int|
                            (if iscat {
                                count_cell(m, 0, idx, f, c, g, b, fs)
                            } else {
                                count_prefix(m, 0, idx, f, c, g, b, fs)
                            }) as i64,
                    ),
            ),
    )
}

impl KLStrategy {
    /// A strategy from the forest configuration.
    pub fn new(conf: &TreeConfig) -> (r: KLStrategy)
        requires
            conf.wf(),
        ensures
            r.min_samples_leaf == conf.min_samples_leaf,
            r.min_samples_treatment == conf.min_samples_treatment,
            r.n_reg == conf.n_reg,
            r.alpha == conf.alpha,
            r.normalization == conf.normalization,
            r.wf(),
    {
        KLStrategy {
            min_samples_leaf: conf.min_samples_leaf,
            min_samples_treatment: conf.min_samples_treatment,
            n_reg: conf.n_reg,
            alpha: conf.alpha,
            normalization: conf.normalization,
        }
    }

    /// Build the node's histogram under one feature and search it: the
    /// returned record carries the winning boundary (or marks a leaf) and
    /// the node summary.
    #[verifier::rlimit(100)]
    pub fn find_best_split(
        &self,
        m: &DMatrix,
        node_id: usize,
        feature_id: usize,
        indices: &Vec<usize>,
    ) -> (r: SplitInfo)
        requires
            self.wf(),
            m.wf(),
            m.classification_ok(),
            feature_id < m.n_features(),
            forall|k: int| 0 <= k < indices@.len() ==> #[trigger] indices@[k] < m.rows(),
            indices@.len() <= crate::dmatrix::MAX_ROWS,
        ensures
            ({
                let iscat = m.is_bool@[feature_id as int];
                let gstat = kl_stat_of(*m, indices@, feature_id as int, iscat);
                let n_splits = m.bin_size@[feature_id as int] as int;
                &&& r.node_id == node_id
                &&& r.feature_id == feature_id
                &&& r.treatment_id == 0
                &&& r.iscat == iscat
                &&& r.summary@.map_values(|v: Vec<i64>| v@) == self.parent_summary_of(
                    gstat,
                    iscat,
                )
                &&& r.summary_ok()
                &&& match r.value {
                    None => r.gain == 0 && forall|pos: int|
                        #![trigger self.cand_gain(gstat, iscat, pos)]
                        0 <= pos < n_splits ==> (match self.cand_gain(gstat, iscat, pos) {
                            Some(gg) => gg.0 <= 0,
                            None => true,
                        }),
                    Some(v) => {
                        &&& v@.len() == 1
                        &&& (v@[0] as int) < n_splits
                        &&& self.cand_gain(gstat, iscat, v@[0] as int) == Some(
                            (r.gain as int, r.gain_importance as int),
                        )
                        &&& r.gain > 0
                        &&& forall|pos: int|
                            #![trigger self.cand_gain(gstat, iscat, pos)]
                            0 <= pos < n_splits ==> (match self.cand_gain(gstat, iscat, pos) {
                                Some(gg) => gg.0 <= r.gain,
                                None => true,
                            })
                        &&& forall|pos: int|
                            #![trigger self.cand_gain(gstat, iscat, pos)]
                            0 <= pos < v@[0] ==> (match self.cand_gain(gstat, iscat, pos) {
                                Some(gg) => gg.0 < r.gain,
                                None => true,
                            })
                    },
                }
            }),
            self.split_describes(*m, indices@, node_id as int, feature_id as int, r),
    {
        let iscat = m.is_bool[feature_id];
        let feature_size = m.bin_size[feature_id];
        let treatment_id: usize = 0;
        let treatment_size = m.treatment_size[treatment_id];

        let hist = Count::calculate(
            m,
            feature_id,
            iscat,
            treatment_id,
            indices,
            feature_size,
            treatment_size,
        );
        proof {
            lemma_count_matches_stat(*m, indices@, feature_id as int, hist, feature_size as int,
                treatment_size as int);
        }
        let (value, gain, gain_importance, summary) = self.find_best_split_plain(&hist);
        proof {
            reveal(KLStrategy::split_describes);
            let mapped = summary@.map_values(|v: Vec<i64>| v@);
            assert forall|g: int| 0 <= g < summary@.len() implies (#[trigger] summary@[g])@.len()
                >= 1 && (forall|j: int|
                0 <= j < summary@[g]@.len() ==> fix_wf((#[trigger] summary@[g]@[j]) as int)) by {
                assert(mapped[g] == summary@[g]@);
            }
        }
        SplitInfo {
            node_id,
            feature_id,
            treatment_id,
            iscat,
            value,
            gain,
            gain_importance,
            summary,
        }
    }
}


/// A histogram built by the kernel is exactly the specification histogram,
/// and it is searchable.
#[verifier::rlimit(100)]
proof fn lemma_count_matches_stat(
    m: DMatrix,
    idx: Seq<usize>,
    f: int,
    hist: Count,
    fs: int,
    ts: int,
)
    requires
        m.wf(),
        crate::statistic::kernel_pre(m, f, 0, idx, fs, ts),
        hist.feature_id == f,
        hist.treatment_id == 0,
        hist.stat_ok(m, idx, fs, ts),
    ensures
        hist.stat@.map_values(|p: Vec<Vec<i64>>| p@.map_values(|v: Vec<i64>| v@)) == kl_stat_of(
            m,
            idx,
            f,
            hist.iscat,
        ),
        stat_wf(kl_stat_of(m, idx, f, hist.iscat), hist.iscat),
{
    let iscat = hist.iscat;
    let gstat = kl_stat_of(m, idx, f, iscat);
    let mapped = hist.stat@.map_values(|p: Vec<Vec<i64>>| p@.map_values(|v: Vec<i64>| v@));
    assert forall|c: int| 0 <= c < 2 implies mapped[c] == gstat[c] by {
        assert(mapped[c] == hist.stat@[c]@.map_values(|v: Vec<i64>| v@));
        assert forall|g: int|
            0 <= g < ts implies hist.stat@[c]@.map_values(|v: Vec<i64>| v@)[g] == gstat[c][g] by {
            assert(hist.stat@[c]@.map_values(|v: Vec<i64>| v@)[g] == hist.stat@[c]@[g]@);
            assert(hist.stat@[c]@[g]@ =~= gstat[c][g]);
        }
        assert(hist.stat@[c]@.map_values(|v: Vec<i64>| v@) =~= gstat[c]);
    }
    assert(mapped =~= gstat);
    assert(idx.len() * crate::dmatrix::MAX_WEIGHT <= CLIP as int) by (nonlinear_arith)
        requires
            0 <= idx.len() <= crate::dmatrix::MAX_ROWS,
            crate::dmatrix::MAX_ROWS == 0x4000_0000,
            crate::dmatrix::MAX_WEIGHT == 0x4000_0000,
            CLIP as int == 0x4000_0000_0000_0000,
    ;
    assert forall|c: int, g: int, b1: int, b2: int|
        !iscat && 0 <= c < 2 && 0 <= g < ts && 0 <= b1 <= b2 < gstat[c][g].len() implies (
    #[trigger] gstat[c][g][b1]) <= (#[trigger] gstat[c][g][b2]) by {
        crate::statistic::lemma_count_prefix_monotone(m, 0, idx, f, c, g, b1, b2, fs);
    }
    assert(stat_wf(gstat, iscat));
}


impl KLStrategy {
    /// What the candidate search reports for a histogram: either no
    /// boundary scored above zero, or the first boundary of maximal gain.
    pub open spec fn best_outcome(
        self,
        stat: Seq<Seq<Seq<i64>>>,
        iscat: bool,
        v: Option<int>,
        gain: int,
    ) -> bool {
        let n_splits = stat[0][0].len() - 1;
        match v {
            None => gain == 0 && forall|pos: int|
                #![trigger self.cand_gain(stat, iscat, pos)]
                0 <= pos < n_splits ==> (match self.cand_gain(stat, iscat, pos) {
                    Some(gg) => gg.0 <= 0,
                    None => true,
                }),
            Some(p) => {
                &&& 0 <= p < n_splits
                &&& (match self.cand_gain(stat, iscat, p) {
                    Some(gg) => gg.0 == gain,
                    None => false,
                })
                &&& gain > 0
                &&& forall|pos: int|
                    #![trigger self.cand_gain(stat, iscat, pos)]
                    0 <= pos < n_splits ==> (match self.cand_gain(stat, iscat, pos) {
                        Some(gg) => gg.0 <= gain,
                        None => true,
                    })
                &&& forall|pos: int|
                    #![trigger self.cand_gain(stat, iscat, pos)]
                    0 <= pos < p ==> (match self.cand_gain(stat, iscat, pos) {
                        Some(gg) => gg.0 < gain,
                        None => true,
                    })
            },
        }
    }
}

/// Determinism of the split choice: the description of the candidate
/// search's outcome pins a single winner, so two searches of one histogram
/// always choose the same boundary with the same gain.
pub proof fn lemma_best_outcome_unique(
    s: KLStrategy,
    stat: Seq<Seq<Seq<i64>>>,
    iscat: bool,
    v1: Option<int>,
    g1: int,
    v2: Option<int>,
    g2: int,
)
    requires
        s.best_outcome(stat, iscat, v1, g1),
        s.best_outcome(stat, iscat, v2, g2),
    ensures
        v1 == v2,
        g1 == g2,
{
    match (v1, v2) {
        (None, None) => {},
        (None, Some(p2)) => {
            assert(match s.cand_gain(stat, iscat, p2) {
                Some(gg) => gg.0 <= 0,
                None => true,
            });
            assert(false);
        },
        (Some(p1), None) => {
            assert(match s.cand_gain(stat, iscat, p1) {
                Some(gg) => gg.0 <= 0,
                None => true,
            });
            assert(false);
        },
        (Some(p1), Some(p2)) => {
            if p1 < p2 {
                assert(match s.cand_gain(stat, iscat, p1) {
                    Some(gg) => gg.0 < g2,
                    None => true,
                });
                assert(match s.cand_gain(stat, iscat, p2) {
                    Some(gg) => gg.0 <= g1,
                    None => true,
                });
                assert(false);
            } else if p2 < p1 {
                assert(match s.cand_gain(stat, iscat, p2) {
                    Some(gg) => gg.0 < g1,
                    None => true,
                });
                assert(match s.cand_gain(stat, iscat, p1) {
                    Some(gg) => gg.0 <= g2,
                    None => true,
                });
                assert(false);
            }
        },
    }
}


impl KLStrategy {
    /// Everything the criterion promises of the record it emits for one
    /// node and feature: the identifiers, the regularized node summary, and
    /// the winner description over the candidate gains.
    #[verifier::opaque]
    pub open spec fn split_describes(
        self,
        m: DMatrix,
        idx: Seq<usize>,
        node_id: int,
        feature_id: int,
        r: SplitInfo,
    ) -> bool {
        let iscat = m.is_bool@[feature_id];
        let gstat = kl_stat_of(m, idx, feature_id, iscat);
        let n_splits = m.bin_size@[feature_id] as int;
        &&& r.node_id == node_id
        &&& r.feature_id == feature_id
        &&& r.treatment_id == 0
        &&& r.iscat == iscat
        &&& r.summary@.map_values(|v: Vec<i64>| v@) == self.parent_summary_of(gstat, iscat)
        &&& r.summary_ok()
        &&& match r.value {
            None => r.gain == 0 && forall|pos: int|
                #![trigger self.cand_gain(gstat, iscat, pos)]
                0 <= pos < n_splits ==> (match self.cand_gain(gstat, iscat, pos) {
                    Some(gg) => gg.0 <= 0,
                    None => true,
                }),
            Some(v) => {
                &&& v@.len() == 1
                &&& (v@[0] as int) < n_splits
                &&& self.cand_gain(gstat, iscat, v@[0] as int) == Some(
                    (r.gain as int, r.gain_importance as int),
                )
                &&& r.gain > 0
                &&& forall|pos: int|
                    #![trigger self.cand_gain(gstat, iscat, pos)]
                    0 <= pos < n_splits ==> (match self.cand_gain(gstat, iscat, pos) {
                        Some(gg) => gg.0 <= r.gain,
                        None => true,
                    })
                &&& forall|pos: int|
                    #![trigger self.cand_gain(gstat, iscat, pos)]
                    0 <= pos < v@[0] ==> (match self.cand_gain(gstat, iscat, pos) {
                        Some(gg) => gg.0 < r.gain,
                        None => true,
                    })
            },
        }
    }
}

} // verus!








