//! The forest: row subsampling per tree, sequential training over a shared
//! read-only matrix, and the element-wise mean of the trees' predictions.

use vstd::prelude::*;
use crate::config::TreeConfig;
use crate::data_loader::DataLoader;
use crate::dmatrix::DMatrix;
use crate::fixed::{SCALE, clip, fix_wf, fadd, fdiv};
use crate::learn::TreeLearn;
use crate::random::{Random, rng_from_seed, rng_from_entropy};
use crate::strategy::Strategy;

verus! {

/// Start of prediction chunk `i` when `n_tree` jobs go to `n_thread`
/// workers: the remainder spreads over the first chunks.
pub open spec fn chunk_start(n_tree: int, n_thread: int, i: int) -> int {
    let q = n_tree / n_thread;
    let r = n_tree % n_thread;
    if i < r {
        i * (q + 1)
    } else {
        r * (q + 1) + (i - r) * q
    }
}

/// Size of prediction chunk `i`.
pub open spec fn chunk_size(n_tree: int, n_thread: int, i: int) -> int {
    let q = n_tree / n_thread;
    let r = n_tree % n_thread;
    if i < r {
        q + 1
    } else {
        q
    }
}

pub struct RandomForest {
    pub conf: TreeConfig,
    pub loader: DataLoader,
    pub learners: Vec<TreeLearn>,
}

impl RandomForest {
    /// Every held tree is fully grown and usable for prediction.
    pub open spec fn wf(self) -> bool {
        &&& self.conf.wf()
        &&& forall|i: int|
            0 <= i < self.learners@.len() ==> (#[trigger] self.learners@[i]).tree.wf()
                && self.learners@[i].tree.paired() && self.learners@[i].tree.trained()
    }

    /// An untrained forest over a fresh loader.
    pub fn new(conf: TreeConfig, loader: DataLoader) -> (r: RandomForest)
        requires
            conf.wf(),
        ensures
            r.wf(),
            r.conf == conf,
            r.loader == loader,
            r.learners@.len() == 0,
    {
        RandomForest { conf, loader, learners: Vec::new() }
    }

    /// Train the configured number of trees sequentially on one matrix,
    /// drawing every tree's row subsample from one generator seeded by the
    /// configuration (or by system entropy when no seed is set).
    pub fn fit(&mut self, m: &DMatrix, strategy: Strategy)
        requires
            old(self).wf(),
            m.wf(),
            m.rows() >= 1,
            strategy.wf(),
            strategy.fits(*m),
        ensures
            final(self).wf(),
            final(self).conf == old(self).conf,
            final(self).learners@.len() == old(self).learners@.len() + old(self).conf.n_tree,
            forall|i: int|
                old(self).learners@.len() <= i < final(self).learners@.len()
                    ==> crate::learn::fitted(
                    #[trigger] final(self).learners@[i],
                    *m,
                    old(self).conf,
                ),
    {
        let rng = match self.conf.seed {
            Some(v) => rng_from_seed(v),
            None => rng_from_entropy(),
        };
        let mut random = Random::new(rng);
        let n_tree = self.conf.n_tree;
        let mut t: usize = 0;
        while t < n_tree
            invariant
                self.conf.wf(),
                self.conf == old(self).conf,
                self.loader == old(self).loader,
                m.wf(),
                m.rows() >= 1,
                strategy.wf(),
                strategy.fits(*m),
                t <= n_tree,
                self.learners@.len() == old(self).learners@.len() + t,
                forall|i: int|
                    0 <= i < self.learners@.len() ==> (#[trigger] self.learners@[i]).tree.wf()
                        && self.learners@[i].tree.paired()
                        && self.learners@[i].tree.trained(),
                forall|i: int|
                    old(self).learners@.len() <= i < self.learners@.len()
                        ==> crate::learn::fitted(
                        #[trigger] self.learners@[i],
                        *m,
                        old(self).conf,
                    ),
            decreases n_tree - t,
        {
            let mut learn = TreeLearn::new(&self.conf, strategy);
            learn.fit(m, &self.conf, &mut random);
            self.learners.push(learn);
            t = t + 1;
        }
    }

    /// Predict one matrix: every tree routes each row to a leaf uplift
    /// vector, and the forest returns the element-wise clipped mean, rows
    /// zipped to their shortest tree output.
    pub fn predict(&mut self, m: &DMatrix) -> (r: Vec<Vec<i64>>)
        requires
            old(self).wf(),
            m.wf(),
            old(self).learners@.len() >= 1,
            old(self).learners@.len() <= 0x4000_0000,
        ensures
            final(self).wf(),
            final(self).learners@.len() == old(self).learners@.len(),
            r@.len() == m.rows(),
            forall|i: int, j: int|
                0 <= i < r@.len() && 0 <= j < r@[i]@.len() ==> fix_wf(
                    (#[trigger] r@[i]@[j]) as int,
                ),
    {
        let n_learners = self.learners.len();
        let mut avg: Vec<Vec<i64>> = Vec::new();
        let mut first = true;
        let mut t: usize = 0;
        while t < n_learners
            invariant
                m.wf(),
                n_learners == self.learners@.len(),
                forall|i: int|
                    0 <= i < self.learners@.len() ==> (#[trigger] self.learners@[i]).tree.wf()
                        && self.learners@[i].tree.paired()
                        && self.learners@[i].tree.trained(),
                self.conf == old(self).conf,
                self.conf.wf(),
                self.loader == old(self).loader,
                t <= n_learners,
                !first ==> avg@.len() == m.rows(),
                t >= 1 ==> !first,
                forall|i: int, j: int|
                    0 <= i < avg@.len() && 0 <= j < avg@[i]@.len() ==> fix_wf(
                        (#[trigger] avg@[i]@[j]) as int,
                    ),
            decreases n_learners - t,
        {
            let score = self.learners[t].predict(m);
            if first {
                avg = score;
                first = false;
            } else {
                avg = add_scores(&avg, &score);
            }
            t = t + 1;
        }
        let scalar: i64 = (n_learners as i64) * SCALE;
        let n = avg.len();
        let mut out: Vec<Vec<i64>> = Vec::new();
        let mut i: usize = 0;
        while i < n
            invariant
                n == avg@.len(),
                forall|a: int, b: int|
                    0 <= a < avg@.len() && 0 <= b < avg@[a]@.len() ==> fix_wf(
                        (#[trigger] avg@[a]@[b]) as int,
                    ),
                fix_wf(scalar as int),
                i <= n,
                out@.len() == i,
                forall|a: int, b: int|
                    0 <= a < i && 0 <= b < out@[a]@.len() ==> fix_wf(
                        (#[trigger] out@[a]@[b]) as int,
                    ),
            decreases n - i,
        {
            let src = &avg[i];
            let len = src.len();
            let mut row: Vec<i64> = Vec::new();
            let mut j: usize = 0;
            while j < len
                invariant
                    len == src@.len(),
                    forall|b: int| 0 <= b < src@.len() ==> fix_wf((#[trigger] src@[b]) as int),
                    fix_wf(scalar as int),
                    j <= len,
                    row@.len() == j,
                    forall|b: int| 0 <= b < j ==> fix_wf((#[trigger] row@[b]) as int),
                decreases len - j,
            {
                row.push(fdiv(src[j], scalar));
                j = j + 1;
            }
            out.push(row);
            i = i + 1;
        }
        out
    }

    /// Contiguous chunks of tree positions for parallel prediction: one
    /// tree per chunk when threads outnumber trees, otherwise as equal as
    /// possible with the remainder on the first chunks.
    pub fn split_job_predict(&self, n_tree: usize, n_thread: usize) -> (r: Vec<Vec<usize>>)
        requires
            n_thread >= 1,
            n_tree <= 0x4000_0000,
        ensures
            n_tree < n_thread ==> r@.len() == n_tree && forall|i: int|
                0 <= i < n_tree ==> (#[trigger] r@[i])@ =~= seq![i as usize],
            n_tree >= n_thread ==> r@.len() == n_thread && forall|i: int|
                0 <= i < n_thread ==> (#[trigger] r@[i])@.len() == chunk_size(
                    n_tree as int,
                    n_thread as int,
                    i,
                ) && forall|j: int|
                    0 <= j < r@[i]@.len() ==> r@[i]@[j] == chunk_start(
                        n_tree as int,
                        n_thread as int,
                        i,
                    ) + j,
    {
        if n_tree < n_thread {
            let mut vs: Vec<Vec<usize>> = Vec::new();
            let mut i: usize = 0;
            while i < n_tree
                invariant
                    i <= n_tree,
                    vs@.len() == i,
                    forall|t: int| 0 <= t < i ==> (#[trigger] vs@[t])@ =~= seq![t as usize],
                decreases n_tree - i,
            {
                let mut one: Vec<usize> = Vec::new();
                one.push(i);
                vs.push(one);
                i = i + 1;
            }
            return vs;
        }
        let q: usize = n_tree / n_thread;
        let rr: usize = n_tree % n_thread;
        proof {
            vstd::arithmetic::div_mod::lemma_fundamental_div_mod(n_tree as int, n_thread as int);
            vstd::arithmetic::div_mod::lemma_div_pos_is_pos(n_tree as int, n_thread as int);
        }
        let mut vs: Vec<Vec<usize>> = Vec::new();
        let mut i: usize = 0;
        while i < n_thread
            invariant
                n_thread >= 1,
                n_tree >= n_thread,
                n_tree <= 0x4000_0000,
                q == n_tree as int / n_thread as int,
                rr == n_tree as int % n_thread as int,
                rr < n_thread,
                n_tree as int == (n_thread as int) * (q as int) + rr,
                i <= n_thread,
                vs@.len() == i,
                forall|t: int|
                    0 <= t < i ==> (#[trigger] vs@[t])@.len() == chunk_size(
                        n_tree as int,
                        n_thread as int,
                        t,
                    ) && forall|j: int|
                        0 <= j < vs@[t]@.len() ==> vs@[t]@[j] == chunk_start(
                            n_tree as int,
                            n_thread as int,
                            t,
                        ) + j,
            decreases n_thread - i,
        {
            proof {
                lemma_chunk_bounds(n_tree as int, n_thread as int, i as int);
                assert(q as int <= n_tree as int) by (nonlinear_arith)
                    requires
                        n_tree as int == (n_thread as int) * (q as int) + rr as int,
                        0 <= q as int,
                        0 <= rr as int,
                        1 <= n_thread as int,
                ;
                if i >= rr {
                    assert(0 <= (i as int - rr as int) * (q as int)) by (nonlinear_arith)
                        requires
                            rr as int <= i as int,
                            0 <= q as int,
                    ;
                    assert((rr as int) * ((q as int) + 1) + (i as int - rr as int) * (q as int)
                        <= n_tree as int);
                    assert((rr as int) * ((q as int) + 1) <= n_tree as int) by (nonlinear_arith)
                        requires
                            (rr as int) * ((q as int) + 1) + (i as int - rr as int) * (q as int)
                                <= n_tree as int,
                            0 <= (i as int - rr as int) * (q as int),
                    ;
                }
            }
            let start: usize = if i < rr {
                i * (q + 1)
            } else {
                rr * (q + 1) + (i - rr) * q
            };
            let size: usize = if i < rr {
                q + 1
            } else {
                q
            };
            let mut chunk: Vec<usize> = Vec::new();
            let mut j: usize = 0;
            while j < size
                invariant
                    start + size <= n_tree,
                    j <= size,
                    chunk@.len() == j,
                    forall|b: int| 0 <= b < j ==> #[trigger] chunk@[b] == start + b,
                decreases size - j,
            {
                chunk.push(start + j);
                j = j + 1;
            }
            vs.push(chunk);
            i = i + 1;
        }
        vs
    }
}

/// A chunk lies inside the job range.
proof fn lemma_chunk_bounds(n_tree: int, n_thread: int, i: int)
    requires
        n_thread >= 1,
        n_tree >= n_thread,
        0 <= i < n_thread,
    ensures
        0 <= chunk_start(n_tree, n_thread, i),
        chunk_start(n_tree, n_thread, i) + chunk_size(n_tree, n_thread, i) <= n_tree,
        chunk_size(n_tree, n_thread, i) >= 0,
{
    let q = n_tree / n_thread;
    let r = n_tree % n_thread;
    vstd::arithmetic::div_mod::lemma_fundamental_div_mod(n_tree, n_thread);
    vstd::arithmetic::div_mod::lemma_div_pos_is_pos(n_tree, n_thread);
    if i < r {
        assert(i * (q + 1) + (q + 1) <= r * (q + 1)) by (nonlinear_arith)
            requires
                i + 1 <= r,
                q + 1 >= 0,
        ;
        assert(r * (q + 1) + (n_thread - r) * q == n_thread * q + r) by (nonlinear_arith);
        assert((n_thread - r) * q >= 0) by (nonlinear_arith)
            requires
                n_thread - r >= 0,
                q >= 0,
        ;
        assert(0 <= i * (q + 1)) by (nonlinear_arith)
            requires
                0 <= i,
                0 <= q + 1,
        ;
    } else {
        assert(r * (q + 1) + (i - r) * q + q <= r * (q + 1) + (n_thread - r) * q) by (
        nonlinear_arith)
            requires
                i + 1 <= n_thread,
                r <= i,
                q >= 0,
        ;
        assert(r * (q + 1) + (n_thread - r) * q == n_thread * q + r) by (nonlinear_arith);
        assert(0 <= r * (q + 1) + (i - r) * q) by (nonlinear_arith)
            requires
                0 <= r,
                0 <= q + 1,
                r <= i,
                0 <= q,
        ;
    }
}

/// Element-wise clipped sum of two score tables, each row zipped to the
/// shorter of the two.
fn add_scores(a: &Vec<Vec<i64>>, b: &Vec<Vec<i64>>) -> (r: Vec<Vec<i64>>)
    requires
        a@.len() == b@.len(),
        forall|i: int, j: int|
            0 <= i < a@.len() && 0 <= j < a@[i]@.len() ==> fix_wf((#[trigger] a@[i]@[j]) as int),
        forall|i: int, j: int|
            0 <= i < b@.len() && 0 <= j < b@[i]@.len() ==> fix_wf((#[trigger] b@[i]@[j]) as int),
    ensures
        r@.len() == a@.len(),
        forall|i: int, j: int|
            0 <= i < r@.len() && 0 <= j < r@[i]@.len() ==> fix_wf((#[trigger] r@[i]@[j]) as int),
        forall|i: int|
            0 <= i < r@.len() ==> (#[trigger] r@[i])@.len() == (if a@[i]@.len() <= b@[i]@.len() {
                a@[i]@.len()
            } else {
                b@[i]@.len()
            }),
        forall|i: int, j: int|
            0 <= i < r@.len() && 0 <= j < r@[i]@.len() ==> (#[trigger] r@[i]@[j]) as int == clip(
                a@[i]@[j] + b@[i]@[j],
            ),
{
    let n = a.len();
    let mut out: Vec<Vec<i64>> = Vec::new();
    let mut i: usize = 0;
    while i < n
        invariant
            n == a@.len(),
            n == b@.len(),
            forall|t: int, j: int|
                0 <= t < a@.len() && 0 <= j < a@[t]@.len() ==> fix_wf(
                    (#[trigger] a@[t]@[j]) as int,
                ),
            forall|t: int, j: int|
                0 <= t < b@.len() && 0 <= j < b@[t]@.len() ==> fix_wf(
                    (#[trigger] b@[t]@[j]) as int,
                ),
            i <= n,
            out@.len() == i,
            forall|t: int|
                0 <= t < i ==> (#[trigger] out@[t])@.len() == (if a@[t]@.len() <= b@[t]@.len() {
                    a@[t]@.len()
                } else {
                    b@[t]@.len()
                }),
            forall|t: int, j: int|
                0 <= t < i && 0 <= j < out@[t]@.len() ==> (#[trigger] out@[t]@[j]) as int
                    == clip(a@[t]@[j] + b@[t]@[j]),
        decreases n - i,
    {
        let ra = &a[i];
        let rb = &b[i];
        let la = ra.len();
        let lb = rb.len();
        let len = if la <= lb {
            la
        } else {
            lb
        };
        let mut row: Vec<i64> = Vec::new();
        let mut j: usize = 0;
        while j < len
            invariant
                la == ra@.len(),
                lb == rb@.len(),
                len == (if la <= lb {
                    la as int
                } else {
                    lb as int
                }),
                forall|t: int| 0 <= t < ra@.len() ==> fix_wf((#[trigger] ra@[t]) as int),
                forall|t: int| 0 <= t < rb@.len() ==> fix_wf((#[trigger] rb@[t]) as int),
                j <= len,
                row@.len() == j,
                forall|t: int|
                    0 <= t < j ==> (#[trigger] row@[t]) as int == clip(ra@[t] + rb@[t]),
            decreases len - j,
        {
            row.push(fadd(ra[j], rb[j]));
            j = j + 1;
        }
        out.push(row);
        i = i + 1;
    }
    out
}

} // verus!
