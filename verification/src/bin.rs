//! Discretizers: one per feature, fitted once, immutable afterwards.
//!
//! Raw values reach the binner as total *order keys* (`i64`): integers whose
//! ordering and equality agree with the caller's raw values. A missing value
//! is `None`. A continuous discretizer keeps a list of threshold keys and
//! maps a present value to the count of thresholds strictly below it; a
//! categorical discretizer keeps the seen keys by decreasing frequency and
//! maps a present value to its position, with a catch-all code past the end.

use vstd::prelude::*;
use vstd::relations::{total_ordering, sorted_by};
use vstd::seq_lib::{lemma_multiset_commutative, lemma_sorted_unique};

verus! {

/// The order on value keys.
pub open spec fn key_le() -> spec_fn(i64, i64) -> bool {
    |a: i64, b: i64| a <= b
}

pub proof fn lemma_key_le_total()
    ensures
        total_ordering(key_le()),
{
    let le = key_le();
    assert forall|x: i64| #[trigger] le(x, x) by {}
}

/// The present values of a column, in row order.
pub open spec fn present_vals(s: Seq<Option<i64>>) -> Seq<i64>
    decreases s.len(),
{
    if s.len() == 0 {
        Seq::empty()
    } else {
        let rest = present_vals(s.drop_last());
        match s.last() {
            Some(v) => rest.push(v),
            None => rest,
        }
    }
}

/// The present values of a column, sorted ascending.
pub open spec fn sorted_present(s: Seq<Option<i64>>) -> Seq<i64> {
    present_vals(s).sort_by(key_le())
}

/// First position at or after `bd` where the sorted values strictly step up
/// before the final position, or `-1` when no such position exists.
pub open spec fn next_cut(vals: Seq<i64>, bd: int) -> int
    decreases vals.len() - bd, when bd >= 0
{
    if bd < 0 || bd >= vals.len() - 1 {
        -1
    } else if vals[bd] < vals[bd + 1] {
        bd
    } else {
        next_cut(vals, bd + 1)
    }
}

/// Threshold list of a continuous fit: one scan per target boundary,
/// starting at the last position of the bin before it, emitting the cut
/// value unless it repeats the last one.
pub open spec fn fit_cuts(vals: Seq<i64>, bsize: int, nb: int, i: int, acc: Seq<i64>) -> Seq<
    i64,
>
    decreases nb - i,
{
    if i >= nb {
        acc
    } else {
        let start = if i * bsize >= 1 {
            i * bsize - 1
        } else {
            0
        };
        let c = next_cut(vals, start);
        let acc2 = if c >= 0 && (acc.len() == 0 || acc.last() != vals[c]) {
            acc.push(vals[c])
        } else {
            acc
        };
        fit_cuts(vals, bsize, nb, i + 1, acc2)
    }
}

/// Count of thresholds strictly below `x`: the bin code of a present value.
pub open spec fn count_lt(s: Seq<i64>, x: i64) -> int
    decreases s.len(),
{
    if s.len() == 0 {
        0
    } else {
        count_lt(s.drop_last(), x) + if s.last() < x {
            1int
        } else {
            0int
        }
    }
}

/// The code of a present value never exceeds the threshold count.
pub proof fn lemma_count_lt_range(s: Seq<i64>, x: i64)
    ensures
        0 <= count_lt(s, x) <= s.len(),
    decreases s.len(),
{
    if s.len() > 0 {
        lemma_count_lt_range(s.drop_last(), x);
    }
}

/// Binner round trip: once a continuous discretizer is fitted, its bin
/// count is one more than its threshold count, so every code a map step
/// yields stays below the bin count, whatever the input values.
pub proof fn lemma_binner_round_trip(b: ContinuousBin, x: i64)
    requires
        b.n_bin == b.threshold@.len() + 1,
    ensures
        0 <= count_lt(b.threshold@, x) < b.n_bin,
{
    lemma_count_lt_range(b.threshold@, x);
}

/// Monotonicity: a larger value can only cross more thresholds.
pub proof fn lemma_count_lt_monotone(s: Seq<i64>, x: i64, y: i64)
    requires
        x <= y,
    ensures
        count_lt(s, x) <= count_lt(s, y),
    decreases s.len(),
{
    if s.len() > 0 {
        lemma_count_lt_monotone(s.drop_last(), x, y);
    }
}

proof fn lemma_insert_multiset(s: Seq<i64>, i: int, v: i64)
    requires
        0 <= i <= s.len(),
    ensures
        s.insert(i, v).to_multiset() == s.to_multiset().insert(v),
{
    broadcast use vstd::seq_lib::group_to_multiset_ensures;

    let pre = s.subrange(0, i);
    let post = s.subrange(i, s.len() as int);
    assert(s.insert(i, v) =~= pre.push(v) + post);
    assert(s =~= pre + post);
    lemma_multiset_commutative(pre.push(v), post);
    lemma_multiset_commutative(pre, post);
    assert(pre.push(v).to_multiset() == pre.to_multiset().insert(v));
    assert(s.insert(i, v).to_multiset() =~= s.to_multiset().insert(v));
}

/// Sort value keys ascending; the result is exactly the specification-level
/// sort of the input.
fn sort_keys(v: &Vec<i64>) -> (r: Vec<i64>)
    ensures
        r@ == v@.sort_by(key_le()),
        sorted_by(r@, key_le()),
        r@.len() == v@.len(),
{
    proof {
        lemma_key_le_total();
        v@.lemma_sort_by_ensures(key_le());
    }
    let mut out: Vec<i64> = Vec::new();
    let n = v.len();
    let mut i: usize = 0;
    proof {
        assert(v@.subrange(0, 0) =~= out@);
    }
    while i < n
        invariant
            i <= n,
            n == v@.len(),
            sorted_by(out@, key_le()),
            out@.to_multiset() == v@.subrange(0, i as int).to_multiset(),
            out@.len() == i,
        decreases n - i,
    {
        broadcast use vstd::seq_lib::group_to_multiset_ensures;

        let x = v[i];
        // first position whose element exceeds x
        let m = out.len();
        let mut pos: usize = 0;
        while pos < m && out[pos] <= x
            invariant
                pos <= m,
                m == out@.len(),
                forall|k: int| 0 <= k < pos ==> #[trigger] out@[k] <= x,
            decreases m - pos,
        {
            pos = pos + 1;
        }
        proof {
            let le = key_le();
            if pos < m {
                assert(!le(out@[pos as int], x));
            }
            lemma_insert_multiset(out@, pos as int, x);
            assert(v@.subrange(0, i + 1) =~= v@.subrange(0, i as int).push(v@[i as int]));
            // sortedness of the inserted sequence
            let s2 = out@.insert(pos as int, x);
            assert forall|a: int, b: int| 0 <= a < b < s2.len() implies le(s2[a], s2[b]) by {
                if a < pos && b > pos {
                    assert(le(s2[a], x) || a == pos);
                }
                if a == pos as int {
                    if b > pos {
                        assert(s2[b] == out@[b - 1]);
                        if pos < m {
                            assert(le(out@[pos as int], out@[b - 1]));
                        }
                    }
                }
            }
        }
        out.insert(pos, x);
        i = i + 1;
    }
    proof {
        assert(v@.subrange(0, n as int) =~= v@);
        lemma_key_le_total();
        lemma_sorted_unique(out@, v@.sort_by(key_le()), key_le());
    }
    out
}

/// Walk forward from `start` to the next strict step in the sorted values.
fn scan_cut(sorted: &Vec<i64>, start: usize) -> (r: Option<usize>)
    ensures
        match r {
            Some(c) => next_cut(sorted@, start as int) == c as int && c < sorted@.len(),
            None => next_cut(sorted@, start as int) == -1,
        },
{
    let n = sorted.len();
    let mut bd: usize = start;
    while bd < n
        invariant
            n == sorted@.len(),
            next_cut(sorted@, bd as int) == next_cut(sorted@, start as int),
        decreases n - bd,
    {
        if bd == n - 1 {
            return None;
        }
        let v = sorted[bd];
        let v1 = sorted[bd + 1];
        if v < v1 {
            return Some(bd);
        }
        bd = bd + 1;
    }
    None
}

#[derive(Clone, Debug)]
pub struct ContinuousBin {
    pub n_bin: usize,
    pub threshold: Vec<i64>,
}

impl ContinuousBin {
    /// A continuous discretizer with a target bin count, and optionally the
    /// thresholds of an earlier fit.
    pub fn new(n_bin: usize, threshold: Option<Vec<i64>>) -> (r: ContinuousBin)
        ensures
            r.n_bin == n_bin,
            threshold is Some ==> r.threshold@ == threshold.unwrap()@,
            threshold is None ==> r.threshold@.len() == 0,
    {
        let threshold = match threshold {
            Some(value) => value,
            None => Vec::new(),
        };
        ContinuousBin { n_bin, threshold }
    }

    /// Fit thresholds on a column: sort the present values ascending, then
    /// for each target boundary advance from the last value before it to
    /// the next strict step and emit the value there, dropping repeats. The
    /// final bin count is one more than the threshold count.
    pub fn fit(&mut self, arr: &Vec<Option<i64>>)
        requires
            old(self).n_bin >= 1,
        ensures
            final(self).threshold@ == fit_cuts(
                sorted_present(arr@),
                present_vals(arr@).len() as int / old(self).n_bin as int,
                old(self).n_bin as int,
                1,
                Seq::empty(),
            ),
            final(self).n_bin == final(self).threshold@.len() + 1,
            final(self).threshold@.len() < old(self).n_bin,
    {
        let mut vals: Vec<i64> = Vec::new();
        let n = arr.len();
        let mut i: usize = 0;
        while i < n
            invariant
                i <= n,
                n == arr@.len(),
                vals@ == present_vals(arr@.subrange(0, i as int)),
            decreases n - i,
        {
            proof {
                assert(arr@.subrange(0, i + 1).drop_last() =~= arr@.subrange(0, i as int));
            }
            match arr[i] {
                Some(v) => vals.push(v),
                None => (),
            }
            i = i + 1;
        }
        proof {
            assert(arr@.subrange(0, n as int) =~= arr@);
        }
        let sorted = sort_keys(&vals);
        let val_size = sorted.len();
        let bin_size = val_size / self.n_bin;
        let nb = self.n_bin;

        let mut threshold: Vec<i64> = Vec::new();
        let mut idx: usize = 1;
        while idx < nb
            invariant
                1 <= idx <= nb,
                val_size == sorted@.len(),
                bin_size == val_size as int / nb as int,
                nb >= 1,
                sorted@ == sorted_present(arr@),
                threshold@.len() <= idx - 1,
                fit_cuts(sorted@, bin_size as int, nb as int, 1, Seq::empty()) == fit_cuts(
                    sorted@,
                    bin_size as int,
                    nb as int,
                    idx as int,
                    threshold@,
                ),
            decreases nb - idx,
        {
            proof {
                assert(idx * bin_size <= nb * bin_size) by (nonlinear_arith)
                    requires
                        idx <= nb,
                        bin_size >= 0,
                ;
                assert(nb * (val_size as int / nb as int) <= val_size) by (nonlinear_arith)
                    requires
                        nb >= 1,
                        val_size >= 0,
                ;
            }
            let bd: usize = if idx * bin_size >= 1 {
                idx * bin_size - 1
            } else {
                0
            };
            let cut = scan_cut(&sorted, bd);
            match cut {
                Some(c) => {
                    let v = sorted[c];
                    if threshold.len() == 0 || *threshold.last().unwrap() != v {
                        threshold.push(v);
                    }
                },
                None => (),
            }
            idx = idx + 1;
        }
        proof {
            assert(fit_cuts(sorted@, bin_size as int, nb as int, nb as int, threshold@)
                == threshold@);
        }
        self.n_bin = threshold.len() + 1;
        self.threshold = threshold;
    }

    /// Map a column to bin codes: a present value becomes the count of
    /// thresholds strictly below it, a missing value stays missing.
    pub fn map(&self, arr: &Vec<Option<i64>>) -> (r: Vec<Option<u8>>)
        requires
            self.threshold@.len() < 255,
        ensures
            r@.len() == arr@.len(),
            forall|i: int|
                0 <= i < arr@.len() ==> #[trigger] r@[i] == match arr@[i] {
                    Some(x) => Some(count_lt(self.threshold@, x) as u8),
                    None => None::<u8>,
                },
    {
        let n = arr.len();
        let mut r: Vec<Option<u8>> = Vec::new();
        let mut i: usize = 0;
        while i < n
            invariant
                i <= n,
                n == arr@.len(),
                self.threshold@.len() < 255,
                r@.len() == i,
                forall|k: int|
                    0 <= k < i ==> #[trigger] r@[k] == match arr@[k] {
                        Some(x) => Some(count_lt(self.threshold@, x) as u8),
                        None => None::<u8>,
                    },
            decreases n - i,
        {
            let code = match arr[i] {
                Some(x) => Some(self.discretize(x)),
                None => None,
            };
            r.push(code);
            i = i + 1;
        }
        r
    }

    /// Bin code of one present value.
    fn discretize(&self, x: i64) -> (r: u8)
        requires
            self.threshold@.len() < 255,
        ensures
            r as int == count_lt(self.threshold@, x),
    {
        let n = self.threshold.len();
        let mut count: usize = 0;
        let mut i: usize = 0;
        while i < n
            invariant
                i <= n,
                n == self.threshold@.len() < 255,
                count as int == count_lt(self.threshold@.subrange(0, i as int), x),
                count <= i,
            decreases n - i,
        {
            proof {
                assert(self.threshold@.subrange(0, i + 1).drop_last() =~= self.threshold@.subrange(
                    0,
                    i as int,
                ));
            }
            if self.threshold[i] < x {
                count = count + 1;
            }
            i = i + 1;
        }
        proof {
            assert(self.threshold@.subrange(0, n as int) =~= self.threshold@);
            lemma_count_lt_range(self.threshold@, x);
        }
        count as u8
    }
}


/// The distinct present keys of a column, in first-occurrence order.
pub open spec fn distinct_keys(s: Seq<i64>) -> Seq<i64>
    decreases s.len(),
{
    if s.len() == 0 {
        Seq::empty()
    } else {
        let d = distinct_keys(s.drop_last());
        if d.contains(s.last()) {
            d
        } else {
            d.push(s.last())
        }
    }
}

/// How often `k` occurs.
pub open spec fn key_count(s: Seq<i64>, k: i64) -> int
    decreases s.len(),
{
    if s.len() == 0 {
        0
    } else {
        key_count(s.drop_last(), k) + if s.last() == k {
            1int
        } else {
            0int
        }
    }
}

/// Occurrence count for each distinct key.
pub open spec fn counts_of(pres: Seq<i64>, dk: Seq<i64>) -> Seq<usize> {
    Seq::new(dk.len(), |j: int| key_count(pres, dk[j]) as usize)
}

/// The distinct keys hold each key once.
proof fn lemma_distinct_no_dup(s: Seq<i64>)
    ensures
        forall|a: int, b: int|
            0 <= a < b < distinct_keys(s).len() ==> distinct_keys(s)[a] != distinct_keys(
                s,
            )[b],
    decreases s.len(),
{
    if s.len() > 0 {
        lemma_distinct_no_dup(s.drop_last());
        let d = distinct_keys(s.drop_last());
        if !d.contains(s.last()) {
            assert(forall|a: int| 0 <= a < d.len() ==> d[a] != s.last());
        }
    }
}

/// The distinct keys are exactly the keys that occur.
proof fn lemma_distinct_contains(s: Seq<i64>, x: i64)
    ensures
        distinct_keys(s).contains(x) <==> s.contains(x),
    decreases s.len(),
{
    if s.len() > 0 {
        lemma_distinct_contains(s.drop_last(), x);
        let d0 = distinct_keys(s.drop_last());
        assert(s.contains(x) <==> (s.drop_last().contains(x) || s.last() == x)) by {
            if s.contains(x) {
                let i = choose|i: int| 0 <= i < s.len() && s[i] == x;
                if i < s.len() - 1 {
                    assert(s.drop_last()[i] == x);
                }
            }
            if s.drop_last().contains(x) {
                let i = choose|i: int|
                    0 <= i < s.drop_last().len() && s.drop_last()[i] == x;
                assert(s[i] == x);
            }
            if s.last() == x {
                assert(s[s.len() - 1] == x);
            }
        }
        assert(distinct_keys(s).contains(x) <==> (d0.contains(x) || s.last() == x)) by {
            if d0.contains(s.last()) {
            } else {
                let dk = d0.push(s.last());
                assert(distinct_keys(s) == dk);
                if d0.contains(x) {
                    let i = choose|i: int| 0 <= i < d0.len() && d0[i] == x;
                    assert(dk[i] == x);
                }
                if s.last() == x {
                    assert(dk[d0.len() as int] == x);
                }
                if dk.contains(x) {
                    let i = choose|i: int| 0 <= i < dk.len() && dk[i] == x;
                    if i < d0.len() {
                        assert(d0[i] == x);
                    }
                }
            }
        }
    }
}

/// Two different positions of the distinct keys hold different keys.
proof fn lemma_distinct_pair(s: Seq<i64>, a: int, b: int)
    requires
        0 <= a < distinct_keys(s).len(),
        0 <= b < distinct_keys(s).len(),
        a != b,
    ensures
        distinct_keys(s)[a] != distinct_keys(s)[b],
{
    lemma_distinct_no_dup(s);
}

/// A count is between zero and the column length.
proof fn lemma_key_count_range(s: Seq<i64>, k: i64)
    ensures
        0 <= key_count(s, k) <= s.len(),
    decreases s.len(),
{
    if s.len() > 0 {
        lemma_key_count_range(s.drop_last(), k);
    }
}

/// There are at most as many present values as rows.
proof fn lemma_present_len(s: Seq<Option<i64>>)
    ensures
        present_vals(s).len() <= s.len(),
    decreases s.len(),
{
    if s.len() > 0 {
        lemma_present_len(s.drop_last());
    }
}

/// A key that does not occur has count zero.
proof fn lemma_absent_count(s: Seq<i64>, x: i64)
    requires
        !s.contains(x),
    ensures
        key_count(s, x) == 0,
    decreases s.len(),
{
    if s.len() > 0 {
        assert(forall|i: int| 0 <= i < s.drop_last().len() ==> s.drop_last()[i] == s[i]);
        lemma_absent_count(s.drop_last(), x);
        assert(s[s.len() - 1] != x);
    }
}

/// Position of the first maximal count, scanning from `i` with the best
/// position so far.
pub open spec fn first_max(c: Seq<usize>, i: int, best: int) -> int
    decreases c.len() - i, when i >= 0
{
    if i < 0 || i >= c.len() {
        best
    } else if c[i] > c[best] {
        first_max(c, i + 1, i)
    } else {
        first_max(c, i + 1, best)
    }
}

/// Keys ordered by decreasing count, earlier insertion winning ties,
/// truncated to `k` entries: repeatedly take the first maximum.
pub open spec fn select_order(keys: Seq<i64>, counts: Seq<usize>, k: int) -> Seq<i64>
    decreases k,
{
    if k <= 0 || keys.len() == 0 {
        Seq::empty()
    } else {
        let b = first_max(counts, 1, 0);
        Seq::empty().push(keys[b]) + select_order(keys.remove(b), counts.remove(b), k - 1)
    }
}

/// First position of `x`, or the length when `x` does not occur.
pub open spec fn index_of_key(s: Seq<i64>, x: i64) -> int
    decreases s.len(),
{
    if s.len() == 0 {
        0
    } else if s[0] == x {
        0
    } else {
        1 + index_of_key(s.drop_first(), x)
    }
}

/// The first position of a key is at most the mapping's length.
pub proof fn lemma_index_of_key_range(s: Seq<i64>, x: i64)
    ensures
        0 <= index_of_key(s, x) <= s.len(),
    decreases s.len(),
{
    if s.len() > 0 && s[0] != x {
        lemma_index_of_key_range(s.drop_first(), x);
    }
}

proof fn lemma_index_of_key(s: Seq<i64>, x: i64, j: int)
    requires
        0 <= j <= s.len(),
        forall|t: int| 0 <= t < j ==> s[t] != x,
        j < s.len() ==> s[j] == x,
    ensures
        index_of_key(s, x) == j,
    decreases s.len(),
{
    if s.len() == 0 {
    } else if s[0] == x {
        assert(j == 0);
    } else {
        lemma_index_of_key(s.drop_first(), x, j - 1);
    }
}

#[derive(Clone, Debug)]
pub struct DiscreteBin {
    pub n_bin: usize,
    pub mapping: Vec<i64>,
}

impl DiscreteBin {
    /// A categorical discretizer with a target bin count.
    pub fn new(n_bin: usize) -> (r: DiscreteBin)
        ensures
            r.n_bin == n_bin,
            r.mapping@.len() == 0,
    {
        DiscreteBin { n_bin, mapping: Vec::new() }
    }

    /// Fit the mapping on a column: count each distinct present key, keep
    /// them by decreasing count (ties by first occurrence) truncated to the
    /// target bin count and the code capacity, and reserve one catch-all
    /// code when any key was dropped.
    pub fn fit(&mut self, arr: &Vec<Option<i64>>)
        ensures
            ({
                let pres = present_vals(arr@);
                let dk = distinct_keys(pres);
                let cap: int = if old(self).n_bin < 254 {
                    old(self).n_bin as int
                } else {
                    254
                };
                let k: int = if dk.len() <= cap {
                    dk.len() as int
                } else {
                    cap
                };
                &&& final(self).mapping@ == select_order(dk, counts_of(pres, dk), k)
                &&& final(self).mapping@.len() <= k
                &&& final(self).n_bin == final(self).mapping@.len() + if dk.len()
                    > final(self).mapping@.len() {
                    1int
                } else {
                    0int
                }
            }),
            final(self).mapping@.len() <= 254,
    {
        let ghost pres_full: Seq<i64> = present_vals(arr@);
        let mut keys: Vec<i64> = Vec::new();
        let mut count: Vec<usize> = Vec::new();
        let n = arr.len();
        let mut i: usize = 0;
        while i < n
            invariant
                i <= n,
                n == arr@.len(),
                keys@ == distinct_keys(present_vals(arr@.subrange(0, i as int))),
                count@ =~= counts_of(present_vals(arr@.subrange(0, i as int)), keys@),
                count@.len() == keys@.len(),
                forall|j: int| 0 <= j < count@.len() ==> #[trigger] count@[j] <= i,
            decreases n - i,
        {
            let ghost pre = present_vals(arr@.subrange(0, i as int));
            proof {
                assert(arr@.subrange(0, i + 1).drop_last() =~= arr@.subrange(0, i as int));
            }
            match arr[i] {
                Some(w) => {
                    proof {
                        assert(pre.push(w).drop_last() =~= pre);
                    }
                    let m = keys.len();
                    let mut pos: usize = 0;
                    while pos < m && keys[pos] != w
                        invariant
                            pos <= m,
                            m == keys@.len(),
                            forall|t: int| 0 <= t < pos ==> keys@[t] != w,
                        decreases m - pos,
                    {
                        pos = pos + 1;
                    }
                    if pos < m {
                        proof {
                            assert(keys@.contains(w));
                        }
                        let c = count[pos];
                        count.set(pos, c + 1);
                        proof {
                            lemma_distinct_no_dup(pre);
                            lemma_present_len(arr@.subrange(0, i as int));
                            assert forall|j: int| 0 <= j < count@.len() implies count@[j]
                                == key_count(pre.push(w), keys@[j]) as usize by {
                                lemma_key_count_range(pre, keys@[j]);
                                assert(key_count(pre.push(w), keys@[j]) == key_count(
                                    pre,
                                    keys@[j],
                                ) + if w == keys@[j] {
                                    1int
                                } else {
                                    0int
                                });
                                if j != pos {
                                    lemma_distinct_pair(pre, j, pos as int);
                                    assert(keys@[pos as int] == w);
                                }
                            }
                            assert(count@ =~= counts_of(pre.push(w), keys@));
                        }
                    } else {
                        proof {
                            assert(!keys@.contains(w));
                            lemma_distinct_contains(pre, w);
                            lemma_absent_count(pre, w);
                        }
                        keys.push(w);
                        count.push(1);
                        proof {
                            lemma_present_len(arr@.subrange(0, i as int));
                            assert forall|j: int| 0 <= j < count@.len() implies count@[j]
                                == key_count(pre.push(w), keys@[j]) as usize by {
                                lemma_key_count_range(pre, keys@[j]);
                                assert(key_count(pre.push(w), keys@[j]) == key_count(
                                    pre,
                                    keys@[j],
                                ) + if w == keys@[j] {
                                    1int
                                } else {
                                    0int
                                });
                                if j < count@.len() - 1 {
                                    assert(keys@[j] != w);
                                }
                            }
                            assert(count@ =~= counts_of(pre.push(w), keys@));
                        }
                    }
                },
                None => (),
            }
            i = i + 1;
        }
        proof {
            assert(arr@.subrange(0, n as int) =~= arr@);
        }
        // keep the k most frequent keys, first occurrence winning ties
        let distinct = keys.len();
        let cap: usize = if self.n_bin < 254 {
            self.n_bin
        } else {
            254
        };
        let k: usize = if distinct <= cap {
            distinct
        } else {
            cap
        };
        let ghost keys0 = keys@;
        let ghost count0 = count@;
        let mut mapping: Vec<i64> = Vec::new();
        while mapping.len() < k
            invariant
                mapping@.len() <= k,
                k <= keys0.len(),
                keys@.len() == keys0.len() - mapping@.len(),
                count@.len() == keys@.len(),
                select_order(keys0, count0, k as int) == mapping@ + select_order(
                    keys@,
                    count@,
                    k - mapping@.len(),
                ),
            decreases k - mapping@.len(),
        {
            let m = count.len();
            let mut best: usize = 0;
            let mut j: usize = 1;
            while j < m
                invariant
                    1 <= j <= m || (m == 0 && j == 1),
                    m == count@.len(),
                    best < m || (m == 0 && best == 0),
                    first_max(count@, j as int, best as int) == first_max(count@, 1, 0),
                decreases m - j,
            {
                if count[j] > count[best] {
                    best = j;
                }
                j = j + 1;
            }
            let ghost mapping_pre = mapping@;
            mapping.push(keys[best]);
            keys.remove(best);
            count.remove(best);
            proof {
                assert(mapping@ + select_order(keys@, count@, k - mapping@.len()) =~= mapping_pre
                    + (Seq::empty().push(mapping@.last()) + select_order(
                    keys@,
                    count@,
                    k - mapping@.len(),
                )));
            }
        }
        proof {
            assert(select_order(keys@, count@, 0) == Seq::<i64>::empty());
            assert(mapping@ + Seq::<i64>::empty() =~= mapping@);
        }
        let mut n_bin = mapping.len();
        if distinct > mapping.len() {
            n_bin = n_bin + 1;
        }
        self.n_bin = n_bin;
        self.mapping = mapping;
    }

    /// Map a column to bin codes: a present key becomes its position in the
    /// mapping, an unseen key the catch-all position past the end, a missing
    /// value stays missing.
    pub fn map(&self, arr: &Vec<Option<i64>>) -> (r: Vec<Option<u8>>)
        requires
            self.mapping@.len() <= 254,
        ensures
            r@.len() == arr@.len(),
            forall|i: int|
                0 <= i < arr@.len() ==> #[trigger] r@[i] == match arr@[i] {
                    Some(x) => Some(index_of_key(self.mapping@, x) as u8),
                    None => None::<u8>,
                },
    {
        let n = arr.len();
        let m = self.mapping.len();
        let mut r: Vec<Option<u8>> = Vec::new();
        let mut i: usize = 0;
        while i < n
            invariant
                i <= n,
                n == arr@.len(),
                m == self.mapping@.len() <= 254,
                r@.len() == i,
                forall|t: int|
                    0 <= t < i ==> #[trigger] r@[t] == match arr@[t] {
                        Some(x) => Some(index_of_key(self.mapping@, x) as u8),
                        None => None::<u8>,
                    },
            decreases n - i,
        {
            let code = match arr[i] {
                Some(x) => {
                    let mut pos: usize = 0;
                    while pos < m && self.mapping[pos] != x
                        invariant
                            pos <= m,
                            m == self.mapping@.len(),
                            forall|t: int| 0 <= t < pos ==> self.mapping@[t] != x,
                        decreases m - pos,
                    {
                        pos = pos + 1;
                    }
                    proof {
                        lemma_index_of_key(self.mapping@, x, pos as int);
                    }
                    Some(pos as u8)
                },
                None => None,
            };
            r.push(code);
            i = i + 1;
        }
        r
    }
}


proof fn lemma_first_max_range(c: Seq<usize>, i: int, best: int)
    requires
        0 <= best < c.len(),
        0 <= i,
    ensures
        0 <= first_max(c, i, best) < c.len(),
    decreases c.len() - i,
{
    if i < c.len() {
        if c[i] > c[best] {
            lemma_first_max_range(c, i + 1, i);
        } else {
            lemma_first_max_range(c, i + 1, best);
        }
    }
}

/// Keeping as many entries as there are keys drops nothing: the selection
/// holds every key.
proof fn lemma_select_order_complete(keys: Seq<i64>, counts: Seq<usize>, k: int, x: i64)
    requires
        counts.len() == keys.len(),
        k >= keys.len(),
        keys.contains(x),
    ensures
        select_order(keys, counts, k).contains(x),
    decreases k,
{
    let b = first_max(counts, 1, 0);
    lemma_first_max_range(counts, 1, 0);
    let out = Seq::empty().push(keys[b]) + select_order(keys.remove(b), counts.remove(b), k - 1);
    if x == keys[b] {
        assert(out[0] == x);
    } else {
        let i = choose|i: int| 0 <= i < keys.len() && keys[i] == x;
        if i < b {
            assert(keys.remove(b)[i] == x);
        } else {
            assert(keys.remove(b)[i - 1] == x);
        }
        lemma_select_order_complete(keys.remove(b), counts.remove(b), k - 1, x);
        let rest = select_order(keys.remove(b), counts.remove(b), k - 1);
        let j = choose|j: int| 0 <= j < rest.len() && #[trigger] rest[j] == x;
        assert(out[j + 1] == x);
    }
}

proof fn lemma_index_of_key_found(s: Seq<i64>, x: i64)
    requires
        s.contains(x),
    ensures
        index_of_key(s, x) < s.len(),
    decreases s.len(),
{
    if s.len() > 0 && s[0] != x {
        let i = choose|i: int| 0 <= i < s.len() && s[i] == x;
        assert(s.drop_first()[i - 1] == x);
        lemma_index_of_key_found(s.drop_first(), x);
    }
}

/// Binner round trip, categorical side: once a discretizer is fitted on a
/// column, every value of that column maps below the final bin count —
/// values that were kept get their position, and a dropped value gets the
/// catch-all position, which the overflow increment keeps below the count.
pub proof fn lemma_categorical_round_trip(b: DiscreteBin, pres: Seq<i64>, k: int, x: i64)
    requires
        b.mapping@ == select_order(distinct_keys(pres), counts_of(pres, distinct_keys(pres)), k),
        b.mapping@.len() <= k,
        b.n_bin == b.mapping@.len() + (if distinct_keys(pres).len() > b.mapping@.len() {
            1int
        } else {
            0int
        }),
        k <= distinct_keys(pres).len(),
        pres.contains(x),
    ensures
        0 <= index_of_key(b.mapping@, x) < b.n_bin,
{
    let dk = distinct_keys(pres);
    lemma_index_of_key_range(b.mapping@, x);
    if dk.len() > b.mapping@.len() {
        // the overflow slot covers the catch-all position
    } else {
        assert(b.mapping@.len() == dk.len());
        assert(k == dk.len());
        lemma_distinct_contains(pres, x);
        lemma_select_order_complete(dk, counts_of(pres, dk), k, x);
        lemma_index_of_key_found(b.mapping@, x);
    }
}

} // verus!


