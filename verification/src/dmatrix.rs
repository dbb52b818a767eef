//! The columnar training matrix: binned features, response, treatments and
//! weights, all of one length, with per-feature metadata.

use vstd::prelude::*;
use vstd::seq_lib::lemma_multiset_commutative;
use crate::fixed::SCALE;

verus! {

/// Bin code reserved for missing values when rows are ordered by a feature.
pub const MISSING_KEY: u8 = 255;

/// Cap on the number of rows that keeps every weight sum in range.
pub const MAX_ROWS: usize = 0x4000_0000;

/// Cap on one fixed-point weight (64.0).
pub const MAX_WEIGHT: i64 = 0x4000_0000;

/// Cap on the magnitude of one fixed-point response (65536.0).
pub const MAX_RESPONSE: i64 = 0x100_0000_0000;

pub struct DMatrix {
    pub indices: Vec<Vec<String>>,
    pub feature: Vec<Vec<Option<u8>>>,
    pub response: Vec<i64>,
    pub treatments: Vec<Vec<u8>>,
    pub weights: Vec<i64>,
    pub is_bool: Vec<bool>,
    pub name: Vec<String>,
    pub bin_size: Vec<usize>,
    pub treatment_size: Vec<usize>,
}

impl DMatrix {
    /// Number of rows, read off the first feature column.
    pub open spec fn rows(self) -> int {
        self.feature@[0]@.len() as int
    }

    pub open spec fn n_features(self) -> int {
        self.feature@.len() as int
    }

    /// The invariant every training and prediction step relies on: one
    /// metadata entry per feature, all columns of one length within the row
    /// cap, every bin code below its feature's bin count (which the code
    /// type can hold), every treatment code below its column's group count,
    /// weights nonnegative and bounded, responses bounded.
    pub open spec fn wf(self) -> bool {
        &&& self.n_features() >= 1
        &&& self.is_bool@.len() == self.n_features()
        &&& self.name@.len() == self.n_features()
        &&& self.bin_size@.len() == self.n_features()
        &&& self.rows() <= MAX_ROWS
        &&& forall|f: int|
            0 <= f < self.n_features() ==> (#[trigger] self.feature@[f])@.len() == self.rows()
        &&& forall|f: int|
            0 <= f < self.n_features() ==> #[trigger] self.bin_size@[f] <= 255
        &&& forall|f: int, i: int|
            0 <= f < self.n_features() && 0 <= i < self.rows() && self.feature@[f]@[i] is Some
                ==> (#[trigger] self.feature@[f]@[i]).unwrap() <= self.bin_size@[f]
                && (#[trigger] self.feature@[f]@[i]).unwrap() <= 254
        &&& self.response@.len() == self.rows()
        &&& forall|i: int|
            0 <= i < self.rows() ==> -MAX_RESPONSE <= #[trigger] self.response@[i]
                <= MAX_RESPONSE
        &&& self.weights@.len() == self.rows()
        &&& forall|i: int|
            0 <= i < self.rows() ==> 0 <= #[trigger] self.weights@[i] <= MAX_WEIGHT
        &&& self.treatments@.len() == self.treatment_size@.len()
        &&& self.treatments@.len() >= 1
        &&& forall|t: int|
            0 <= t < self.treatments@.len() ==> (#[trigger] self.treatments@[t])@.len()
                == self.rows()
        &&& forall|t: int|
            0 <= t < self.treatment_size@.len() ==> 1 <= #[trigger] self.treatment_size@[t]
                <= 255
        &&& forall|t: int, i: int|
            0 <= t < self.treatments@.len() && 0 <= i < self.rows()
                ==> (#[trigger] self.treatments@[t]@[i]) < self.treatment_size@[t]
    }

    /// The response class of a row: the integer part of the response, as the
    /// classification criterion reads it.
    pub open spec fn class_of(self, i: int) -> int {
        self.response@[i] as int / SCALE as int
    }

    /// Responses a classification fit accepts: every class is zero or one.
    pub open spec fn classification_ok(self) -> bool {
        forall|i: int|
            0 <= i < self.rows() ==> 0 <= #[trigger] self.response@[i] < 2 * SCALE
    }

    pub fn new(
        indices: Vec<Vec<String>>,
        feature: Vec<Vec<Option<u8>>>,
        response: Vec<i64>,
        treatments: Vec<Vec<u8>>,
        weights: Vec<i64>,
        is_bool: Vec<bool>,
        name: Vec<String>,
        bin_size: Vec<usize>,
        treatment_size: Vec<usize>,
    ) -> (r: DMatrix)
        ensures
            r.indices == indices,
            r.feature == feature,
            r.response == response,
            r.treatments == treatments,
            r.weights == weights,
            r.is_bool == is_bool,
            r.name == name,
            r.bin_size == bin_size,
            r.treatment_size == treatment_size,
    {
        DMatrix {
            indices,
            feature,
            response,
            treatments,
            weights,
            is_bool,
            name,
            bin_size,
            treatment_size,
        }
    }

    /// Number of rows.
    pub fn size(&self) -> (r: usize)
        requires
            self.n_features() >= 1,
        ensures
            r == self.rows(),
    {
        self.feature[0].len()
    }

    /// Number of features.
    pub fn n_feature(&self) -> (r: usize)
        ensures
            r == self.n_features(),
    {
        self.feature.len()
    }

    /// One bin code.
    pub fn get(&self, feature_idx: usize, index: usize) -> (r: Option<u8>)
        requires
            self.wf(),
            feature_idx < self.n_features(),
            index < self.rows(),
        ensures
            r == self.feature@[feature_idx as int]@[index as int],
    {
        self.feature[feature_idx][index]
    }

    /// Sort key of a row under a feature: its bin code, missing values last.
    pub open spec fn code_key(self, f: int, row: int) -> int {
        match self.feature@[f]@[row] {
            Some(c) => c as int,
            None => MISSING_KEY as int,
        }
    }

    /// First position in `s` whose key under feature `f` exceeds the key of
    /// row `v`: where a stable insertion places `v`.
    pub open spec fn ins_pos(self, f: int, s: Seq<usize>, v: usize) -> int
        decreases s.len(),
    {
        if s.len() == 0 {
            0
        } else if self.code_key(f, s[0] as int) > self.code_key(f, v as int) {
            0
        } else {
            1 + self.ins_pos(f, s.drop_first(), v)
        }
    }

    /// Stable insertion sort of row indices by bin code under feature `f`,
    /// missing values last: the order `sort_index` produces.
    pub open spec fn ins_sort(self, f: int, s: Seq<usize>) -> Seq<usize>
        decreases s.len(),
    {
        if s.len() == 0 {
            Seq::empty()
        } else {
            let rest = self.ins_sort(f, s.drop_last());
            rest.insert(self.ins_pos(f, rest, s.last()), s.last())
        }
    }

    /// Sort row indices in place by the bin codes of one feature, missing
    /// values last; equal codes keep their relative order.
    pub fn sort_index(&self, feature_idx: usize, indices: &mut Vec<usize>)
        requires
            self.wf(),
            feature_idx < self.n_features(),
            forall|k: int| 0 <= k < old(indices)@.len() ==> #[trigger] old(indices)@[k]
                < self.rows(),
        ensures
            final(indices)@ == self.ins_sort(feature_idx as int, old(indices)@),
            final(indices)@.to_multiset() == old(indices)@.to_multiset(),
            final(indices)@.len() == old(indices)@.len(),
            forall|k: int| 0 <= k < final(indices)@.len() ==> #[trigger] final(indices)@[k]
                < self.rows(),
    {
        let ghost f: int = feature_idx as int;
        let ghost input: Seq<usize> = indices@;
        let n = indices.len();
        let mut out: Vec<usize> = Vec::new();
        let mut i: usize = 0;
        proof {
            assert(input.subrange(0, 0) =~= Seq::<usize>::empty());
        }
        while i < n
            invariant
                self.wf(),
                feature_idx < self.n_features(),
                f == feature_idx as int,
                forall|k: int| 0 <= k < input.len() ==> #[trigger] input[k] < self.rows(),
                i <= n,
                n == input.len(),
                indices@ == input,
                out@ == self.ins_sort(f, input.subrange(0, i as int)),
                out@.to_multiset() == input.subrange(0, i as int).to_multiset(),
                out@.len() == i,
                forall|k: int| 0 <= k < out@.len() ==> #[trigger] out@[k] < self.rows(),
            decreases n - i,
        {
            broadcast use vstd::seq_lib::group_to_multiset_ensures;

            let v = indices[i];
            let kv = self.row_key(feature_idx, v);
            let m = out.len();
            let mut pos: usize = 0;
            while pos < m && self.row_key(feature_idx, out[pos]) <= kv
                invariant
                    self.wf(),
                    feature_idx < self.n_features(),
                    f == feature_idx as int,
                    v < self.rows(),
                    kv as int == self.code_key(f, v as int),
                    forall|k: int| 0 <= k < out@.len() ==> #[trigger] out@[k] < self.rows(),
                    pos <= m,
                    m == out@.len(),
                    forall|t: int|
                        0 <= t < pos ==> self.code_key(f, #[trigger] out@[t] as int)
                            <= self.code_key(f, v as int),
                decreases m - pos,
            {
                pos = pos + 1;
            }
            proof {
                self.lemma_ins_pos(f, out@, v, pos as int);
                lemma_insert_multiset_usize(out@, pos as int, v);
                assert(input.subrange(0, i + 1).drop_last() =~= input.subrange(0, i as int));
                assert(input.subrange(0, i + 1) =~= input.subrange(0, i as int).push(
                    input[i as int],
                ));
            }
            out.insert(pos, v);
            i = i + 1;
        }
        proof {
            assert(input.subrange(0, n as int) =~= input);
        }
        let mut j: usize = 0;
        while j < n
            invariant
                j <= n,
                n == out@.len(),
                n == indices@.len(),
                forall|k: int| 0 <= k < j ==> #[trigger] indices@[k] == out@[k],
                forall|k: int| j <= k < n ==> #[trigger] indices@[k] == input[k],
                out@ == self.ins_sort(f, input),
                out@.to_multiset() == input.to_multiset(),
                forall|k: int| 0 <= k < out@.len() ==> #[trigger] out@[k] < self.rows(),
            decreases n - j,
        {
            let v = out[j];
            indices.set(j, v);
            j = j + 1;
        }
        proof {
            assert(indices@ =~= out@);
        }
    }

    /// The sort key of one row under one feature.
    fn row_key(&self, feature_idx: usize, row: usize) -> (r: u8)
        requires
            self.wf(),
            feature_idx < self.n_features(),
            row < self.rows(),
        ensures
            r as int == self.code_key(feature_idx as int, row as int),
    {
        match self.feature[feature_idx][row] {
            Some(c) => c,
            None => MISSING_KEY,
        }
    }

    proof fn lemma_ins_pos(self, f: int, s: Seq<usize>, v: usize, p: int)
        requires
            0 <= p <= s.len(),
            forall|t: int|
                0 <= t < p ==> self.code_key(f, #[trigger] s[t] as int) <= self.code_key(
                    f,
                    v as int,
                ),
            p < s.len() ==> self.code_key(f, s[p] as int) > self.code_key(f, v as int),
        ensures
            self.ins_pos(f, s, v) == p,
        decreases s.len(),
    {
        if s.len() == 0 {
        } else if self.code_key(f, s[0] as int) > self.code_key(f, v as int) {
            assert(p == 0);
        } else {
            assert(forall|t: int|
                0 <= t < p - 1 ==> s.drop_first()[t] == s[t + 1]);
            self.lemma_ins_pos(f, s.drop_first(), v, p - 1);
        }
    }
}

proof fn lemma_insert_multiset_usize(s: Seq<usize>, i: int, v: usize)
    requires
        0 <= i <= s.len(),
    ensures
        s.insert(i, v).to_multiset() == s.to_multiset().insert(v),
{
    broadcast use vstd::seq_lib::group_to_multiset_ensures;

    let pre = s.subrange(0, i);
    let post = s.subrange(i, s.len() as int);
    assert(s.insert(i, v) =~= pre.push(v) + post);
    assert(s =~= pre + post);
    lemma_multiset_commutative(pre.push(v), post);
    lemma_multiset_commutative(pre, post);
    assert(s.insert(i, v).to_multiset() =~= s.to_multiset().insert(v));
}


impl DMatrix {
    /// Where a stable insertion places a row: every earlier key is at most
    /// the row's, and the key at the position (if any) exceeds it.
    pub proof fn lemma_ins_pos_props(self, f: int, s: Seq<usize>, v: usize)
        ensures
            0 <= self.ins_pos(f, s, v) <= s.len(),
            forall|t: int|
                0 <= t < self.ins_pos(f, s, v) ==> self.code_key(f, #[trigger] s[t] as int)
                    <= self.code_key(f, v as int),
            self.ins_pos(f, s, v) < s.len() ==> self.code_key(
                f,
                s[self.ins_pos(f, s, v)] as int,
            ) > self.code_key(f, v as int),
        decreases s.len(),
    {
        if s.len() > 0 && !(self.code_key(f, s[0] as int) > self.code_key(f, v as int)) {
            self.lemma_ins_pos_props(f, s.drop_first(), v);
            assert forall|t: int|
                0 <= t < self.ins_pos(f, s, v) implies self.code_key(f, #[trigger] s[t] as int)
                <= self.code_key(f, v as int) by {
                if t >= 1 {
                    assert(s[t] == s.drop_first()[t - 1]);
                }
            }
        }
    }

    /// The stable insertion sort is sorted by the feature's codes, missing
    /// values last.
    pub proof fn lemma_ins_sort_sorted(self, f: int, s: Seq<usize>)
        ensures
            self.ins_sort(f, s).len() == s.len(),
            forall|a: int, b: int|
                0 <= a <= b < s.len() ==> self.code_key(
                    f,
                    #[trigger] self.ins_sort(f, s)[a] as int,
                ) <= self.code_key(f, #[trigger] self.ins_sort(f, s)[b] as int),
        decreases s.len(),
    {
        if s.len() > 0 {
            let rest = self.ins_sort(f, s.drop_last());
            let v = s.last();
            let pos = self.ins_pos(f, rest, v);
            self.lemma_ins_sort_sorted(f, s.drop_last());
            self.lemma_ins_pos_props(f, rest, v);
            let out = rest.insert(pos, v);
            assert forall|a: int, b: int|
                0 <= a <= b < out.len() implies self.code_key(f, #[trigger] out[a] as int)
                <= self.code_key(f, #[trigger] out[b] as int) by {
                let ka = if a < pos {
                    rest[a]
                } else if a == pos {
                    v
                } else {
                    rest[a - 1]
                };
                let kb = if b < pos {
                    rest[b]
                } else if b == pos {
                    v
                } else {
                    rest[b - 1]
                };
                assert(out[a] == ka);
                assert(out[b] == kb);
            }
        }
    }
}

} // verus!

