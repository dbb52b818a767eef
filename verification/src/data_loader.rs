//! Binding the discretizers to raw columns: fit each feature's discretizer
//! on first use and produce a training matrix from raw rows.
//!
//! Raw cells reach the loader as [`RawValue`] pairs: the order key a
//! discretizer compares, and the fixed-point value the numeric columns use.

use vstd::prelude::*;
use crate::bin::{ContinuousBin, DiscreteBin};
use crate::dmatrix::{DMatrix, MAX_ROWS, MAX_WEIGHT, MAX_RESPONSE};
use crate::fixed::SCALE;

verus! {

/// One raw cell: the order key of the value, and the value in fixed point.
#[derive(Clone, Copy, Debug)]
pub struct RawValue {
    pub key: i64,
    pub fix: i64,
}

/// The error kinds of the library, as the loading and configuration steps
/// report them.
#[derive(Clone, Copy, Debug, PartialEq, Eq, Structural)]
pub enum TreeError {
    /// An option value the library cannot work with.
    ConfigError,
    /// A required column is missing, or a row has the wrong width.
    SchemaError,
    /// Input that could not be read.
    ParseError,
    /// An internal bound was violated by the data.
    InvariantError,
}

#[derive(Debug)]
pub struct DataLoader {
    pub features: Vec<String>,
    pub response: String,
    pub treatments: Vec<String>,
    pub weight: String,
    pub cats: Vec<String>,
    pub n_bin: usize,
    pub bins_cont: Vec<Option<ContinuousBin>>,
    pub bins_disc: Vec<Option<DiscreteBin>>,
}

/// What [`DataLoader::new`] accepts: a bin count the code type can hold,
/// one discretizer slot per feature, and every preloaded discretizer within
/// the bounds the map step and the matrix invariant rely on.
pub open spec fn loader_args_ok(
    features: Seq<String>,
    n_bin: int,
    bins_cont: Seq<Option<ContinuousBin>>,
    bins_disc: Seq<Option<DiscreteBin>>,
) -> bool {
    &&& 1 <= n_bin < 255
    &&& bins_cont.len() == features.len()
    &&& bins_disc.len() == features.len()
    &&& forall|f: int|
        0 <= f < features.len() && (#[trigger] bins_cont[f]) is Some ==> {
            let b = bins_cont[f].unwrap();
            b.threshold@.len() < b.n_bin && b.n_bin <= 255 && b.threshold@.len() <= 254
        }
    &&& forall|f: int|
        0 <= f < features.len() && (#[trigger] bins_disc[f]) is Some ==> {
            let b = bins_disc[f].unwrap();
            b.mapping@.len() <= b.n_bin && b.n_bin <= 255 && b.mapping@.len() <= 254
        }
}

/// First position of a column name among the headers, or the header count
/// when absent.
pub open spec fn str_pos(headers: Seq<String>, name: Seq<char>) -> int
    decreases headers.len(),
{
    if headers.len() == 0 {
        0
    } else if headers[0]@ == name {
        0
    } else {
        1 + str_pos(headers.drop_first(), name)
    }
}

/// Whether the name is present among the headers.
pub open spec fn located(headers: Seq<String>, name: Seq<char>) -> bool {
    str_pos(headers, name) < headers.len()
}

proof fn lemma_str_pos(headers: Seq<String>, name: Seq<char>, j: int)
    requires
        0 <= j <= headers.len(),
        forall|t: int| 0 <= t < j ==> (#[trigger] headers[t])@ != name,
        j < headers.len() ==> headers[j]@ == name,
    ensures
        str_pos(headers, name) == j,
    decreases headers.len(),
{
    if headers.len() == 0 {
    } else if headers[0]@ == name {
        assert(j == 0);
    } else {
        assert(forall|t: int|
            0 <= t < j - 1 ==> (#[trigger] headers.drop_first()[t])@ != name);
        lemma_str_pos(headers.drop_first(), name, j - 1);
    }
}

/// Whether the name occurs among the first `j` category names.
pub open spec fn str_in_to(cats: Seq<String>, name: Seq<char>, j: int) -> bool
    decreases j,
{
    if j <= 0 {
        false
    } else {
        str_in_to(cats, name, j - 1) || cats[j - 1]@ == name
    }
}

/// The order keys of one raw column.
pub open spec fn col_keys(arr: Seq<Vec<Option<RawValue>>>, p: int) -> Seq<Option<i64>> {
    Seq::new(
        arr.len(),
        |i: int|
            match arr[i]@[p] {
                Some(rv) => Some(rv.key),
                None => None,
            },
    )
}

/// The fixed-point value a numeric column yields for one row: the cell when
/// the column is present and the cell holds a value, the default otherwise.
pub open spec fn fix_at(
    arr: Seq<Vec<Option<RawValue>>>,
    headers: Seq<String>,
    name: Seq<char>,
    i: int,
    dflt: int,
) -> int {
    if located(headers, name) {
        match arr[i]@[str_pos(headers, name)] {
            Some(rv) => rv.fix as int,
            None => dflt,
        }
    } else {
        dflt
    }
}

/// Codes of a raw column under a continuous discretizer's map.
pub open spec fn cont_codes(b: ContinuousBin, col: Seq<Option<i64>>) -> Seq<Option<u8>> {
    Seq::new(
        col.len(),
        |i: int|
            match col[i] {
                Some(k) => Some(crate::bin::count_lt(b.threshold@, k) as u8),
                None => None,
            },
    )
}

/// Codes of a raw column under a categorical discretizer's map.
pub open spec fn disc_codes(b: DiscreteBin, col: Seq<Option<i64>>) -> Seq<Option<u8>> {
    Seq::new(
        col.len(),
        |i: int|
            match col[i] {
                Some(k) => Some(crate::bin::index_of_key(b.mapping@, k) as u8),
                None => None,
            },
    )
}

/// The largest code of a treatment column, zero when it is empty.
pub open spec fn max_code(s: Seq<u8>) -> int
    decreases s.len(),
{
    if s.len() == 0 {
        0
    } else {
        let m0 = max_code(s.drop_last());
        if s.last() as int > m0 {
            s.last() as int
        } else {
            m0
        }
    }
}

/// The named bad inputs on which loading fails: too many rows, a ragged
/// row, an absent feature column, a categorical feature already holding a
/// continuous discretizer, a response or weight out of the fixed-point
/// bounds, no treatment column, an absent treatment column, or a treatment
/// value that is negative or beyond the code capacity.
pub open spec fn load_reject(
    l: DataLoader,
    headers: Seq<String>,
    arr: Seq<Vec<Option<RawValue>>>,
) -> bool {
    let n_col = headers.len() as int;
    ||| arr.len() > MAX_ROWS
    ||| exists|i: int| 0 <= i < arr.len() && (#[trigger] arr[i])@.len() != n_col
    ||| exists|f: int|
        0 <= f < l.features@.len() && !located(headers, (#[trigger] l.features@[f])@)
    ||| exists|f: int|
        0 <= f < l.features@.len() && str_in_to(
            l.cats@,
            (#[trigger] l.features@[f])@,
            l.cats@.len() as int,
        ) && l.bins_cont@[f] is Some
    ||| exists|i: int|
        0 <= i < arr.len() && !(-MAX_RESPONSE <= #[trigger] fix_at(
            arr,
            headers,
            l.response@,
            i,
            0,
        ) <= MAX_RESPONSE)
    ||| l.treatments@.len() == 0
    ||| exists|t: int|
        0 <= t < l.treatments@.len() && !located(headers, (#[trigger] l.treatments@[t])@)
    ||| exists|t: int, i: int|
        0 <= t < l.treatments@.len() && 0 <= i < arr.len() && located(
            headers,
            l.treatments@[t]@,
        ) && {
            let v = #[trigger] fix_at(arr, headers, l.treatments@[t]@, i, 0);
            v < 0 || v / (SCALE as int) > 254
        }
    ||| exists|i: int|
        0 <= i < arr.len() && !(0 <= #[trigger] fix_at(
            arr,
            headers,
            l.weight@,
            i,
            SCALE as int,
        ) <= MAX_WEIGHT)
}

impl DataLoader {
    /// One discretizer slot per feature, and every discretizer inside the
    /// bounds its map step and the matrix invariant rely on.
    pub open spec fn wf(self) -> bool {
        &&& 1 <= self.n_bin < 255
        &&& self.bins_cont@.len() == self.features@.len()
        &&& self.bins_disc@.len() == self.features@.len()
        &&& forall|f: int|
            0 <= f < self.features@.len() && (#[trigger] self.bins_cont@[f]) is Some ==> {
                let b = self.bins_cont@[f].unwrap();
                b.threshold@.len() < b.n_bin && b.n_bin <= 255 && b.threshold@.len() <= 254
            }
        &&& forall|f: int|
            0 <= f < self.features@.len() && (#[trigger] self.bins_disc@[f]) is Some ==> {
                let b = self.bins_disc@[f].unwrap();
                b.mapping@.len() <= b.n_bin && b.n_bin <= 255 && b.mapping@.len() <= 254
            }
    }

    /// Assemble a loader, refusing a bin count the code type cannot hold
    /// and any preloaded discretizer outside the working bounds.
    pub fn new(
        features: Vec<String>,
        response: String,
        treatments: Vec<String>,
        weight: String,
        cats: Vec<String>,
        n_bin: usize,
        bins_cont: Vec<Option<ContinuousBin>>,
        bins_disc: Vec<Option<DiscreteBin>>,
    ) -> (r: Result<DataLoader, TreeError>)
        ensures
            r is Ok <==> loader_args_ok(features@, n_bin as int, bins_cont@, bins_disc@),
            r is Ok ==> r.unwrap().wf(),
            r is Ok ==> {
                let l = r.unwrap();
                &&& l.features == features
                &&& l.response == response
                &&& l.treatments == treatments
                &&& l.weight == weight
                &&& l.cats == cats
                &&& l.n_bin == n_bin
                &&& l.bins_cont == bins_cont
                &&& l.bins_disc == bins_disc
            },
    {
        if n_bin == 0 || n_bin >= 255 {
            return Err(TreeError::ConfigError);
        }
        if bins_cont.len() != features.len() || bins_disc.len() != features.len() {
            return Err(TreeError::InvariantError);
        }
        let nf = features.len();
        let mut f: usize = 0;
        while f < nf
            invariant
                1 <= n_bin < 255,
                nf == features@.len(),
                bins_cont@.len() == nf,
                bins_disc@.len() == nf,
                f <= nf,
                forall|t: int|
                    0 <= t < f && (#[trigger] bins_cont@[t]) is Some ==> {
                        let b = bins_cont@[t].unwrap();
                        b.threshold@.len() < b.n_bin && b.n_bin <= 255 && b.threshold@.len()
                            <= 254
                    },
                forall|t: int|
                    0 <= t < f && (#[trigger] bins_disc@[t]) is Some ==> {
                        let b = bins_disc@[t].unwrap();
                        b.mapping@.len() <= b.n_bin && b.n_bin <= 255 && b.mapping@.len() <= 254
                    },
            decreases nf - f,
        {
            match &bins_cont[f] {
                Some(b) => {
                    if !(b.threshold.len() < b.n_bin && b.n_bin <= 255 && b.threshold.len()
                        <= 254) {
                        return Err(TreeError::InvariantError);
                    }
                },
                None => (),
            }
            match &bins_disc[f] {
                Some(b) => {
                    if !(b.mapping.len() <= b.n_bin && b.n_bin <= 255 && b.mapping.len()
                        <= 254) {
                        return Err(TreeError::InvariantError);
                    }
                },
                None => (),
            }
            f = f + 1;
        }
        Ok(
            DataLoader {
                features,
                response,
                treatments,
                weight,
                cats,
                n_bin,
                bins_cont,
                bins_disc,
            },
        )
    }

    /// First position of one name among the headers, if present.
    fn find_pos_single(headers: &Vec<String>, fname: &String) -> (r: Option<usize>)
        ensures
            r is Some <==> located(headers@, fname@),
            r is Some ==> r.unwrap() < headers@.len() && r.unwrap() as int == str_pos(
                headers@,
                fname@,
            ),
    {
        let n = headers.len();
        let mut i: usize = 0;
        while i < n
            invariant
                n == headers@.len(),
                i <= n,
                forall|t: int| 0 <= t < i ==> (#[trigger] headers@[t])@ != fname@,
            decreases n - i,
        {
            if headers[i] == *fname {
                proof {
                    lemma_str_pos(headers@, fname@, i as int);
                }
                return Some(i);
            }
            i = i + 1;
        }
        proof {
            lemma_str_pos(headers@, fname@, n as int);
        }
        None
    }

    /// The per-feature bin counts of the fitted discretizers.
    pub fn get_bin_size(&self) -> (r: Vec<usize>)
        requires
            self.wf(),
        ensures
            r@.len() == self.features@.len(),
            forall|f: int|
                0 <= f < r@.len() ==> #[trigger] r@[f] == (if self.bins_cont@[f] is Some {
                    self.bins_cont@[f].unwrap().n_bin as int
                } else if self.bins_disc@[f] is Some {
                    self.bins_disc@[f].unwrap().n_bin as int
                } else {
                    0
                }),
            forall|f: int| 0 <= f < r@.len() ==> #[trigger] r@[f] <= 255,
    {
        let nf = self.features.len();
        let mut r: Vec<usize> = Vec::new();
        let mut f: usize = 0;
        while f < nf
            invariant
                self.wf(),
                nf == self.features@.len(),
                f <= nf,
                r@.len() == f,
                forall|t: int|
                    0 <= t < f ==> #[trigger] r@[t] == (if self.bins_cont@[t] is Some {
                        self.bins_cont@[t].unwrap().n_bin as int
                    } else if self.bins_disc@[t] is Some {
                        self.bins_disc@[t].unwrap().n_bin as int
                    } else {
                        0
                    }),
                forall|t: int| 0 <= t < f ==> #[trigger] r@[t] <= 255,
            decreases nf - f,
        {
            let v: usize = match &self.bins_cont[f] {
                Some(b) => b.n_bin,
                None => match &self.bins_disc[f] {
                    Some(b) => b.n_bin,
                    None => 0,
                },
            };
            r.push(v);
            f = f + 1;
        }
        r
    }

    /// Build a training matrix from raw rows: fit any missing discretizer
    /// on its column, map every feature to bin codes through its
    /// discretizer, and copy the response, treatment and weight columns
    /// with their defaults, rejecting exactly the named bad inputs.
    #[verifier::rlimit(100)]
    pub fn from_memory(
        &mut self,
        headers: &Vec<String>,
        indices: &Vec<Vec<String>>,
        arr: &Vec<Vec<Option<RawValue>>>,
    ) -> (r: Result<DMatrix, TreeError>)
        requires
            old(self).wf(),
            old(self).features@.len() >= 1,
        ensures
            final(self).wf(),
            final(self).features@ == old(self).features@,
            forall|f: int|
                0 <= f < old(self).features@.len() && old(self).bins_cont@[f] is Some
                    ==> #[trigger] final(self).bins_cont@[f] == old(self).bins_cont@[f],
            forall|f: int|
                0 <= f < old(self).features@.len() && old(self).bins_disc@[f] is Some
                    ==> #[trigger] final(self).bins_disc@[f] == old(self).bins_disc@[f],
            r is Err <==> load_reject(*old(self), headers@, arr@),
            r is Ok ==> ({
                let m = r.unwrap();
                let nf = old(self).features@.len() as int;
                let nr = arr@.len() as int;
                &&& m.wf()
                &&& m.rows() == nr
                &&& m.n_features() == nf
                &&& m.is_bool@.len() == nf
                &&& forall|f: int|
                    0 <= f < nf ==> #[trigger] m.is_bool@[f] == str_in_to(
                        old(self).cats@,
                        old(self).features@[f]@,
                        old(self).cats@.len() as int,
                    )
                &&& forall|f: int|
                    0 <= f < nf && m.is_bool@[f] ==> final(self).bins_disc@[f] is Some
                        && (#[trigger] m.feature@[f])@ == disc_codes(
                        final(self).bins_disc@[f].unwrap(),
                        col_keys(arr@, str_pos(headers@, old(self).features@[f]@)),
                    )
                &&& forall|f: int|
                    0 <= f < nf && !m.is_bool@[f] ==> final(self).bins_cont@[f] is Some
                        && (#[trigger] m.feature@[f])@ == cont_codes(
                        final(self).bins_cont@[f].unwrap(),
                        col_keys(arr@, str_pos(headers@, old(self).features@[f]@)),
                    )
                &&& forall|i: int|
                    0 <= i < nr ==> #[trigger] m.response@[i] as int == fix_at(
                        arr@,
                        headers@,
                        old(self).response@,
                        i,
                        0,
                    )
                &&& forall|i: int|
                    0 <= i < nr ==> #[trigger] m.weights@[i] as int == fix_at(
                        arr@,
                        headers@,
                        old(self).weight@,
                        i,
                        SCALE as int,
                    )
                &&& m.treatments@.len() == old(self).treatments@.len()
                &&& forall|t: int, i: int|
                    0 <= t < m.treatments@.len() && 0 <= i < nr
                        ==> (#[trigger] m.treatments@[t]@[i]) as int == fix_at(
                        arr@,
                        headers@,
                        old(self).treatments@[t]@,
                        i,
                        0,
                    ) / (SCALE as int)
                &&& forall|t: int|
                    0 <= t < m.treatments@.len() ==> #[trigger] m.treatment_size@[t] == max_code(
                        m.treatments@[t]@,
                    ) + 1
                &&& forall|f: int|
                    0 <= f < nf ==> #[trigger] m.bin_size@[f] == (
                    if final(self).bins_cont@[f] is Some {
                        final(self).bins_cont@[f].unwrap().n_bin as int
                    } else if final(self).bins_disc@[f] is Some {
                        final(self).bins_disc@[f].unwrap().n_bin as int
                    } else {
                        0
                    })
            }),
    {
        let n_rows = arr.len();
        if n_rows > MAX_ROWS {
            return Err(TreeError::InvariantError);
        }
        let n_col = headers.len();
        let mut ri: usize = 0;
        while ri < n_rows
            invariant
                self == old(self),
                old(self).wf(),
                n_rows == arr@.len(),
                n_col == headers@.len(),
                ri <= n_rows,
                forall|t: int| 0 <= t < ri ==> (#[trigger] arr@[t])@.len() == n_col,
            decreases n_rows - ri,
        {
            if arr[ri].len() != n_col {
                return Err(TreeError::SchemaError);
            }
            ri = ri + 1;
        }

        let nf = self.features.len();
        let mut is_bool: Vec<bool> = Vec::new();
        let mut f: usize = 0;
        while f < nf
            invariant
                self == old(self),
                old(self).wf(),
                nf == self.features@.len(),
                f <= nf,
                is_bool@.len() == f,
                forall|t: int|
                    0 <= t < f ==> #[trigger] is_bool@[t] == str_in_to(
                        old(self).cats@,
                        old(self).features@[t]@,
                        old(self).cats@.len() as int,
                    ),
            decreases nf - f,
        {
            let name = &self.features[f];
            let nc = self.cats.len();
            let mut isin = false;
            let mut c: usize = 0;
            while c < nc
                invariant
                    self == old(self),
                    nc == self.cats@.len(),
                    name == &self.features@[f as int],
                    f < self.features@.len(),
                    c <= nc,
                    isin == str_in_to(old(self).cats@, old(self).features@[f as int]@, c as int),
                decreases nc - c,
            {
                if self.cats[c] == *name {
                    isin = true;
                }
                c = c + 1;
            }
            is_bool.push(isin);
            f = f + 1;
        }

        // feature columns: fit where no discretizer exists yet, then map
        // through the (now stored) discretizer
        let mut feature: Vec<Vec<Option<u8>>> = Vec::new();
        let mut f: usize = 0;
        while f < nf
            invariant
                self.wf(),
                self.features@ == old(self).features@,
                self.cats@ == old(self).cats@,
                old(self).wf(),
                self.response@ == old(self).response@,
                self.treatments@ == old(self).treatments@,
                self.weight@ == old(self).weight@,
                forall|q: int|
                    f <= q < nf ==> #[trigger] self.bins_cont@[q] == old(self).bins_cont@[q],
                forall|q: int|
                    f <= q < nf ==> #[trigger] self.bins_disc@[q] == old(self).bins_disc@[q],
                forall|q: int|
                    0 <= q < self.features@.len() && old(self).bins_cont@[q] is Some
                        ==> #[trigger] self.bins_cont@[q] == old(self).bins_cont@[q],
                forall|q: int|
                    0 <= q < self.features@.len() && old(self).bins_disc@[q] is Some
                        ==> #[trigger] self.bins_disc@[q] == old(self).bins_disc@[q],
                nf == self.features@.len(),
                n_rows == arr@.len(),
                n_rows <= MAX_ROWS,
                n_col == headers@.len(),
                forall|t: int| 0 <= t < n_rows ==> (#[trigger] arr@[t])@.len() == n_col,
                is_bool@.len() == nf,
                forall|t: int|
                    0 <= t < nf ==> #[trigger] is_bool@[t] == str_in_to(
                        old(self).cats@,
                        old(self).features@[t]@,
                        old(self).cats@.len() as int,
                    ),
                f <= nf,
                feature@.len() == f,
                forall|t: int| 0 <= t < f ==> (#[trigger] feature@[t])@.len() == n_rows,
                forall|t: int|
                    0 <= t < f ==> located(headers@, (#[trigger] old(self).features@[t])@),
                forall|t: int|
                    0 <= t < f ==> !(str_in_to(
                        old(self).cats@,
                        (#[trigger] old(self).features@[t])@,
                        old(self).cats@.len() as int,
                    ) && old(self).bins_cont@[t] is Some),
                forall|t: int|
                    0 <= t < f && is_bool@[t] ==> (#[trigger] self.bins_disc@[t]) is Some
                        && feature@[t]@ == disc_codes(
                        self.bins_disc@[t].unwrap(),
                        col_keys(arr@, str_pos(headers@, old(self).features@[t]@)),
                    ),
                forall|t: int|
                    0 <= t < f && !is_bool@[t] ==> (#[trigger] self.bins_cont@[t]) is Some
                        && feature@[t]@ == cont_codes(
                        self.bins_cont@[t].unwrap(),
                        col_keys(arr@, str_pos(headers@, old(self).features@[t]@)),
                    ),
                forall|t: int, i: int|
                    0 <= t < f && 0 <= i < n_rows && (#[trigger] feature@[t]@[i]) is Some
                        ==> feature@[t]@[i].unwrap() <= 254 && (feature@[t]@[i]).unwrap() as int
                        <= (if self.bins_cont@[t] is Some {
                        self.bins_cont@[t].unwrap().n_bin as int
                    } else {
                        self.bins_disc@[t].unwrap().n_bin as int
                    }),
            decreases nf - f,
        {
            let pos = Self::find_pos_single(headers, &self.features[f]);
            let p = match pos {
                Some(v) => v,
                None => {
                    return Err(TreeError::SchemaError);
                },
            };
            // raw keys of this column
            let mut col: Vec<Option<i64>> = Vec::new();
            let mut i: usize = 0;
            while i < n_rows
                invariant
                    n_rows == arr@.len(),
                    forall|t: int| 0 <= t < n_rows ==> (#[trigger] arr@[t])@.len() == n_col,
                    p < n_col,
                    i <= n_rows,
                    col@.len() == i,
                    forall|q: int|
                        0 <= q < i ==> #[trigger] col@[q] == (match arr@[q]@[p as int] {
                            Some(rv) => Some(rv.key),
                            None => None::<i64>,
                        }),
                decreases n_rows - i,
            {
                let cell: Option<i64> = match &arr[i][p] {
                    Some(rv) => Some(rv.key),
                    None => None,
                };
                col.push(cell);
                i = i + 1;
            }
            proof {
                assert(col@ =~= col_keys(arr@, p as int));
            }

            let iscat = is_bool[f];
            let vt: Vec<Option<u8>>;
            if iscat {
                if self.bins_cont[f].is_some() {
                    return Err(TreeError::InvariantError);
                }
                let have = self.bins_disc[f].is_some();
                if !have {
                    let mut bin = DiscreteBin::new(self.n_bin);
                    bin.fit(&col);
                    self.bins_disc.set(f, Some(bin));
                }
                let b = match &self.bins_disc[f] {
                    Some(b) => b,
                    None => {
                        return Err(TreeError::InvariantError);
                    },
                };
                vt = b.map(&col);
                proof {
                    assert forall|i: int|
                        0 <= i < n_rows && (#[trigger] vt@[i]) is Some implies vt@[i].unwrap()
                        <= 254 && vt@[i].unwrap() as int <= b.n_bin as int by {
                        crate::bin::lemma_index_of_key_range(b.mapping@, ((col@[i]).unwrap()));
                    }
                    assert(vt@ =~= disc_codes(*b, col@));
                }
            } else {
                let have = self.bins_cont[f].is_some();
                if !have {
                    let mut bin = ContinuousBin::new(self.n_bin, None);
                    bin.fit(&col);
                    self.bins_cont.set(f, Some(bin));
                }
                let b = match &self.bins_cont[f] {
                    Some(b) => b,
                    None => {
                        return Err(TreeError::InvariantError);
                    },
                };
                vt = b.map(&col);
                proof {
                    assert forall|i: int|
                        0 <= i < n_rows && (#[trigger] vt@[i]) is Some implies vt@[i].unwrap()
                        <= 254 && vt@[i].unwrap() as int <= b.n_bin as int by {
                        crate::bin::lemma_count_lt_range(b.threshold@, ((col@[i]).unwrap()));
                    }
                    assert(vt@ =~= cont_codes(*b, col@));
                }
            }
            feature.push(vt);
            f = f + 1;
        }

        // response column: absent values and an absent column read as zero
        let response_pos = Self::find_pos_single(headers, &self.response);
        let mut response: Vec<i64> = Vec::new();
        let mut i: usize = 0;
        while i < n_rows
            invariant
                self.wf(),
                self.features@ == old(self).features@,
                forall|q: int|
                    0 <= q < self.features@.len() && old(self).bins_cont@[q] is Some
                        ==> #[trigger] self.bins_cont@[q] == old(self).bins_cont@[q],
                forall|q: int|
                    0 <= q < self.features@.len() && old(self).bins_disc@[q] is Some
                        ==> #[trigger] self.bins_disc@[q] == old(self).bins_disc@[q],
                self.treatments@ == old(self).treatments@,
                self.weight@ == old(self).weight@,
                n_rows == arr@.len(),
                n_col == headers@.len(),
                forall|t: int| 0 <= t < n_rows ==> (#[trigger] arr@[t])@.len() == n_col,
                match response_pos {
                    Some(p) => p < n_col && located(headers@, old(self).response@) && p as int
                        == str_pos(headers@, old(self).response@),
                    None => !located(headers@, old(self).response@),
                },
                i <= n_rows,
                response@.len() == i,
                forall|t: int|
                    0 <= t < i ==> #[trigger] response@[t] as int == fix_at(
                        arr@,
                        headers@,
                        old(self).response@,
                        t,
                        0,
                    ),
                forall|t: int|
                    0 <= t < i ==> -MAX_RESPONSE <= #[trigger] response@[t] <= MAX_RESPONSE,
            decreases n_rows - i,
        {
            let y: i64 = match response_pos {
                Some(p) => match &arr[i][p] {
                    Some(rv) => rv.fix,
                    None => 0,
                },
                None => 0,
            };
            if y < -MAX_RESPONSE || y > MAX_RESPONSE {
                proof {
                    assert(fix_at(arr@, headers@, old(self).response@, i as int, 0) == y as int);
                }
                return Err(TreeError::InvariantError);
            }
            response.push(y);
            i = i + 1;
        }

        // treatment columns: integral codes below the group cap
        let nt = self.treatments.len();
        if nt == 0 {
            return Err(TreeError::SchemaError);
        }
        let mut treatments: Vec<Vec<u8>> = Vec::new();
        let mut treatment_size: Vec<usize> = Vec::new();
        let mut t: usize = 0;
        while t < nt
            invariant
                self.wf(),
                self.features@ == old(self).features@,
                self.treatments@ == old(self).treatments@,
                forall|q: int|
                    0 <= q < self.features@.len() && old(self).bins_cont@[q] is Some
                        ==> #[trigger] self.bins_cont@[q] == old(self).bins_cont@[q],
                forall|q: int|
                    0 <= q < self.features@.len() && old(self).bins_disc@[q] is Some
                        ==> #[trigger] self.bins_disc@[q] == old(self).bins_disc@[q],
                self.weight@ == old(self).weight@,
                nt == self.treatments@.len(),
                n_rows == arr@.len(),
                n_col == headers@.len(),
                forall|q: int| 0 <= q < n_rows ==> (#[trigger] arr@[q])@.len() == n_col,
                t <= nt,
                treatments@.len() == t,
                treatment_size@.len() == t,
                forall|q: int| 0 <= q < t ==> (#[trigger] treatments@[q])@.len() == n_rows,
                forall|q: int|
                    0 <= q < t ==> 1 <= #[trigger] treatment_size@[q] <= 255,
                forall|q: int, i2: int|
                    0 <= q < t && 0 <= i2 < n_rows ==> ((#[trigger] treatments@[q]@[i2]) as int)
                        < treatment_size@[q],
                forall|q: int|
                    0 <= q < t ==> located(headers@, (#[trigger] old(self).treatments@[q])@),
                forall|q: int, i2: int|
                    0 <= q < t && 0 <= i2 < n_rows ==> (#[trigger] treatments@[q]@[i2]) as int
                        == fix_at(arr@, headers@, old(self).treatments@[q]@, i2, 0) / (
                    SCALE as int),
                forall|q: int, i2: int|
                    0 <= q < t && 0 <= i2 < n_rows ==> 0 <= #[trigger] fix_at(
                        arr@,
                        headers@,
                        old(self).treatments@[q]@,
                        i2,
                        0,
                    ) && fix_at(arr@, headers@, old(self).treatments@[q]@, i2, 0) / (
                    SCALE as int) <= 254,
                forall|q: int|
                    0 <= q < t ==> #[trigger] treatment_size@[q] == max_code(treatments@[q]@)
                        + 1,
            decreases nt - t,
        {
            let pos = Self::find_pos_single(headers, &self.treatments[t]);
            let p = match pos {
                Some(v) => v,
                None => {
                    return Err(TreeError::SchemaError);
                },
            };
            let mut codes: Vec<u8> = Vec::new();
            let mut maxc: u8 = 0;
            let mut i2: usize = 0;
            while i2 < n_rows
                invariant
                    self.wf(),
                    self.features@ == old(self).features@,
                    forall|q: int|
                        0 <= q < self.features@.len() && old(self).bins_cont@[q] is Some
                            ==> #[trigger] self.bins_cont@[q] == old(self).bins_cont@[q],
                    forall|q: int|
                        0 <= q < self.features@.len() && old(self).bins_disc@[q] is Some
                            ==> #[trigger] self.bins_disc@[q] == old(self).bins_disc@[q],
                    self.treatments@ == old(self).treatments@,
                    t < self.treatments@.len(),
                    n_rows == arr@.len(),
                    n_col == headers@.len(),
                    forall|q: int| 0 <= q < n_rows ==> (#[trigger] arr@[q])@.len() == n_col,
                    p < n_col,
                    located(headers@, old(self).treatments@[t as int]@),
                    p as int == str_pos(headers@, old(self).treatments@[t as int]@),
                    i2 <= n_rows,
                    codes@.len() == i2,
                    maxc <= 254,
                    maxc as int == max_code(codes@),
                    forall|q: int| 0 <= q < i2 ==> #[trigger] codes@[q] <= maxc,
                    forall|q: int|
                        0 <= q < i2 ==> (#[trigger] codes@[q]) as int == fix_at(
                            arr@,
                            headers@,
                            old(self).treatments@[t as int]@,
                            q,
                            0,
                        ) / (SCALE as int),
                    forall|q: int|
                        0 <= q < i2 ==> 0 <= #[trigger] fix_at(
                            arr@,
                            headers@,
                            old(self).treatments@[t as int]@,
                            q,
                            0,
                        ) && fix_at(arr@, headers@, old(self).treatments@[t as int]@, q, 0) / (
                        SCALE as int) <= 254,
                decreases n_rows - i2,
            {
                let v: i64 = match &arr[i2][p] {
                    Some(rv) => rv.fix,
                    None => 0,
                };
                if v < 0 {
                    proof {
                        assert(fix_at(arr@, headers@, old(self).treatments@[t as int]@, i2 as int, 0)
                            == v as int);
                    }
                    return Err(TreeError::InvariantError);
                }
                let q64: u64 = (v as u64) / (SCALE as u64);
                if q64 > 254 {
                    proof {
                        assert(fix_at(arr@, headers@, old(self).treatments@[t as int]@, i2 as int, 0)
                            == v as int);
                    }
                    return Err(TreeError::InvariantError);
                }
                let code: u8 = q64 as u8;
                proof {
                    assert(codes@.push(code).drop_last() =~= codes@);
                }
                if code > maxc {
                    maxc = code;
                }
                codes.push(code);
                i2 = i2 + 1;
            }
            let size: usize = (maxc as usize) + 1;
            treatments.push(codes);
            treatment_size.push(size);
            t = t + 1;
        }

        // weights: fixed-point, one when the column is absent
        let weight_pos = Self::find_pos_single(headers, &self.weight);
        let mut weights: Vec<i64> = Vec::new();
        let mut i3: usize = 0;
        while i3 < n_rows
            invariant
                self.wf(),
                self.features@ == old(self).features@,
                forall|q: int|
                    0 <= q < self.features@.len() && old(self).bins_cont@[q] is Some
                        ==> #[trigger] self.bins_cont@[q] == old(self).bins_cont@[q],
                forall|q: int|
                    0 <= q < self.features@.len() && old(self).bins_disc@[q] is Some
                        ==> #[trigger] self.bins_disc@[q] == old(self).bins_disc@[q],
                n_rows == arr@.len(),
                n_col == headers@.len(),
                forall|q: int| 0 <= q < n_rows ==> (#[trigger] arr@[q])@.len() == n_col,
                match weight_pos {
                    Some(p) => p < n_col && located(headers@, old(self).weight@) && p as int
                        == str_pos(headers@, old(self).weight@),
                    None => !located(headers@, old(self).weight@),
                },
                i3 <= n_rows,
                weights@.len() == i3,
                forall|q: int|
                    0 <= q < i3 ==> #[trigger] weights@[q] as int == fix_at(
                        arr@,
                        headers@,
                        old(self).weight@,
                        q,
                        SCALE as int,
                    ),
                forall|q: int| 0 <= q < i3 ==> 0 <= #[trigger] weights@[q] <= MAX_WEIGHT,
            decreases n_rows - i3,
        {
            let w: i64 = match weight_pos {
                Some(p) => match &arr[i3][p] {
                    Some(rv) => rv.fix,
                    None => SCALE,
                },
                None => SCALE,
            };
            if w < 0 || w > MAX_WEIGHT {
                proof {
                    assert(fix_at(arr@, headers@, old(self).weight@, i3 as int, SCALE as int)
                        == w as int);
                }
                return Err(TreeError::InvariantError);
            }
            weights.push(w);
            i3 = i3 + 1;
        }

        // one name vector and the per-feature bin counts
        let mut name: Vec<String> = Vec::new();
        let mut f2: usize = 0;
        while f2 < nf
            invariant
                self.wf(),
                self.features@ == old(self).features@,
                forall|q: int|
                    0 <= q < self.features@.len() && old(self).bins_cont@[q] is Some
                        ==> #[trigger] self.bins_cont@[q] == old(self).bins_cont@[q],
                forall|q: int|
                    0 <= q < self.features@.len() && old(self).bins_disc@[q] is Some
                        ==> #[trigger] self.bins_disc@[q] == old(self).bins_disc@[q],
                nf == self.features@.len(),
                f2 <= nf,
                name@.len() == f2,
            decreases nf - f2,
        {
            let s = self.features[f2].clone();
            name.push(s);
            f2 = f2 + 1;
        }
        let bin_size = self.get_bin_size();

        let mut own_indices: Vec<Vec<String>> = Vec::new();
        let ni = indices.len();
        let mut i4: usize = 0;
        while i4 < ni
            invariant
                self.wf(),
                self.features@ == old(self).features@,
                forall|q: int|
                    0 <= q < self.features@.len() && old(self).bins_cont@[q] is Some
                        ==> #[trigger] self.bins_cont@[q] == old(self).bins_cont@[q],
                forall|q: int|
                    0 <= q < self.features@.len() && old(self).bins_disc@[q] is Some
                        ==> #[trigger] self.bins_disc@[q] == old(self).bins_disc@[q],
                ni == indices@.len(),
                i4 <= ni,
            decreases ni - i4,
        {
            own_indices.push(Vec::new());
            i4 = i4 + 1;
        }

        let m = DMatrix::new(
            own_indices,
            feature,
            response,
            treatments,
            weights,
            is_bool,
            name,
            bin_size,
            treatment_size,
        );
        proof {
            assert forall|ff: int, ii: int|
                0 <= ff < m.n_features() && 0 <= ii < m.rows() && m.feature@[ff]@[ii] is Some
                implies (#[trigger] m.feature@[ff]@[ii]).unwrap() <= m.bin_size@[ff] && (
            m.feature@[ff]@[ii]).unwrap() <= 254 by {}
            assert forall|i: int|
                0 <= i < arr@.len() implies -MAX_RESPONSE <= #[trigger] fix_at(
                arr@,
                headers@,
                old(self).response@,
                i,
                0,
            ) <= MAX_RESPONSE by {
                assert(m.response@[i] as int == fix_at(arr@, headers@, old(self).response@, i, 0));
            }
            assert forall|i: int|
                0 <= i < arr@.len() implies 0 <= #[trigger] fix_at(
                arr@,
                headers@,
                old(self).weight@,
                i,
                SCALE as int,
            ) <= MAX_WEIGHT by {
                assert(m.weights@[i] as int == fix_at(
                    arr@,
                    headers@,
                    old(self).weight@,
                    i,
                    SCALE as int,
                ));
            }
            assert(!load_reject(*old(self), headers@, arr@));
        }
        Ok(m)
    }
}


} // verus!
