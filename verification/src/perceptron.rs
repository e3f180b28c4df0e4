//! The binary perceptron: one weight vector (plus an always-zero bias term)
//! with mistake-driven online training over normalized feature matrices.
use vstd::prelude::*;
use crate::matrix::Matrix;
use crate::matrix::all_ge_before;
use crate::matrix::all_le_before;
use crate::matrix::degenerate;
use crate::matrix::entry_before;
use crate::matrix::has_before;
use crate::matrix::lemma_norm_unit;
use crate::matrix::lemma_scan_done;
use crate::matrix::lemma_scan_entry;
use crate::matrix::lemma_scan_row_step;
use crate::matrix::mat_hi;
use crate::matrix::mat_lo;
use crate::matrix::norm_den;
use crate::matrix::norm_entry;
use crate::matrix::norm_rows;
use crate::matrix::row_ints;
use crate::rat::Ratio;
use crate::ClassifierError;
use crate::DIM_LIMIT;
use crate::VAL_LIMIT;
use crate::WDEN_LIMIT;
use crate::WEIGHT_LIMIT;

verus! {

/// Relabels a multi-class label vector against one target class: 1 where
/// the label equals `class`, 0 everywhere else.
pub open spec fn relabel(labels: Seq<u8>, class: u8) -> Seq<u8> {
    labels.map(|i: int, x: u8| if x == class {
        1u8
    } else {
        0u8
    })
}

/// Derives the binary labels for a one-vs-rest training run: entries equal
/// to `class` become 1, all others become 0.
pub fn correct_labels(labels: &Vec<u8>, class: u8) -> (r: Vec<u8>)
    ensures
        r@ == relabel(labels@, class),
{
    let mut r: Vec<u8> = Vec::new();
    let mut i: usize = 0;
    while i < labels.len()
        invariant
            0 <= i <= labels@.len(),
            r@.len() == i,
            forall|k: int| 0 <= k < i ==> #[trigger] r@[k] == relabel(labels@, class)[k],
        decreases labels@.len() - i,
    {
        if labels[i] == class {
            r.push(1);
        } else {
            r.push(0);
        }
        i += 1;
    }
    proof {
        assert(r@ =~= relabel(labels@, class));
    }
    r
}

// ---------------------------------------------------------------------
// The score: a dot product over integer numerators
// ---------------------------------------------------------------------

/// Sum of `w[t] * r[t]` over the first `k` coordinates.
pub open spec fn dot_prefix(w: Seq<int>, r: Seq<int>, k: int) -> int
    decreases k,
{
    if k <= 0 {
        0
    } else {
        dot_prefix(w, r, k - 1) + w[k - 1] * r[k - 1]
    }
}

/// The full dot product of a weight vector with a sample row.
pub open spec fn dot(w: Seq<int>, r: Seq<int>) -> int {
    dot_prefix(w, r, w.len() as int)
}

/// A dot product of coordinate-wise bounded vectors is bounded by
/// `k * wb * rb`.
pub proof fn lemma_dot_prefix_bound(w: Seq<int>, r: Seq<int>, k: int, wb: int, rb: int)
    requires
        0 <= k <= w.len(),
        k <= r.len(),
        wb >= 0,
        rb >= 0,
        forall|t: int| 0 <= t < k ==> -wb <= #[trigger] w[t] <= wb,
        forall|t: int| 0 <= t < k ==> -rb <= #[trigger] r[t] <= rb,
    ensures
        -(k * wb * rb) <= dot_prefix(w, r, k) <= k * wb * rb,
    decreases k,
{
    if k > 0 {
        lemma_dot_prefix_bound(w, r, k - 1, wb, rb);
        assert(-(wb * rb) <= w[k - 1] * r[k - 1] <= wb * rb) by (nonlinear_arith)
            requires
                -wb <= w[k - 1] <= wb,
                -rb <= r[k - 1] <= rb,
                wb >= 0,
                rb >= 0,
        ;
        assert((k - 1) * wb * rb + wb * rb == k * wb * rb) by (nonlinear_arith);
    }
}

/// The label a weight vector assigns to a row: 1 exactly when the score
/// is positive.  (The bias numerator is zero throughout the library, so
/// the sign of the dot product is the sign of the score.)
pub open spec fn label_of(w: Seq<int>, row: Seq<int>) -> u8 {
    if dot(w, row) > 0 {
        1u8
    } else {
        0u8
    }
}

/// How many of the first `k` rows the weight vector labels exactly as the
/// label vector says.
pub open spec fn count_correct(w: Seq<int>, rows: Seq<Seq<int>>, labels: Seq<u8>, k: int) -> int
    decreases k,
{
    if k <= 0 {
        0
    } else {
        count_correct(w, rows, labels, k - 1) + if label_of(w, rows[k - 1]) == labels[k - 1] {
            1int
        } else {
            0int
        }
    }
}

/// The number of correctly labelled rows lies between 0 and `k`.
pub proof fn lemma_count_correct_bounds(w: Seq<int>, rows: Seq<Seq<int>>, labels: Seq<u8>, k: int)
    requires
        k >= 0,
    ensures
        0 <= count_correct(w, rows, labels, k) <= k,
    decreases k,
{
    if k > 0 {
        lemma_count_correct_bounds(w, rows, labels, k - 1);
    }
}

// ---------------------------------------------------------------------
// The training rule, as pure functions of the numerators
// ---------------------------------------------------------------------

/// Magnitude of an integer.
pub open spec fn iabs(x: int) -> int {
    if x < 0 {
        -x
    } else {
        x
    }
}

/// Every numerator multiplied by `d` (how weights are rebased onto a new
/// common denominator).
pub open spec fn scale_seq(w: Seq<int>, d: int) -> Seq<int> {
    Seq::new(w.len(), |t: int| d * w[t])
}

/// One online update.  The weights are numerators over `L = wden * d`, the
/// row's are numerators over `d`, so adding the row means adding `c * row`
/// with `c = wden`.  A false negative adds the sample, a false positive
/// subtracts it, and a correct prediction leaves the weights alone.
pub open spec fn step_update(w: Seq<int>, row: Seq<int>, lab: u8, c: int) -> Seq<int> {
    let pred: int = if dot(w, row) > 0 {
        1
    } else {
        0
    };
    if lab == 1 && pred == 0 {
        Seq::new(w.len(), |t: int| w[t] + c * row[t])
    } else if lab == 0 && pred == 1 {
        Seq::new(w.len(), |t: int| w[t] - c * row[t])
    } else {
        w
    }
}

/// The weights after visiting the first `k` samples of one epoch, in the
/// matrix's given row order.
pub open spec fn epoch_prefix(
    w0: Seq<int>,
    rows: Seq<Seq<int>>,
    labels: Seq<u8>,
    c: int,
    k: int,
) -> Seq<int>
    decreases k,
{
    if k <= 0 {
        w0
    } else {
        step_update(epoch_prefix(w0, rows, labels, c, k - 1), rows[k - 1], labels[k - 1], c)
    }
}

/// The weights after one full epoch.
pub open spec fn epoch(w0: Seq<int>, rows: Seq<Seq<int>>, labels: Seq<u8>, c: int) -> Seq<int> {
    epoch_prefix(w0, rows, labels, c, rows.len() as int)
}

/// The weights after up to `n` epochs, stopping early as soon as an epoch
/// leaves the weights unchanged (a fixed point).
pub open spec fn train_epochs(
    w0: Seq<int>,
    rows: Seq<Seq<int>>,
    labels: Seq<u8>,
    c: int,
    n: nat,
) -> Seq<int>
    decreases n,
{
    if n == 0 {
        w0
    } else {
        let w1 = epoch(w0, rows, labels, c);
        if w1 == w0 {
            w0
        } else {
            train_epochs(w1, rows, labels, c, (n - 1) as nat)
        }
    }
}

/// Training never exceeds its epoch budget, and a fixed point ends it: if
/// the weights reached after `k` epochs are unchanged by a further epoch,
/// then every budget of `k` or more epochs trains to exactly those
/// weights.
pub proof fn lemma_fixed_point_stops(
    w0: Seq<int>,
    rows: Seq<Seq<int>>,
    labels: Seq<u8>,
    c: int,
    k: nat,
    n: nat,
)
    requires
        k <= n,
        epoch(train_epochs(w0, rows, labels, c, k), rows, labels, c) == train_epochs(
            w0,
            rows,
            labels,
            c,
            k,
        ),
    ensures
        train_epochs(w0, rows, labels, c, n) == train_epochs(w0, rows, labels, c, k),
    decreases k,
{
    let w1 = epoch(w0, rows, labels, c);
    if k == 0 {
        assert(w1 == w0);
        if n > 0 {
            assert(train_epochs(w0, rows, labels, c, n) == w0);
        }
    } else {
        if w1 == w0 {
            assert(train_epochs(w0, rows, labels, c, k) == w0);
            assert(train_epochs(w0, rows, labels, c, n) == w0);
        } else {
            assert(train_epochs(w0, rows, labels, c, k) == train_epochs(
                w1,
                rows,
                labels,
                c,
                (k - 1) as nat,
            ));
            assert(train_epochs(w0, rows, labels, c, n) == train_epochs(
                w1,
                rows,
                labels,
                c,
                (n - 1) as nat,
            ));
            lemma_fixed_point_stops(w1, rows, labels, c, (k - 1) as nat, (n - 1) as nat);
        }
    }
}

/// An owned snapshot of a weight vector (taken before each epoch so the
/// fixed-point test can compare against it).
fn copy_weights(v: &Vec<i64>) -> (r: Vec<i64>)
    ensures
        r@ == v@,
{
    let mut r: Vec<i64> = Vec::new();
    let mut i: usize = 0;
    while i < v.len()
        invariant
            0 <= i <= v@.len(),
            r@.len() == i,
            forall|k: int| 0 <= k < i ==> #[trigger] r@[k] == v@[k],
        decreases v@.len() - i,
    {
        r.push(v[i]);
        i += 1;
    }
    proof {
        assert(r@ =~= v@);
    }
    r
}

/// Element-wise equality of two weight vectors.
fn same_weights(a: &Vec<i64>, b: &Vec<i64>) -> (r: bool)
    ensures
        r == (a@ == b@),
{
    if a.len() != b.len() {
        return false;
    }
    let mut i: usize = 0;
    while i < a.len()
        invariant
            0 <= i <= a@.len(),
            a@.len() == b@.len(),
            forall|k: int| 0 <= k < i ==> #[trigger] a@[k] == b@[k],
        decreases a@.len() - i,
    {
        if a[i] != b[i] {
            proof {
                assert(a@[i as int] != b@[i as int]);
            }
            return false;
        }
        i += 1;
    }
    proof {
        assert(a@ =~= b@);
    }
    true
}

// ---------------------------------------------------------------------
// The perceptron
// ---------------------------------------------------------------------

/// State of the binary classifier: a weight vector of exact rationals
/// (numerators over one shared denominator `wden`) and a bias numerator
/// that the training rule never changes from zero.
pub struct Perceptron {
    pub weights: Vec<i64>,
    pub bias: i64,
    pub wden: i64,
}

impl Perceptron {
    /// The weight numerators as mathematical integers.
    pub open spec fn w_ints(self) -> Seq<int> {
        row_ints(self.weights@)
    }

    /// Well-formed: bounded weights over a bounded positive denominator,
    /// and the bias numerator still at its initial zero.
    pub open spec fn wf(self) -> bool {
        &&& self.weights@.len() <= DIM_LIMIT
        &&& 1 <= self.wden <= WDEN_LIMIT
        &&& self.bias == 0
        &&& forall|j: int|
            0 <= j < self.weights@.len() ==> -WEIGHT_LIMIT <= #[trigger] self.weights@[j]
                <= WEIGHT_LIMIT
    }

    /// A fresh classifier: all weights zero, denominator 1, bias zero.
    pub fn new(num_features: usize) -> (r: Perceptron)
        requires
            num_features <= DIM_LIMIT,
        ensures
            r.wf(),
            r.weights@.len() == num_features,
            forall|j: int| 0 <= j < num_features ==> #[trigger] r.weights@[j] == 0,
            r.wden == 1,
            r.bias == 0,
    {
        let mut weights: Vec<i64> = Vec::new();
        let mut j: usize = 0;
        while j < num_features
            invariant
                0 <= j <= num_features,
                weights@.len() == j,
                forall|k: int| 0 <= k < j ==> #[trigger] weights@[k] == 0,
            decreases num_features - j,
        {
            weights.push(0);
            j += 1;
        }
        Perceptron { weights, bias: 0, wden: 1 }
    }

    /// Rescales a feature matrix into the unit interval with one global
    /// minimum and maximum taken over every entry of the whole matrix:
    /// each output value is exactly `(v - lo) / (hi - lo)`.  A matrix
    /// without spread (empty, or all entries equal) maps to all zeros.
    /// The input is not mutated.
    pub fn normalize(data: &Matrix) -> (r: Matrix)
        requires
            data.wf(),
        ensures
            r.wf(),
            r.unit_range(),
            r.den as int == norm_den(data.nums()),
            r.nums() == norm_rows(data.nums()),
            r.rows@.len() == data.rows@.len(),
            forall|i: int|
                0 <= i < data.rows@.len() ==> #[trigger] r.nums()[i].len()
                    == data.nums()[i].len(),
    {
        let ghost nums = data.nums();
        let nrows: usize = data.rows.len();
        let mut found: bool = false;
        let mut lo_c: i64 = 0;
        let mut hi_c: i64 = 0;
        let mut i: usize = 0;
        while i < nrows
            invariant
                data.wf(),
                nums == data.nums(),
                nrows == data.rows@.len(),
                0 <= i <= nrows,
                found == has_before(nums, i as int, 0),
                found ==> entry_before(nums, i as int, 0, lo_c as int) && all_ge_before(
                    nums,
                    i as int,
                    0,
                    lo_c as int,
                ) && entry_before(nums, i as int, 0, hi_c as int) && all_le_before(
                    nums,
                    i as int,
                    0,
                    hi_c as int,
                ),
            decreases nrows - i,
        {
            let row: &Vec<i64> = &data.rows[i];
            let rlen: usize = row.len();
            proof {
                assert(nums[i as int].len() == rlen as int);
            }
            let mut j: usize = 0;
            while j < rlen
                invariant
                    data.wf(),
                    nums == data.nums(),
                    nrows == data.rows@.len(),
                    0 <= i < nrows,
                    row@ == data.rows@[i as int]@,
                    rlen == nums[i as int].len(),
                    0 <= j <= rlen,
                    found == has_before(nums, i as int, j as int),
                    found ==> entry_before(nums, i as int, j as int, lo_c as int)
                        && all_ge_before(nums, i as int, j as int, lo_c as int) && entry_before(
                        nums,
                        i as int,
                        j as int,
                        hi_c as int,
                    ) && all_le_before(nums, i as int, j as int, hi_c as int),
                decreases rlen - j,
            {
                let v: i64 = row[j];
                proof {
                    assert(nums[i as int][j as int] == v as int);
                }
                let ghost old_lo = lo_c as int;
                let ghost old_hi = hi_c as int;
                let ghost was_found = found;
                if !found {
                    found = true;
                    lo_c = v;
                    hi_c = v;
                } else {
                    if v < lo_c {
                        lo_c = v;
                    }
                    if v > hi_c {
                        hi_c = v;
                    }
                }
                proof {
                    lemma_scan_entry(
                        nums,
                        i as int,
                        j as int,
                        old_lo,
                        old_hi,
                        lo_c as int,
                        hi_c as int,
                        was_found,
                    );
                }
                j += 1;
            }
            proof {
                lemma_scan_row_step(nums, i as int, lo_c as int, hi_c as int, found);
            }
            i += 1;
        }
        proof {
            lemma_scan_done(nums, lo_c as int, hi_c as int, found);
        }
        let deg: bool = !found || lo_c == hi_c;
        proof {
            assert(deg == degenerate(nums));
            if !deg {
                assert(mat_lo(nums) == lo_c as int && mat_hi(nums) == hi_c as int);
                assert(0 <= lo_c as int && hi_c as int <= VAL_LIMIT as int) by {
                    let (a, b) = choose|a: int, b: int|
                        0 <= a < nums.len() && 0 <= b < nums[a].len() && #[trigger] nums[a][b]
                            == lo_c as int;
                    let (c, d) = choose|a: int, b: int|
                        0 <= a < nums.len() && 0 <= b < nums[a].len() && #[trigger] nums[a][b]
                            == hi_c as int;
                    assert(0 <= nums[a][b] <= VAL_LIMIT as int);
                    assert(0 <= nums[c][d] <= VAL_LIMIT as int);
                }
            }
        }
        let den_out: i64 = if deg {
            1
        } else {
            hi_c - lo_c
        };
        let mut out: Vec<Vec<i64>> = Vec::new();
        let mut i: usize = 0;
        while i < nrows
            invariant
                data.wf(),
                nums == data.nums(),
                nrows == data.rows@.len(),
                0 <= i <= nrows,
                deg == degenerate(nums),
                !deg ==> mat_lo(nums) == lo_c as int && lo_c <= hi_c,
                !deg ==> 0 <= lo_c,
                out@.len() == i,
                forall|a: int|
                    0 <= a < i ==> #[trigger] out@[a]@.len() == nums[a].len(),
                forall|a: int, b: int|
                    0 <= a < i && 0 <= b < nums[a].len() ==> #[trigger] out@[a]@[b] as int
                        == norm_entry(nums, nums[a][b]),
            decreases nrows - i,
        {
            let row: &Vec<i64> = &data.rows[i];
            let rlen: usize = row.len();
            proof {
                assert(nums[i as int].len() == rlen as int);
            }
            let mut orow: Vec<i64> = Vec::new();
            let mut j: usize = 0;
            while j < rlen
                invariant
                    data.wf(),
                    nums == data.nums(),
                    0 <= i < nrows,
                    nrows == data.rows@.len(),
                    row@ == data.rows@[i as int]@,
                    rlen == nums[i as int].len(),
                    deg == degenerate(nums),
                    !deg ==> mat_lo(nums) == lo_c as int && lo_c <= hi_c,
                    !deg ==> 0 <= lo_c,
                    0 <= j <= rlen,
                    orow@.len() == j,
                    forall|b: int|
                        0 <= b < j ==> #[trigger] orow@[b] as int == norm_entry(
                            nums,
                            nums[i as int][b],
                        ),
                decreases rlen - j,
            {
                let v: i64 = row[j];
                proof {
                    assert(nums[i as int][j as int] == v as int);
                    assert(0 <= v as int <= VAL_LIMIT as int);
                }
                if deg {
                    orow.push(0);
                } else {
                    orow.push(v - lo_c);
                }
                j += 1;
            }
            out.push(orow);
            i += 1;
        }
        let r = Matrix { rows: out, den: den_out };
        proof {
            lemma_norm_unit(nums);
            assert forall|a: int| 0 <= a < nrows as int implies #[trigger] r.nums()[a].len()
                == nums[a].len() by {
                assert(r.nums()[a].len() == r.rows@[a]@.len());
            }
            assert forall|a: int, b: int|
                0 <= a < nrows as int && 0 <= b < nums[a].len() implies #[trigger] r.nums()[a][b]
                == norm_rows(nums)[a][b] by {
                assert(r.nums()[a][b] == r.rows@[a]@[b] as int);
                assert(r.rows@[a]@[b] as int == norm_entry(nums, nums[a][b]));
                assert(norm_rows(nums)[a][b] == norm_entry(nums, nums[a][b]));
            }
            assert(r.nums() =~~= norm_rows(nums));
            assert(r.den as int == norm_den(nums));
            assert forall|a: int, b: int|
                0 <= a < r.nums().len() && 0 <= b < r.nums()[a].len() implies 0
                    <= #[trigger] r.nums()[a][b] <= r.den as int by {
                assert(r.nums()[a][b] == norm_rows(nums)[a][b]);
            }
            assert(crate::matrix::rect(r.nums())) by {
                assert forall|a: int| 0 <= a < r.nums().len() implies #[trigger] r.nums()[a].len()
                    == r.nums()[0].len() by {
                    assert(r.nums()[a].len() == nums[a].len());
                    assert(nums[a].len() == nums[0].len());
                }
            }
            assert(crate::matrix::limits_ok(r.nums(), r.den as int));
        }
        r
    }

    /// The training budget fits the machine limits: rebasing the weights
    /// onto the new common denominator and applying every possible update
    /// keeps all numerators inside `WEIGHT_LIMIT`, and the denominator
    /// inside `WDEN_LIMIT`, whatever spread the matrix turns out to have.
    pub open spec fn can_train(self, n_rows: int, n_iter: int) -> bool {
        &&& self.wden * VAL_LIMIT <= WDEN_LIMIT
        &&& forall|j: int|
            0 <= j < self.weights@.len() ==> iabs(#[trigger] self.weights@[j] as int) * VAL_LIMIT
                + n_iter * n_rows * (self.wden * VAL_LIMIT) <= WEIGHT_LIMIT
    }

    /// Runs the perceptron algorithm: normalizes the matrix afresh, then
    /// runs up to `n_iterations` epochs of online mistake-driven updates in
    /// the matrix's given row order, stopping early when an epoch leaves
    /// the weights unchanged.  The bias is never adjusted.  Mismatched
    /// label or row widths are a dimension error and leave the classifier
    /// untouched.
    pub fn train(
        &mut self,
        training_data: &Matrix,
        training_labels: &Vec<u8>,
        n_iterations: usize,
    ) -> (r: Result<(), ClassifierError>)
        requires
            old(self).wf(),
            training_data.wf(),
            old(self).can_train(training_data.rows@.len() as int, n_iterations as int),
        ensures
            final(self).wf(),
            match r {
                Ok(()) => {
                    &&& training_labels@.len() == training_data.rows@.len()
                    &&& (training_data.rows@.len() > 0 ==> training_data.nums()[0].len() == old(
                        self,
                    ).weights@.len())
                    &&& final(self).wden as int == old(self).wden as int * norm_den(
                        training_data.nums(),
                    )
                    &&& final(self).bias == old(self).bias
                    &&& final(self).weights@.len() == old(self).weights@.len()
                    &&& final(self).w_ints() == train_epochs(
                        scale_seq(old(self).w_ints(), norm_den(training_data.nums())),
                        norm_rows(training_data.nums()),
                        training_labels@,
                        old(self).wden as int,
                        n_iterations as nat,
                    )
                },
                Err(e) => {
                    &&& e == ClassifierError::DimensionMismatch
                    &&& *final(self) == *old(self)
                    &&& (training_labels@.len() != training_data.rows@.len() || (
                    training_data.rows@.len() > 0 && training_data.nums()[0].len() != old(
                        self,
                    ).weights@.len()))
                },
            },
    {
        let nrows: usize = training_data.rows.len();
        if training_labels.len() != nrows {
            return Err(ClassifierError::DimensionMismatch);
        }
        if nrows > 0 && training_data.rows[0].len() != self.weights.len() {
            proof {
                assert(training_data.nums()[0].len() == training_data.rows@[0]@.len());
            }
            return Err(ClassifierError::DimensionMismatch);
        }
        let normalized = Self::normalize(training_data);
        let d: i64 = normalized.den;
        let c: i64 = self.wden;
        let nfeat: usize = self.weights.len();
        let ghost rows_s = normalized.nums();
        let ghost labs = training_labels@;
        let ghost w_old = self.w_ints();
        proof {
            assert(1 <= d <= VAL_LIMIT);
            assert(c as int * d as int <= c as int * VAL_LIMIT as int) by (nonlinear_arith)
                requires
                    1 <= d as int <= VAL_LIMIT as int,
                    c as int >= 1,
            ;
            assert(c as int * d as int >= 1) by (nonlinear_arith)
                requires
                    d as int >= 1,
                    c as int >= 1,
            ;
            // every normalized row is as wide as the weight vector
            assert forall|k: int| 0 <= k < nrows as int implies #[trigger] rows_s[k].len()
                == nfeat as int by {
                assert(rows_s[k].len() == training_data.nums()[k].len());
                assert(training_data.nums()[k].len() == training_data.nums()[0].len());
            }
            // the budget bounds every starting weight
            assert forall|t: int| 0 <= t < nfeat as int implies iabs(#[trigger] w_old[t])
                * VAL_LIMIT <= WEIGHT_LIMIT by {
                assert(w_old[t] == old(self).weights@[t] as int);
                assert(iabs(old(self).weights@[t] as int) * VAL_LIMIT + n_iterations as int
                    * nrows as int * (c as int * VAL_LIMIT as int) <= WEIGHT_LIMIT);
                assert(n_iterations as int * nrows as int * (c as int * VAL_LIMIT as int)
                    >= 0) by (nonlinear_arith)
                    requires
                        n_iterations as int >= 0,
                        nrows as int >= 0,
                        c as int >= 1,
                ;
            }
        }
        self.wden = self.wden * d;
        let ghost cd = c as int * d as int;
        // rebase the weights onto the new common denominator wden * d
        let mut j: usize = 0;
        while j < nfeat
            invariant
                0 <= j <= nfeat,
                nfeat == self.weights@.len(),
                1 <= d <= VAL_LIMIT,
                self.wden as int == cd,
                self.bias == 0,
                1 <= cd <= WDEN_LIMIT as int,
                forall|t: int|
                    0 <= t < nfeat ==> iabs(#[trigger] w_old[t]) * VAL_LIMIT <= WEIGHT_LIMIT,
                w_old.len() == nfeat,
                forall|t: int| j <= t < nfeat ==> #[trigger] self.weights@[t] as int == w_old[t],
                forall|t: int|
                    0 <= t < j ==> #[trigger] self.weights@[t] as int == d as int * w_old[t],
            decreases nfeat - j,
        {
            let wj: i64 = self.weights[j];
            proof {
                assert(wj as int == w_old[j as int]);
                assert(iabs(w_old[j as int]) * VAL_LIMIT <= WEIGHT_LIMIT);
                assert(iabs(wj as int) * d as int <= iabs(wj as int) * VAL_LIMIT as int)
                    by (nonlinear_arith)
                    requires
                        1 <= d as int <= VAL_LIMIT as int,
                        iabs(wj as int) >= 0,
                ;
                assert(-(iabs(wj as int) * d as int) <= wj as int * d as int <= iabs(wj as int) * d
                    as int) by (nonlinear_arith)
                    requires
                        d as int >= 1,
                ;
            }
            let nw: i64 = wj * d;
            self.weights.set(j, nw);
            j += 1;
        }
        let ghost w0 = scale_seq(w_old, d as int);
        proof {
            assert(self.w_ints() =~= w0);
            // the rebased weights satisfy both the well-formedness bound and
            // the full training budget
            assert forall|t: int|
                0 <= t < nfeat as int implies iabs(#[trigger] self.weights@[t] as int) + (
            n_iterations - 0) * nrows as int * cd <= WEIGHT_LIMIT by {
                assert(self.weights@[t] as int == d as int * w_old[t]);
                assert(iabs(d as int * w_old[t]) == d as int * iabs(w_old[t])) by (nonlinear_arith)
                    requires
                        d as int >= 1,
                ;
                assert(d as int * iabs(w_old[t]) <= iabs(w_old[t]) * VAL_LIMIT as int)
                    by (nonlinear_arith)
                    requires
                        1 <= d as int <= VAL_LIMIT as int,
                        iabs(w_old[t]) >= 0,
                ;
                assert(w_old[t] == old(self).weights@[t] as int);
                assert(iabs(old(self).weights@[t] as int) * VAL_LIMIT + n_iterations as int
                    * nrows as int * (c as int * VAL_LIMIT as int) <= WEIGHT_LIMIT);
                assert((n_iterations - 0) * nrows as int * cd <= n_iterations as int * nrows as int
                    * (c as int * VAL_LIMIT as int)) by (nonlinear_arith)
                    requires
                        cd == c as int * d as int,
                        1 <= d as int <= VAL_LIMIT as int,
                        c as int >= 1,
                        n_iterations as int >= 0,
                        nrows as int >= 0,
                ;
            }
            assert forall|t: int|
                0 <= t < nfeat as int implies -WEIGHT_LIMIT <= #[trigger] self.weights@[t]
                <= WEIGHT_LIMIT by {
                assert(iabs(self.weights@[t] as int) + (n_iterations - 0) * nrows as int * cd
                    <= WEIGHT_LIMIT);
                assert((n_iterations - 0) * nrows as int * cd >= 0) by (nonlinear_arith)
                    requires
                        n_iterations as int >= 0,
                        nrows as int >= 0,
                        cd >= 1,
                ;
            }
        }
        let mut e: usize = 0;
        let mut converged: bool = false;
        while e < n_iterations && !converged
            invariant
                self.wf(),
                normalized.wf(),
                normalized.unit_range(),
                d == normalized.den,
                1 <= d <= VAL_LIMIT,
                1 <= c,
                c as int * VAL_LIMIT as int <= WDEN_LIMIT as int,
                cd == c as int * d as int,
                1 <= cd <= WDEN_LIMIT as int,
                self.wden as int == cd,
                self.bias == 0,
                rows_s == normalized.nums(),
                rows_s.len() == nrows as int,
                nrows == normalized.rows@.len(),
                nrows <= DIM_LIMIT,
                labs == training_labels@,
                labs.len() == nrows as int,
                nfeat == self.weights@.len(),
                nfeat <= DIM_LIMIT,
                w0.len() == nfeat as int,
                forall|k: int| 0 <= k < nrows as int ==> #[trigger] rows_s[k].len() == nfeat as int,
                forall|k: int, t: int|
                    0 <= k < nrows as int && 0 <= t < nfeat as int ==> 0 <= #[trigger] rows_s[k][t]
                        <= d as int,
                0 <= e <= n_iterations,
                train_epochs(self.w_ints(), rows_s, labs, c as int, (n_iterations - e) as nat)
                    == train_epochs(w0, rows_s, labs, c as int, n_iterations as nat),
                converged ==> epoch(self.w_ints(), rows_s, labs, c as int) == self.w_ints(),
                forall|t: int|
                    0 <= t < nfeat as int ==> iabs(#[trigger] self.weights@[t] as int) + (
                    n_iterations - e) * nrows as int * cd <= WEIGHT_LIMIT,
            decreases n_iterations - e,
        {
            let ghost wstart = self.w_ints();
            let prev: Vec<i64> = copy_weights(&self.weights);
            let ghost rem0 = (n_iterations - e) as int * nrows as int;
            proof {
                assert(rem0 >= nrows as int) by (nonlinear_arith)
                    requires
                        rem0 == (n_iterations - e) as int * nrows as int,
                        n_iterations as int - e as int >= 1,
                        nrows as int >= 0,
                ;
                assert forall|t: int|
                    0 <= t < nfeat as int implies iabs(#[trigger] self.weights@[t] as int) + (rem0
                    - 0) * cd <= WEIGHT_LIMIT by {
                    assert(iabs(self.weights@[t] as int) + (n_iterations - e) * nrows as int * cd
                        <= WEIGHT_LIMIT);
                    assert((n_iterations - e) as int * nrows as int * cd == rem0 * cd)
                        by (nonlinear_arith)
                        requires
                            rem0 == (n_iterations - e) as int * nrows as int,
                    ;
                }
            }
            let mut idx: usize = 0;
            while idx < nrows
                invariant
                    self.wf(),
                    normalized.wf(),
                    normalized.unit_range(),
                    d == normalized.den,
                    1 <= d <= VAL_LIMIT,
                    1 <= c,
                    c as int * VAL_LIMIT as int <= WDEN_LIMIT as int,
                    cd == c as int * d as int,
                    1 <= cd <= WDEN_LIMIT as int,
                    self.bias == 0,
                    self.wden as int == cd,
                    rows_s == normalized.nums(),
                    rows_s.len() == nrows as int,
                    nrows == normalized.rows@.len(),
                    nrows <= DIM_LIMIT,
                    labs == training_labels@,
                    labs.len() == nrows as int,
                    nfeat == self.weights@.len(),
                    nfeat <= DIM_LIMIT,
                    forall|k: int|
                        0 <= k < nrows as int ==> #[trigger] rows_s[k].len() == nfeat as int,
                    forall|k: int, t: int|
                        0 <= k < nrows as int && 0 <= t < nfeat as int ==> 0
                            <= #[trigger] rows_s[k][t] <= d as int,
                    0 <= idx <= nrows,
                    rem0 >= nrows as int,
                    self.w_ints() == epoch_prefix(wstart, rows_s, labs, c as int, idx as int),
                    wstart.len() == nfeat as int,
                    forall|t: int|
                        0 <= t < nfeat as int ==> iabs(#[trigger] self.weights@[t] as int) + (rem0
                            - idx) * cd <= WEIGHT_LIMIT,
                decreases nrows - idx,
            {
                let row: &Vec<i64> = &normalized.rows[idx];
                proof {
                    assert(rows_s[idx as int] == crate::matrix::row_ints(row@));
                    assert forall|t: int| 0 <= t < row@.len() implies 0 <= #[trigger] row@[t]
                        <= VAL_LIMIT by {
                        assert(rows_s[idx as int][t] == row@[t] as int);
                        assert(0 <= rows_s[idx as int][t] <= d as int);
                    }
                }
                let pr = self.predict(row, d);
                let (pl, _sc) = match pr {
                    Ok(t) => t,
                    Err(_) => {
                        proof {
                            assert(false);
                        }
                        return Err(ClassifierError::DimensionMismatch);
                    },
                };
                let a: u8 = training_labels[idx];
                let ghost wpre = self.w_ints();
                proof {
                    assert(pl == 1 <==> dot(wpre, rows_s[idx as int]) > 0);
                    assert(rem0 - idx >= 1);
                    assert((rem0 - idx) * cd >= 1 * cd) by (nonlinear_arith)
                        requires
                            rem0 - idx >= 1,
                            cd >= 1,
                    ;
                    assert(1 * cd == cd);
                    assert((rem0 - (idx + 1)) * cd == (rem0 - idx) * cd - cd) by (nonlinear_arith);
                    assert forall|u: int| 0 <= u < nfeat as int implies iabs(#[trigger] wpre[u]) + (
                    rem0 - idx) * cd <= WEIGHT_LIMIT by {
                        assert(wpre[u] == self.weights@[u] as int);
                        assert(iabs(self.weights@[u] as int) + (rem0 - idx) * cd <= WEIGHT_LIMIT);
                    }
                    assert forall|u: int| 0 <= u < nfeat as int implies iabs(#[trigger] wpre[u])
                        + cd <= WEIGHT_LIMIT by {
                        assert(iabs(wpre[u]) + (rem0 - idx) * cd <= WEIGHT_LIMIT);
                    }
                }
                if a == 1 && pl == 0 {
                    let mut t: usize = 0;
                    while t < nfeat
                        invariant
                            0 <= t <= nfeat,
                            nfeat == self.weights@.len(),
                            0 <= idx < nrows,
                            nrows == normalized.rows@.len(),
                            rows_s == normalized.nums(),
                            rows_s[idx as int].len() == nfeat as int,
                            row@ == normalized.rows@[idx as int]@,
                            self.bias == 0,
                            self.wden as int == cd,
                            1 <= cd <= WDEN_LIMIT as int,
                            nfeat <= DIM_LIMIT,
                            forall|u: int|
                                0 <= u < nfeat as int ==> 0 <= #[trigger] rows_s[idx as int][u]
                                    <= d as int,
                            1 <= c,
                            1 <= d <= VAL_LIMIT,
                            c as int * VAL_LIMIT as int <= WDEN_LIMIT as int,
                            cd == c as int * d as int,
                            wpre.len() == nfeat as int,
                            forall|u: int|
                                0 <= u < nfeat as int ==> iabs(#[trigger] wpre[u]) + cd
                                    <= WEIGHT_LIMIT,
                            forall|u: int| t <= u < nfeat as int ==> #[trigger] self.weights@[u] as int == wpre[u],
                            forall|u: int|
                                0 <= u < t ==> #[trigger] self.weights@[u] as int == wpre[u] + c
                                    as int * rows_s[idx as int][u],
                        decreases nfeat - t,
                    {
                        let rv: i64 = row[t];
                        proof {
                            assert(rows_s[idx as int][t as int] == rv as int);
                            assert(0 <= c as int * rv as int <= cd) by (nonlinear_arith)
                                requires
                                    0 <= rv as int <= d as int,
                                    c as int >= 1,
                                    cd == c as int * d as int,
                            ;
                        }
                        let nw: i64 = self.weights[t] + c * rv;
                        self.weights.set(t, nw);
                        t += 1;
                    }
                    proof {
                        assert(self.w_ints() =~= step_update(
                            wpre,
                            rows_s[idx as int],
                            labs[idx as int],
                            c as int,
                        ));
                    }
                } else if a == 0 && pl == 1 {
                    let mut t: usize = 0;
                    while t < nfeat
                        invariant
                            0 <= t <= nfeat,
                            nfeat == self.weights@.len(),
                            0 <= idx < nrows,
                            nrows == normalized.rows@.len(),
                            rows_s == normalized.nums(),
                            rows_s[idx as int].len() == nfeat as int,
                            row@ == normalized.rows@[idx as int]@,
                            self.bias == 0,
                            self.wden as int == cd,
                            1 <= cd <= WDEN_LIMIT as int,
                            nfeat <= DIM_LIMIT,
                            forall|u: int|
                                0 <= u < nfeat as int ==> 0 <= #[trigger] rows_s[idx as int][u]
                                    <= d as int,
                            1 <= c,
                            1 <= d <= VAL_LIMIT,
                            c as int * VAL_LIMIT as int <= WDEN_LIMIT as int,
                            cd == c as int * d as int,
                            wpre.len() == nfeat as int,
                            forall|u: int|
                                0 <= u < nfeat as int ==> iabs(#[trigger] wpre[u]) + cd
                                    <= WEIGHT_LIMIT,
                            forall|u: int| t <= u < nfeat as int ==> #[trigger] self.weights@[u] as int == wpre[u],
                            forall|u: int|
                                0 <= u < t ==> #[trigger] self.weights@[u] as int == wpre[u] - c
                                    as int * rows_s[idx as int][u],
                        decreases nfeat - t,
                    {
                        let rv: i64 = row[t];
                        proof {
                            assert(rows_s[idx as int][t as int] == rv as int);
                            assert(0 <= c as int * rv as int <= cd) by (nonlinear_arith)
                                requires
                                    0 <= rv as int <= d as int,
                                    c as int >= 1,
                                    cd == c as int * d as int,
                            ;
                        }
                        let nw: i64 = self.weights[t] - c * rv;
                        self.weights.set(t, nw);
                        t += 1;
                    }
                    proof {
                        assert(self.w_ints() =~= step_update(
                            wpre,
                            rows_s[idx as int],
                            labs[idx as int],
                            c as int,
                        ));
                    }
                } else {
                    proof {
                        assert(self.w_ints() == step_update(
                            wpre,
                            rows_s[idx as int],
                            labs[idx as int],
                            c as int,
                        ));
                    }
                }
                proof {
                    assert(self.w_ints() == epoch_prefix(
                        wstart,
                        rows_s,
                        labs,
                        c as int,
                        idx as int + 1,
                    ));
                    assert forall|u: int|
                        0 <= u < nfeat as int implies iabs(#[trigger] self.weights@[u] as int) + (
                        rem0 - (idx + 1)) * cd <= WEIGHT_LIMIT by {
                        assert(iabs(wpre[u]) + (rem0 - idx) * cd <= WEIGHT_LIMIT);
                        assert(0 <= c as int * rows_s[idx as int][u] <= cd) by (nonlinear_arith)
                            requires
                                0 <= rows_s[idx as int][u] <= d as int,
                                c as int >= 1,
                                cd == c as int * d as int,
                        ;
                        assert(self.weights@[u] as int == wpre[u] || self.weights@[u] as int
                            == wpre[u] + c as int * rows_s[idx as int][u] || self.weights@[u] as int
                            == wpre[u] - c as int * rows_s[idx as int][u]);
                    }
                    assert((rem0 - (idx + 1)) * cd >= 0) by (nonlinear_arith)
                        requires
                            rem0 - (idx + 1) >= 0,
                            cd >= 1,
                    ;
                    assert forall|u: int|
                        0 <= u < nfeat as int implies -WEIGHT_LIMIT <= #[trigger] self.weights@[u]
                        <= WEIGHT_LIMIT by {
                        assert(iabs(self.weights@[u] as int) + (rem0 - (idx + 1)) * cd
                            <= WEIGHT_LIMIT);
                    }
                }
                idx += 1;
            }
            let stable: bool = same_weights(&prev, &self.weights);
            proof {
                assert(self.w_ints() == epoch(wstart, rows_s, labs, c as int));
                let n_rem = (n_iterations - e) as nat;
                assert(n_rem >= 1);
                if stable {
                    assert(prev@ == self.weights@);
                    assert(wstart =~= self.w_ints());
                    assert(epoch(self.w_ints(), rows_s, labs, c as int) == self.w_ints());
                    assert(train_epochs(self.w_ints(), rows_s, labs, c as int, n_rem)
                        == self.w_ints());
                    assert(train_epochs(
                        self.w_ints(),
                        rows_s,
                        labs,
                        c as int,
                        (n_iterations - (e + 1)) as nat,
                    ) == self.w_ints());
                } else {
                    assert(wstart != self.w_ints()) by {
                        if wstart == self.w_ints() {
                            assert forall|u: int| 0 <= u < nfeat as int implies prev@[u]
                                == self.weights@[u] by {
                                assert(wstart[u] == self.w_ints()[u]);
                            }
                            assert(prev@ =~= self.weights@);
                        }
                    }
                    assert(train_epochs(wstart, rows_s, labs, c as int, n_rem) == train_epochs(
                        self.w_ints(),
                        rows_s,
                        labs,
                        c as int,
                        (n_rem - 1) as nat,
                    ));
                }
                assert forall|u: int|
                    0 <= u < nfeat as int implies iabs(#[trigger] self.weights@[u] as int) + (
                    n_iterations - (e + 1)) * nrows as int * cd <= WEIGHT_LIMIT by {
                    assert((rem0 - nrows as int) * cd == (n_iterations - (e + 1)) * nrows as int
                        * cd) by (nonlinear_arith)
                        requires
                            rem0 == (n_iterations - e) as int * nrows as int,
                    ;
                }
            }
            converged = stable;
            e += 1;
        }
        proof {
            let n_rem = (n_iterations - e) as nat;
            if e == n_iterations {
                assert(train_epochs(self.w_ints(), rows_s, labs, c as int, 0nat) == self.w_ints());
            } else {
                assert(converged);
                assert(train_epochs(self.w_ints(), rows_s, labs, c as int, n_rem)
                    == self.w_ints());
            }
            assert(self.w_ints() == train_epochs(w0, rows_s, labs, c as int, n_iterations as nat));
        }
        Ok(())
    }

    /// Predicts the binary label of one sample row (numerators over
    /// `input_den`): the score is `dot(weights, input) + bias` as an exact
    /// rational, and the label is 1 exactly when the score is positive.
    /// A row of the wrong width is a dimension error.
    pub fn predict(&self, input: &Vec<i64>, input_den: i64) -> (r: Result<
        (u8, Ratio),
        ClassifierError,
    >)
        requires
            self.wf(),
            1 <= input_den <= VAL_LIMIT,
            forall|j: int| 0 <= j < input@.len() ==> 0 <= #[trigger] input@[j] <= VAL_LIMIT,
        ensures
            match r {
                Ok((label, score)) => {
                    &&& input@.len() == self.weights@.len()
                    &&& score.den == self.wden as int * input_den as int
                    &&& score.num == dot(self.w_ints(), row_ints(input@)) + self.bias * input_den
                    &&& label == (if score.num > 0 {
                        1u8
                    } else {
                        0u8
                    })
                    &&& score.wf()
                    &&& -(self.weights@.len() * WEIGHT_LIMIT * VAL_LIMIT) <= score.num
                        <= self.weights@.len() * WEIGHT_LIMIT * VAL_LIMIT
                },
                Err(e) => e == ClassifierError::DimensionMismatch && input@.len()
                    != self.weights@.len(),
            },
    {
        if input.len() != self.weights.len() {
            return Err(ClassifierError::DimensionMismatch);
        }
        let n: usize = self.weights.len();
        let ghost wi = self.w_ints();
        let ghost ri = row_ints(input@);
        let mut sum: i128 = 0;
        let mut j: usize = 0;
        while j < n
            invariant
                0 <= j <= n,
                n == self.weights@.len(),
                n == input@.len(),
                n <= DIM_LIMIT,
                wi == self.w_ints(),
                ri == row_ints(input@),
                forall|t: int|
                    0 <= t < n ==> -WEIGHT_LIMIT <= #[trigger] self.weights@[t] <= WEIGHT_LIMIT,
                forall|t: int| 0 <= t < n ==> 0 <= #[trigger] input@[t] <= VAL_LIMIT,
                sum == dot_prefix(wi, ri, j as int),
                -(j * WEIGHT_LIMIT * VAL_LIMIT) <= sum <= j * WEIGHT_LIMIT * VAL_LIMIT,
            decreases n - j,
        {
            let wj: i64 = self.weights[j];
            let xj: i64 = input[j];
            proof {
                assert(-(WEIGHT_LIMIT as int * VAL_LIMIT as int) <= wj as int * xj as int
                    <= WEIGHT_LIMIT as int * VAL_LIMIT as int) by (nonlinear_arith)
                    requires
                        -WEIGHT_LIMIT <= wj as int <= WEIGHT_LIMIT,
                        0 <= xj as int <= VAL_LIMIT,
                ;
                assert((j as int + 1) * (WEIGHT_LIMIT as int * VAL_LIMIT as int) == j as int * (
                WEIGHT_LIMIT as int * VAL_LIMIT as int) + WEIGHT_LIMIT as int
                    * VAL_LIMIT as int) by (nonlinear_arith);
                assert(j as int * WEIGHT_LIMIT as int * VAL_LIMIT as int == j as int * (
                WEIGHT_LIMIT as int * VAL_LIMIT as int)) by (nonlinear_arith);
                assert((j as int + 1) * WEIGHT_LIMIT as int * VAL_LIMIT as int == (j as int + 1) * (
                WEIGHT_LIMIT as int * VAL_LIMIT as int)) by (nonlinear_arith);
                assert(j as int + 1 <= DIM_LIMIT as int);
                assert(DIM_LIMIT as int * (WEIGHT_LIMIT as int * VAL_LIMIT as int) < i128::MAX) by (
                nonlinear_arith);
                assert((j as int + 1) * (WEIGHT_LIMIT as int * VAL_LIMIT as int) <= DIM_LIMIT as int
                    * (WEIGHT_LIMIT as int * VAL_LIMIT as int)) by (nonlinear_arith)
                    requires
                        0 <= j as int + 1 <= DIM_LIMIT as int,
                ;
            }
            sum = sum + (wj as i128) * (xj as i128);
            j += 1;
        }
        let num: i128 = sum + (self.bias as i128) * (input_den as i128);
        proof {
            assert(1 <= self.wden as int * input_den as int <= WDEN_LIMIT as int
                * VAL_LIMIT as int) by (nonlinear_arith)
                requires
                    1 <= self.wden as int <= WDEN_LIMIT as int,
                    1 <= input_den as int <= VAL_LIMIT as int,
            ;
        }
        let den: i128 = (self.wden as i128) * (input_den as i128);
        proof {
            assert(den > 0) by (nonlinear_arith)
                requires
                    self.wden >= 1,
                    input_den >= 1,
                    den == self.wden as int * input_den as int,
            ;
        }
        let label: u8 = if num > 0 {
            1
        } else {
            0
        };
        Ok((label, Ratio { num, den }))
    }

    /// Normalizes the matrix, predicts every row, and reports the exact
    /// fraction of rows whose predicted label equals the given label.  An
    /// empty matrix yields the defined fallback 0/1 rather than a
    /// division by zero.
    pub fn validate(&self, validation_images: &Matrix, validation_labels: &Vec<u8>) -> (r: Result<
        Ratio,
        ClassifierError,
    >)
        requires
            self.wf(),
            validation_images.wf(),
        ensures
            match r {
                Ok(acc) => {
                    &&& validation_labels@.len() == validation_images.rows@.len()
                    &&& (validation_images.rows@.len() > 0 ==> validation_images.nums()[0].len()
                        == self.weights@.len())
                    &&& acc.wf()
                    &&& 0 <= acc.num <= acc.den
                    &&& acc.den == if validation_images.rows@.len() == 0 {
                        1int
                    } else {
                        validation_images.rows@.len() as int
                    }
                    &&& acc.num == count_correct(
                        self.w_ints(),
                        norm_rows(validation_images.nums()),
                        validation_labels@,
                        validation_images.rows@.len() as int,
                    )
                },
                Err(e) => {
                    &&& e == ClassifierError::DimensionMismatch
                    &&& (validation_labels@.len() != validation_images.rows@.len() || (
                    validation_images.rows@.len() > 0 && validation_images.nums()[0].len()
                        != self.weights@.len()))
                },
            },
    {
        let nrows: usize = validation_images.rows.len();
        if validation_labels.len() != nrows {
            return Err(ClassifierError::DimensionMismatch);
        }
        if nrows > 0 && validation_images.rows[0].len() != self.weights.len() {
            proof {
                assert(validation_images.nums()[0].len() == validation_images.rows@[0]@.len());
            }
            return Err(ClassifierError::DimensionMismatch);
        }
        let normalized = Self::normalize(validation_images);
        let d: i64 = normalized.den;
        let nfeat: usize = self.weights.len();
        let ghost rows_s = normalized.nums();
        let ghost labs = validation_labels@;
        proof {
            assert forall|k: int| 0 <= k < nrows as int implies #[trigger] rows_s[k].len()
                == nfeat as int by {
                assert(rows_s[k].len() == validation_images.nums()[k].len());
                assert(validation_images.nums()[k].len() == validation_images.nums()[0].len());
            }
        }
        let mut count: usize = 0;
        let mut idx: usize = 0;
        while idx < nrows
            invariant
                self.wf(),
                normalized.wf(),
                normalized.unit_range(),
                d == normalized.den,
                1 <= d <= VAL_LIMIT,
                rows_s == normalized.nums(),
                rows_s.len() == nrows as int,
                nrows == normalized.rows@.len(),
                nrows <= DIM_LIMIT,
                labs == validation_labels@,
                labs.len() == nrows as int,
                nfeat == self.weights@.len(),
                forall|k: int| 0 <= k < nrows as int ==> #[trigger] rows_s[k].len() == nfeat as int,
                0 <= idx <= nrows,
                0 <= count <= idx,
                count as int == count_correct(self.w_ints(), rows_s, labs, idx as int),
            decreases nrows - idx,
        {
            let row: &Vec<i64> = &normalized.rows[idx];
            proof {
                assert(rows_s[idx as int] == crate::matrix::row_ints(row@));
                assert forall|t: int| 0 <= t < row@.len() implies 0 <= #[trigger] row@[t]
                    <= VAL_LIMIT by {
                    assert(rows_s[idx as int][t] == row@[t] as int);
                    assert(0 <= rows_s[idx as int][t] <= normalized.den as int);
                }
            }
            let pr = self.predict(row, d);
            let (pl, _sc) = match pr {
                Ok(t) => t,
                Err(_) => {
                    proof {
                        assert(false);
                    }
                    return Err(ClassifierError::DimensionMismatch);
                },
            };
            proof {
                assert(pl == label_of(self.w_ints(), rows_s[idx as int]));
            }
            if pl == validation_labels[idx] {
                count += 1;
            }
            idx += 1;
        }
        if nrows == 0 {
            Ok(Ratio { num: 0, den: 1 })
        } else {
            proof {
                lemma_count_correct_bounds(self.w_ints(), rows_s, labs, nrows as int);
            }
            Ok(Ratio { num: count as i128, den: nrows as i128 })
        }
    }
}

} // verus!
