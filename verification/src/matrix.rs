//! The feature matrix: rows of integer numerators over one shared positive
//! denominator, so that every entry is the exact rational `num / den`.
use vstd::prelude::*;
use crate::ClassifierError;
use crate::DIM_LIMIT;
use crate::VAL_LIMIT;

verus! {

// ---------------------------------------------------------------------
// Integer views of the stored data
// ---------------------------------------------------------------------

/// One stored row as a sequence of mathematical integers.
pub open spec fn row_ints(r: Seq<i64>) -> Seq<int> {
    r.map(|j: int, v: i64| v as int)
}

/// A stored matrix as a sequence of rows of mathematical integers.
pub open spec fn mat_ints(rows: Seq<Vec<i64>>) -> Seq<Seq<int>> {
    rows.map(|i: int, r: Vec<i64>| row_ints(r@))
}

// ---------------------------------------------------------------------
// Global extremes of a matrix
// ---------------------------------------------------------------------

/// `v` occurs somewhere in the matrix.
pub open spec fn entry_in(rows: Seq<Seq<int>>, v: int) -> bool {
    exists|a: int, b: int|
        0 <= a < rows.len() && 0 <= b < rows[a].len() && #[trigger] rows[a][b] == v
}

/// The matrix has at least one entry.
pub open spec fn has_entries(rows: Seq<Seq<int>>) -> bool {
    exists|a: int| 0 <= a < rows.len() && #[trigger] rows[a].len() > 0
}

/// Every entry of the matrix is at least `v`.
pub open spec fn all_ge(rows: Seq<Seq<int>>, v: int) -> bool {
    forall|a: int, b: int|
        0 <= a < rows.len() && 0 <= b < rows[a].len() ==> #[trigger] rows[a][b] >= v
}

/// Every entry of the matrix is at most `v`.
pub open spec fn all_le(rows: Seq<Seq<int>>, v: int) -> bool {
    forall|a: int, b: int|
        0 <= a < rows.len() && 0 <= b < rows[a].len() ==> #[trigger] rows[a][b] <= v
}

/// The global minimum entry (meaningful when the matrix has entries).
pub open spec fn mat_lo(rows: Seq<Seq<int>>) -> int {
    choose|v: int| entry_in(rows, v) && all_ge(rows, v)
}

/// The global maximum entry (meaningful when the matrix has entries).
pub open spec fn mat_hi(rows: Seq<Seq<int>>) -> int {
    choose|v: int| entry_in(rows, v) && all_le(rows, v)
}

/// A matrix with no entries, or one whose entries are all equal: rescaling
/// has no spread to work with, and maps everything to zero instead.
pub open spec fn degenerate(rows: Seq<Seq<int>>) -> bool {
    !has_entries(rows) || mat_lo(rows) == mat_hi(rows)
}

// ---------------------------------------------------------------------
// The normalization contract, as pure functions of the input entries
// ---------------------------------------------------------------------

/// The denominator of the rescaled matrix: the global spread `hi - lo`,
/// or 1 when the input is degenerate.
pub open spec fn norm_den(rows: Seq<Seq<int>>) -> int {
    if degenerate(rows) {
        1
    } else {
        mat_hi(rows) - mat_lo(rows)
    }
}

/// One rescaled numerator: `v - lo`, so that `(v - lo) / (hi - lo)` is the
/// exact rescaled value; 0 when the input is degenerate.
pub open spec fn norm_entry(rows: Seq<Seq<int>>, v: int) -> int {
    if degenerate(rows) {
        0
    } else {
        v - mat_lo(rows)
    }
}

/// All rescaled numerators, entry for entry.
pub open spec fn norm_rows(rows: Seq<Seq<int>>) -> Seq<Seq<int>> {
    rows.map(|i: int, r: Seq<int>| r.map(|j: int, v: int| norm_entry(rows, v)))
}

// ---------------------------------------------------------------------
// The matrix type
// ---------------------------------------------------------------------

/// Shape check: every row is as wide as the first.
pub open spec fn rect(rows: Seq<Seq<int>>) -> bool {
    forall|i: int| 0 <= i < rows.len() ==> #[trigger] rows[i].len() == rows[0].len()
}

/// Range check: the denominator and every entry lie in the supported range.
pub open spec fn limits_ok(rows: Seq<Seq<int>>, den: int) -> bool {
    &&& 1 <= den <= VAL_LIMIT
    &&& rows.len() <= DIM_LIMIT
    &&& forall|i: int| 0 <= i < rows.len() ==> #[trigger] rows[i].len() <= DIM_LIMIT
    &&& forall|i: int, j: int|
        0 <= i < rows.len() && 0 <= j < rows[i].len() ==> 0 <= #[trigger] rows[i][j] <= VAL_LIMIT
}

/// An ordered sequence of equally wide sample rows.  The rational value of
/// entry `(i, j)` is `rows[i][j] / den`; a raw byte image has `den == 1`.
pub struct Matrix {
    pub rows: Vec<Vec<i64>>,
    pub den: i64,
}

impl Matrix {
    /// The entries as mathematical integers.
    pub open spec fn nums(self) -> Seq<Seq<int>> {
        mat_ints(self.rows@)
    }

    /// The number of columns (0 for a matrix without rows).
    pub open spec fn width(self) -> int {
        if self.rows@.len() == 0 {
            0
        } else {
            self.rows@[0]@.len() as int
        }
    }

    /// Well-formed: rectangular, within the dimension limits, nonnegative
    /// bounded entries over a bounded positive denominator.
    pub open spec fn wf(self) -> bool {
        &&& rect(self.nums())
        &&& limits_ok(self.nums(), self.den as int)
    }

    /// Every entry is between 0 and the denominator, so every rational
    /// value lies in `[0, 1]`.
    pub open spec fn unit_range(self) -> bool {
        forall|i: int, j: int|
            0 <= i < self.nums().len() && 0 <= j < self.nums()[i].len()
                ==> 0 <= #[trigger] self.nums()[i][j] <= self.den as int
    }

    /// Builds a matrix after checking shape and range, so that every
    /// `Matrix` handed out by the library is well-formed.
    pub fn new(rows: Vec<Vec<i64>>, den: i64) -> (r: Result<Matrix, ClassifierError>)
        ensures
            match r {
                Ok(m) => {
                    &&& m.rows@ == rows@
                    &&& m.den == den
                    &&& m.wf()
                },
                Err(ClassifierError::ConfigurationError) => !limits_ok(
                    mat_ints(rows@),
                    den as int,
                ),
                Err(ClassifierError::DimensionMismatch) => limits_ok(mat_ints(rows@), den as int)
                    && !rect(mat_ints(rows@)),
            },
    {
        if den < 1 || den > VAL_LIMIT {
            return Err(ClassifierError::ConfigurationError);
        }
        if rows.len() > DIM_LIMIT {
            return Err(ClassifierError::ConfigurationError);
        }
        let ghost nums = mat_ints(rows@);
        let mut i: usize = 0;
        while i < rows.len()
            invariant
                0 <= i <= rows@.len(),
                nums == mat_ints(rows@),
                forall|a: int| 0 <= a < i ==> #[trigger] nums[a].len() <= DIM_LIMIT,
                forall|a: int, b: int|
                    0 <= a < i && 0 <= b < nums[a].len() ==> 0 <= #[trigger] nums[a][b]
                        <= VAL_LIMIT,
            decreases rows@.len() - i,
        {
            let row: &Vec<i64> = &rows[i];
            if row.len() > DIM_LIMIT {
                proof {
                    assert(nums[i as int].len() == rows@[i as int]@.len());
                    assert(!limits_ok(nums, den as int));
                }
                return Err(ClassifierError::ConfigurationError);
            }
            let mut j: usize = 0;
            while j < row.len()
                invariant
                    0 <= j <= row@.len(),
                    row@ == rows@[i as int]@,
                    0 <= i < rows@.len(),
                    nums == mat_ints(rows@),
                    forall|b: int| 0 <= b < j ==> 0 <= #[trigger] nums[i as int][b] <= VAL_LIMIT,
                decreases row@.len() - j,
            {
                let v: i64 = row[j];
                if v < 0 || v > VAL_LIMIT {
                    proof {
                        assert(nums[i as int][j as int] == rows@[i as int]@[j as int] as int);
                        assert(!limits_ok(nums, den as int));
                    }
                    return Err(ClassifierError::ConfigurationError);
                }
                j += 1;
            }
            i += 1;
        }
        let mut i: usize = 0;
        let width: usize = if rows.len() == 0 {
            0
        } else {
            rows[0].len()
        };
        while i < rows.len()
            invariant
                0 <= i <= rows@.len(),
                nums == mat_ints(rows@),
                limits_ok(nums, den as int),
                rows@.len() > 0 ==> width == nums[0].len(),
                forall|a: int| 0 <= a < i ==> #[trigger] nums[a].len() == width,
            decreases rows@.len() - i,
        {
            if rows[i].len() != width {
                proof {
                    assert(nums[i as int].len() == rows@[i as int]@.len());
                    assert(nums[i as int].len() != nums[0].len());
                    assert(!rect(nums));
                }
                return Err(ClassifierError::DimensionMismatch);
            }
            i += 1;
        }
        Ok(Matrix { rows, den })
    }

    /// Reshapes a flat byte buffer (for instance a stream of grayscale
    /// pixels) into a matrix of `width`-wide rows with denominator 1.
    /// The buffer length must be an exact multiple of `width`.
    pub fn from_flat(data: &Vec<u8>, width: usize) -> (r: Result<Matrix, ClassifierError>)
        ensures
            match r {
                Ok(m) => {
                    &&& 1 <= width <= DIM_LIMIT
                    &&& data@.len() as int % width as int == 0
                    &&& data@.len() as int / width as int <= DIM_LIMIT
                    &&& m.den == 1
                    &&& m.wf()
                    &&& m.nums().len() == data@.len() as int / width as int
                    &&& forall|i: int|
                        0 <= i < m.nums().len() ==> #[trigger] m.nums()[i].len() == width as int
                    &&& forall|i: int, j: int|
                        0 <= i < m.nums().len() && 0 <= j < width as int
                            ==> #[trigger] m.nums()[i][j] == data@[i * width as int + j] as int
                },
                Err(ClassifierError::ConfigurationError) => width == 0 || width > DIM_LIMIT || (
                data@.len() as int % width as int == 0 && data@.len() as int / width as int
                    > DIM_LIMIT),
                Err(ClassifierError::DimensionMismatch) => 1 <= width <= DIM_LIMIT && data@.len()
                    as int % width as int != 0,
            },
    {
        if width == 0 || width > DIM_LIMIT {
            return Err(ClassifierError::ConfigurationError);
        }
        let n: usize = data.len() / width;
        let rem: usize = data.len() % width;
        proof {
            vstd::arithmetic::div_mod::lemma_fundamental_div_mod(
                data@.len() as int,
                width as int,
            );
            assert(width as int * n as int == n as int * width as int) by (nonlinear_arith);
        }
        if rem != 0 {
            return Err(ClassifierError::DimensionMismatch);
        }
        if n > DIM_LIMIT {
            return Err(ClassifierError::ConfigurationError);
        }
        assert(n as int * width as int == data@.len());
        let dlen: usize = data.len();
        let mut rows: Vec<Vec<i64>> = Vec::new();
        let mut i: usize = 0;
        while i < n
            invariant
                0 <= i <= n,
                dlen == data@.len(),
                n * width == data@.len(),
                1 <= width <= DIM_LIMIT,
                n <= DIM_LIMIT,
                rows@.len() == i,
                forall|a: int| 0 <= a < i ==> #[trigger] rows@[a]@.len() == width as int,
                forall|a: int, b: int|
                    0 <= a < i && 0 <= b < width as int ==> #[trigger] rows@[a]@[b] == data@[a
                        * width as int + b] as i64,
            decreases n - i,
        {
            proof {
                vstd::arithmetic::mul::lemma_mul_inequality(
                    i as int + 1,
                    n as int,
                    width as int,
                );
                vstd::arithmetic::mul::lemma_mul_nonnegative(i as int, width as int);
                assert((i as int + 1) * width as int == i as int * width as int
                    + width as int) by (nonlinear_arith);
            }
            let mut row: Vec<i64> = Vec::new();
            let base: usize = i * width;
            let mut j: usize = 0;
            while j < width
                invariant
                    0 <= j <= width,
                    base == i as int * width as int,
                    dlen == data@.len(),
                    base + width <= dlen,
                    row@.len() == j,
                    forall|b: int|
                        0 <= b < j ==> #[trigger] row@[b] == data@[base as int + b] as i64,
                decreases width - j,
            {
                let v: u8 = data[base + j];
                row.push(v as i64);
                j += 1;
            }
            rows.push(row);
            i += 1;
        }
        let m = Matrix { rows, den: 1 };
        proof {
            assert forall|a: int| 0 <= a < m.nums().len() implies #[trigger] m.nums()[a].len()
                == width as int by {
                assert(m.nums()[a].len() == m.rows@[a]@.len());
            }
            assert forall|a: int, b: int|
                0 <= a < m.nums().len() && 0 <= b < width as int implies #[trigger] m.nums()[a][b]
                == data@[a * width as int + b] as int by {
                assert(m.rows@[a]@[b] == data@[a * width as int + b] as i64);
                assert(0 <= data@[a * width as int + b] < 256);
            }
            assert(rect(m.nums()));
            assert(limits_ok(m.nums(), 1));
        }
        Ok(m)
    }
}

// ---------------------------------------------------------------------
// The extremes exist and bound every entry
// ---------------------------------------------------------------------

/// `m` is a least element of the sequence `r`.
pub open spec fn row_min_of(r: Seq<int>, m: int) -> bool {
    &&& exists|k: int| 0 <= k < r.len() && #[trigger] r[k] == m
    &&& forall|k: int| 0 <= k < r.len() ==> #[trigger] r[k] >= m
}

/// `m` is a greatest element of the sequence `r`.
pub open spec fn row_max_of(r: Seq<int>, m: int) -> bool {
    &&& exists|k: int| 0 <= k < r.len() && #[trigger] r[k] == m
    &&& forall|k: int| 0 <= k < r.len() ==> #[trigger] r[k] <= m
}

/// Every nonempty integer sequence has a least element.
proof fn lemma_seq_has_min(r: Seq<int>)
    requires
        r.len() > 0,
    ensures
        exists|m: int| #[trigger] row_min_of(r, m),
    decreases r.len(),
{
    if r.len() == 1 {
        assert(r[0] == r[0]);
        assert(row_min_of(r, r[0]));
    } else {
        let front = r.drop_last();
        lemma_seq_has_min(front);
        let m0 = choose|m: int| #[trigger] row_min_of(front, m);
        let last = r[r.len() - 1];
        let m1 = if last < m0 {
            last
        } else {
            m0
        };
        assert forall|k: int| 0 <= k < r.len() implies #[trigger] r[k] >= m1 by {
            if k < r.len() - 1 {
                assert(front[k] == r[k]);
            }
        }
        if last < m0 {
            assert(r[r.len() - 1] == m1);
        } else {
            let k0 = choose|k: int| 0 <= k < front.len() && #[trigger] front[k] == m0;
            assert(r[k0] == m1);
        }
        assert(row_min_of(r, m1));
    }
}

/// Every nonempty integer sequence has a greatest element.
proof fn lemma_seq_has_max(r: Seq<int>)
    requires
        r.len() > 0,
    ensures
        exists|m: int| #[trigger] row_max_of(r, m),
    decreases r.len(),
{
    if r.len() == 1 {
        assert(r[0] == r[0]);
        assert(row_max_of(r, r[0]));
    } else {
        let front = r.drop_last();
        lemma_seq_has_max(front);
        let m0 = choose|m: int| #[trigger] row_max_of(front, m);
        let last = r[r.len() - 1];
        let m1 = if last > m0 {
            last
        } else {
            m0
        };
        assert forall|k: int| 0 <= k < r.len() implies #[trigger] r[k] <= m1 by {
            if k < r.len() - 1 {
                assert(front[k] == r[k]);
            }
        }
        if last > m0 {
            assert(r[r.len() - 1] == m1);
        } else {
            let k0 = choose|k: int| 0 <= k < front.len() && #[trigger] front[k] == m0;
            assert(r[k0] == m1);
        }
        assert(row_max_of(r, m1));
    }
}

/// A matrix with at least one entry has a least and a greatest entry, and
/// `mat_lo` / `mat_hi` denote them.
pub proof fn lemma_extremes(rows: Seq<Seq<int>>)
    requires
        has_entries(rows),
    ensures
        entry_in(rows, mat_lo(rows)),
        all_ge(rows, mat_lo(rows)),
        entry_in(rows, mat_hi(rows)),
        all_le(rows, mat_hi(rows)),
    decreases rows.len(),
{
    let a0 = choose|a: int| 0 <= a < rows.len() && #[trigger] rows[a].len() > 0;
    lemma_extremes_step(rows, a0);
}

/// Work horse for `lemma_extremes`: builds the witnesses by scanning the
/// matrix row by row.
proof fn lemma_extremes_step(rows: Seq<Seq<int>>, a0: int)
    requires
        0 <= a0 < rows.len(),
        rows[a0].len() > 0,
    ensures
        entry_in(rows, mat_lo(rows)),
        all_ge(rows, mat_lo(rows)),
        entry_in(rows, mat_hi(rows)),
        all_le(rows, mat_hi(rows)),
    decreases rows.len(),
{
    if rows.len() == 1 {
        lemma_seq_has_min(rows[0]);
        lemma_seq_has_max(rows[0]);
        let mn = choose|m: int| #[trigger] row_min_of(rows[0], m);
        let mx = choose|m: int| #[trigger] row_max_of(rows[0], m);
        assert(entry_in(rows, mn) && all_ge(rows, mn)) by {
            let k = choose|k: int| 0 <= k < rows[0].len() && #[trigger] rows[0][k] == mn;
            assert(rows[0][k] == mn);
            assert forall|a: int, b: int|
                0 <= a < rows.len() && 0 <= b < rows[a].len() implies #[trigger] rows[a][b]
                >= mn by {
                assert(a == 0);
            }
        }
        assert(entry_in(rows, mx) && all_le(rows, mx)) by {
            let k = choose|k: int| 0 <= k < rows[0].len() && #[trigger] rows[0][k] == mx;
            assert(rows[0][k] == mx);
            assert forall|a: int, b: int|
                0 <= a < rows.len() && 0 <= b < rows[a].len() implies #[trigger] rows[a][b]
                <= mx by {
                assert(a == 0);
            }
        }
    } else {
        let front = rows.drop_last();
        let lastrow = rows[rows.len() - 1];
        assert forall|a: int, b: int|
            0 <= a < front.len() && 0 <= b < front[a].len() implies front[a][b] == rows[a][b] by {}
        if a0 < rows.len() - 1 {
            lemma_extremes_step(front, a0);
            let flo = mat_lo(front);
            let fhi = mat_hi(front);
            if lastrow.len() > 0 {
                lemma_seq_has_min(lastrow);
                lemma_seq_has_max(lastrow);
                let mn = choose|m: int| #[trigger] row_min_of(lastrow, m);
                let mx = choose|m: int| #[trigger] row_max_of(lastrow, m);
                let lo1 = if mn < flo {
                    mn
                } else {
                    flo
                };
                let hi1 = if mx > fhi {
                    mx
                } else {
                    fhi
                };
                lemma_combine(rows, front, lastrow, flo, fhi, mn, mx, lo1, hi1);
            } else {
                lemma_combine(rows, front, lastrow, flo, fhi, flo, fhi, flo, fhi);
            }
        } else {
            // the only known nonempty row is the last one
            lemma_seq_has_min(lastrow);
            lemma_seq_has_max(lastrow);
            let mn = choose|m: int| #[trigger] row_min_of(lastrow, m);
            let mx = choose|m: int| #[trigger] row_max_of(lastrow, m);
            if has_entries(front) {
                let b0 = choose|a: int| 0 <= a < front.len() && #[trigger] front[a].len() > 0;
                lemma_extremes_step(front, b0);
                let flo = mat_lo(front);
                let fhi = mat_hi(front);
                let lo1 = if mn < flo {
                    mn
                } else {
                    flo
                };
                let hi1 = if mx > fhi {
                    mx
                } else {
                    fhi
                };
                lemma_combine(rows, front, lastrow, flo, fhi, mn, mx, lo1, hi1);
            } else {
                // every earlier row is empty
                assert forall|a: int, b: int|
                    0 <= a < rows.len() && 0 <= b < rows[a].len() implies #[trigger] rows[a][b]
                    >= mn by {
                    if a < rows.len() - 1 {
                        assert(front[a].len() > 0);
                    }
                }
                assert forall|a: int, b: int|
                    0 <= a < rows.len() && 0 <= b < rows[a].len() implies #[trigger] rows[a][b]
                    <= mx by {
                    if a < rows.len() - 1 {
                        assert(front[a].len() > 0);
                    }
                }
                let k1 = choose|k: int| 0 <= k < lastrow.len() && #[trigger] lastrow[k] == mn;
                assert(rows[rows.len() - 1][k1] == mn);
                let k2 = choose|k: int| 0 <= k < lastrow.len() && #[trigger] lastrow[k] == mx;
                assert(rows[rows.len() - 1][k2] == mx);
                lemma_choose_extremes(rows, mn, mx);
            }
        }
    }
}

/// Combines the extremes of all rows but the last with those of the last
/// row (when it has any) into extremes of the whole matrix.
proof fn lemma_combine(
    rows: Seq<Seq<int>>,
    front: Seq<Seq<int>>,
    lastrow: Seq<int>,
    flo: int,
    fhi: int,
    mn: int,
    mx: int,
    lo1: int,
    hi1: int,
)
    requires
        rows.len() > 1,
        front == rows.drop_last(),
        lastrow == rows[rows.len() - 1],
        entry_in(front, flo),
        all_ge(front, flo),
        entry_in(front, fhi),
        all_le(front, fhi),
        lastrow.len() > 0 ==> row_min_of(lastrow, mn) && row_max_of(lastrow, mx),
        lastrow.len() > 0 ==> lo1 == if mn < flo {
            mn
        } else {
            flo
        },
        lastrow.len() > 0 ==> hi1 == if mx > fhi {
            mx
        } else {
            fhi
        },
        lastrow.len() == 0 ==> lo1 == flo && hi1 == fhi,
    ensures
        entry_in(rows, mat_lo(rows)),
        all_ge(rows, mat_lo(rows)),
        entry_in(rows, mat_hi(rows)),
        all_le(rows, mat_hi(rows)),
{
    assert forall|a: int, b: int|
        0 <= a < rows.len() && 0 <= b < rows[a].len() implies #[trigger] rows[a][b] >= lo1 by {
        if a < rows.len() - 1 {
            assert(front[a][b] == rows[a][b]);
            assert(front[a][b] >= flo);
        }
    }
    assert forall|a: int, b: int|
        0 <= a < rows.len() && 0 <= b < rows[a].len() implies #[trigger] rows[a][b] <= hi1 by {
        if a < rows.len() - 1 {
            assert(front[a][b] == rows[a][b]);
            assert(front[a][b] <= fhi);
        }
    }
    // lo1 and hi1 occur in the matrix
    if lastrow.len() > 0 && mn < flo {
        let k = choose|k: int| 0 <= k < lastrow.len() && #[trigger] lastrow[k] == mn;
        assert(rows[rows.len() - 1][k] == lo1);
    } else {
        let (fa, fb) = choose|fa: int, fb: int|
            0 <= fa < front.len() && 0 <= fb < front[fa].len() && #[trigger] front[fa][fb] == flo;
        assert(rows[fa][fb] == lo1);
    }
    if lastrow.len() > 0 && mx > fhi {
        let k = choose|k: int| 0 <= k < lastrow.len() && #[trigger] lastrow[k] == mx;
        assert(rows[rows.len() - 1][k] == hi1);
    } else {
        let (fa, fb) = choose|fa: int, fb: int|
            0 <= fa < front.len() && 0 <= fb < front[fa].len() && #[trigger] front[fa][fb] == fhi;
        assert(rows[fa][fb] == hi1);
    }
    lemma_choose_extremes(rows, lo1, hi1);
}

/// Once some value is known to be a least entry and another a greatest
/// entry, `mat_lo` and `mat_hi` equal those values.
pub proof fn lemma_choose_extremes(rows: Seq<Seq<int>>, lo1: int, hi1: int)
    requires
        entry_in(rows, lo1),
        all_ge(rows, lo1),
        entry_in(rows, hi1),
        all_le(rows, hi1),
    ensures
        entry_in(rows, mat_lo(rows)),
        all_ge(rows, mat_lo(rows)),
        entry_in(rows, mat_hi(rows)),
        all_le(rows, mat_hi(rows)),
        mat_lo(rows) == lo1,
        mat_hi(rows) == hi1,
{
    assert(entry_in(rows, lo1) && all_ge(rows, lo1));
    let v = mat_lo(rows);
    assert(entry_in(rows, v) && all_ge(rows, v));
    let (a1, b1) = choose|a: int, b: int|
        0 <= a < rows.len() && 0 <= b < rows[a].len() && #[trigger] rows[a][b] == lo1;
    let (a2, b2) = choose|a: int, b: int|
        0 <= a < rows.len() && 0 <= b < rows[a].len() && #[trigger] rows[a][b] == v;
    assert(rows[a1][b1] >= v);
    assert(rows[a2][b2] >= lo1);
    assert(entry_in(rows, hi1) && all_le(rows, hi1));
    let w = mat_hi(rows);
    assert(entry_in(rows, w) && all_le(rows, w));
    let (a3, b3) = choose|a: int, b: int|
        0 <= a < rows.len() && 0 <= b < rows[a].len() && #[trigger] rows[a][b] == hi1;
    let (a4, b4) = choose|a: int, b: int|
        0 <= a < rows.len() && 0 <= b < rows[a].len() && #[trigger] rows[a][b] == w;
    assert(rows[a3][b3] <= w);
    assert(rows[a4][b4] <= hi1);
}

// ---------------------------------------------------------------------
// Row-major prefix scans (used to compute the extremes)
// ---------------------------------------------------------------------

/// `v` occurs at a position that precedes `(i, j)` in row-major order.
pub open spec fn entry_before(rows: Seq<Seq<int>>, i: int, j: int, v: int) -> bool {
    exists|a: int, b: int|
        0 <= a < rows.len() && 0 <= b < rows[a].len() && (a < i || (a == i && b < j))
            && #[trigger] rows[a][b] == v
}

/// Some position precedes `(i, j)` in row-major order.
pub open spec fn has_before(rows: Seq<Seq<int>>, i: int, j: int) -> bool {
    ||| exists|a: int| 0 <= a < rows.len() && a < i && #[trigger] rows[a].len() > 0
    ||| (0 <= i < rows.len() && j > 0 && rows[i].len() > 0)
}

/// Every entry before `(i, j)` is at least `v`.
pub open spec fn all_ge_before(rows: Seq<Seq<int>>, i: int, j: int, v: int) -> bool {
    forall|a: int, b: int|
        0 <= a < rows.len() && 0 <= b < rows[a].len() && (a < i || (a == i && b < j))
            ==> #[trigger] rows[a][b] >= v
}

/// Every entry before `(i, j)` is at most `v`.
pub open spec fn all_le_before(rows: Seq<Seq<int>>, i: int, j: int, v: int) -> bool {
    forall|a: int, b: int|
        0 <= a < rows.len() && 0 <= b < rows[a].len() && (a < i || (a == i && b < j))
            ==> #[trigger] rows[a][b] <= v
}

/// One scan step: visiting entry `(i, j)` extends the running extremes of
/// the prefix to position `(i, j + 1)`.
pub proof fn lemma_scan_entry(
    rows: Seq<Seq<int>>,
    i: int,
    j: int,
    old_lo: int,
    old_hi: int,
    new_lo: int,
    new_hi: int,
    was_found: bool,
)
    requires
        0 <= i < rows.len(),
        0 <= j < rows[i].len(),
        was_found == has_before(rows, i, j),
        was_found ==> entry_before(rows, i, j, old_lo) && all_ge_before(rows, i, j, old_lo)
            && entry_before(rows, i, j, old_hi) && all_le_before(rows, i, j, old_hi),
        new_lo == if !was_found || rows[i][j] < old_lo {
            rows[i][j]
        } else {
            old_lo
        },
        new_hi == if !was_found || rows[i][j] > old_hi {
            rows[i][j]
        } else {
            old_hi
        },
    ensures
        has_before(rows, i, j + 1),
        entry_before(rows, i, j + 1, new_lo),
        all_ge_before(rows, i, j + 1, new_lo),
        entry_before(rows, i, j + 1, new_hi),
        all_le_before(rows, i, j + 1, new_hi),
{
    assert(has_before(rows, i, j + 1));
    if new_lo == rows[i][j] {
        assert(rows[i][j] == new_lo);
    } else {
        let (a, b) = choose|a: int, b: int|
            0 <= a < rows.len() && 0 <= b < rows[a].len() && (a < i || (a == i && b < j))
                && #[trigger] rows[a][b] == old_lo;
        assert(rows[a][b] == new_lo);
    }
    if new_hi == rows[i][j] {
        assert(rows[i][j] == new_hi);
    } else {
        let (a, b) = choose|a: int, b: int|
            0 <= a < rows.len() && 0 <= b < rows[a].len() && (a < i || (a == i && b < j))
                && #[trigger] rows[a][b] == old_hi;
        assert(rows[a][b] == new_hi);
    }
    assert forall|a: int, b: int|
        0 <= a < rows.len() && 0 <= b < rows[a].len() && (a < i || (a == i && b < j + 1)) implies #[trigger] rows[a][b]
        >= new_lo by {
        if a == i && b == j {
        } else {
            assert(a < i || (a == i && b < j));
            if !was_found {
                if a < i {
                    assert(rows[a].len() > 0);
                    assert(has_before(rows, i, j));
                } else {
                    assert(0 <= i < rows.len() && j > 0 && rows[i].len() > 0);
                    assert(has_before(rows, i, j));
                }
                assert(false);
            } else {
                assert(rows[a][b] >= old_lo);
            }
        }
    }
    assert forall|a: int, b: int|
        0 <= a < rows.len() && 0 <= b < rows[a].len() && (a < i || (a == i && b < j + 1)) implies #[trigger] rows[a][b]
        <= new_hi by {
        if a == i && b == j {
        } else {
            assert(a < i || (a == i && b < j));
            if !was_found {
                if a < i {
                    assert(rows[a].len() > 0);
                    assert(has_before(rows, i, j));
                } else {
                    assert(0 <= i < rows.len() && j > 0 && rows[i].len() > 0);
                    assert(has_before(rows, i, j));
                }
                assert(false);
            } else {
                assert(rows[a][b] <= old_hi);
            }
        }
    }
}

/// Finishing row `i` of the scan: the prefix up to `(i, rows[i].len())`
/// is the same as the prefix up to `(i + 1, 0)`.
pub proof fn lemma_scan_row_step(rows: Seq<Seq<int>>, i: int, v_lo: int, v_hi: int, fnd: bool)
    requires
        0 <= i < rows.len(),
        fnd == has_before(rows, i, rows[i].len() as int),
        fnd ==> entry_before(rows, i, rows[i].len() as int, v_lo) && all_ge_before(
            rows,
            i,
            rows[i].len() as int,
            v_lo,
        ) && entry_before(rows, i, rows[i].len() as int, v_hi) && all_le_before(
            rows,
            i,
            rows[i].len() as int,
            v_hi,
        ),
    ensures
        fnd == has_before(rows, i + 1, 0),
        fnd ==> entry_before(rows, i + 1, 0, v_lo) && all_ge_before(rows, i + 1, 0, v_lo)
            && entry_before(rows, i + 1, 0, v_hi) && all_le_before(rows, i + 1, 0, v_hi),
{
    let len = rows[i].len() as int;
    assert(has_before(rows, i + 1, 0) ==> has_before(rows, i, len)) by {
        if has_before(rows, i + 1, 0) {
            let a = choose|a: int| 0 <= a < rows.len() && a < i + 1 && #[trigger] rows[a].len() > 0;
            if a < i {
                assert(has_before(rows, i, len));
            } else {
                assert(rows[i].len() > 0);
                assert(has_before(rows, i, len));
            }
        }
    }
    assert(has_before(rows, i, len) ==> has_before(rows, i + 1, 0)) by {
        if has_before(rows, i, len) {
            if exists|a: int| 0 <= a < rows.len() && a < i && #[trigger] rows[a].len() > 0 {
                let a = choose|a: int| 0 <= a < rows.len() && a < i && #[trigger] rows[a].len() > 0;
                assert(rows[a].len() > 0 && a < i + 1);
            } else {
                assert(rows[i].len() > 0 && i < i + 1);
            }
        }
    }
    if fnd {
        assert(entry_before(rows, i + 1, 0, v_lo)) by {
            let (a, b) = choose|a: int, b: int|
                0 <= a < rows.len() && 0 <= b < rows[a].len() && (a < i || (a == i && b < len))
                    && #[trigger] rows[a][b] == v_lo;
            assert(a < i + 1);
            assert(rows[a][b] == v_lo);
        }
        assert(entry_before(rows, i + 1, 0, v_hi)) by {
            let (a, b) = choose|a: int, b: int|
                0 <= a < rows.len() && 0 <= b < rows[a].len() && (a < i || (a == i && b < len))
                    && #[trigger] rows[a][b] == v_hi;
            assert(a < i + 1);
            assert(rows[a][b] == v_hi);
        }
        assert forall|a: int, b: int|
            0 <= a < rows.len() && 0 <= b < rows[a].len() && (a < i + 1 || (a == i + 1 && b
                < 0)) implies #[trigger] rows[a][b] >= v_lo by {
            assert(a < i || (a == i && b < len));
        }
        assert forall|a: int, b: int|
            0 <= a < rows.len() && 0 <= b < rows[a].len() && (a < i + 1 || (a == i + 1 && b
                < 0)) implies #[trigger] rows[a][b] <= v_hi by {
            assert(a < i || (a == i && b < len));
        }
    }
}

/// After the whole scan, the prefix predicates become the global ones, and
/// the running extremes are the matrix extremes.
pub proof fn lemma_scan_done(rows: Seq<Seq<int>>, v_lo: int, v_hi: int, fnd: bool)
    requires
        fnd == has_before(rows, rows.len() as int, 0),
        fnd ==> entry_before(rows, rows.len() as int, 0, v_lo) && all_ge_before(
            rows,
            rows.len() as int,
            0,
            v_lo,
        ) && entry_before(rows, rows.len() as int, 0, v_hi) && all_le_before(
            rows,
            rows.len() as int,
            0,
            v_hi,
        ),
    ensures
        fnd == has_entries(rows),
        fnd ==> mat_lo(rows) == v_lo && mat_hi(rows) == v_hi,
        fnd ==> entry_in(rows, v_lo) && all_ge(rows, v_lo) && entry_in(rows, v_hi) && all_le(
            rows,
            v_hi,
        ),
{
    let n = rows.len() as int;
    assert(fnd == has_entries(rows)) by {
        if has_before(rows, n, 0) {
            assert(has_entries(rows));
        }
        if has_entries(rows) {
            let a = choose|a: int| 0 <= a < rows.len() && #[trigger] rows[a].len() > 0;
            assert(a < n && rows[a].len() > 0);
            assert(has_before(rows, n, 0));
        }
    }
    if fnd {
        assert(entry_in(rows, v_lo)) by {
            let (a, b) = choose|a: int, b: int|
                0 <= a < rows.len() && 0 <= b < rows[a].len() && (a < n || (a == n && b < 0))
                    && #[trigger] rows[a][b] == v_lo;
            assert(rows[a][b] == v_lo);
        }
        assert(entry_in(rows, v_hi)) by {
            let (a, b) = choose|a: int, b: int|
                0 <= a < rows.len() && 0 <= b < rows[a].len() && (a < n || (a == n && b < 0))
                    && #[trigger] rows[a][b] == v_hi;
            assert(rows[a][b] == v_hi);
        }
        assert forall|a: int, b: int|
            0 <= a < rows.len() && 0 <= b < rows[a].len() implies #[trigger] rows[a][b] >= v_lo by {
            assert(a < n);
        }
        assert forall|a: int, b: int|
            0 <= a < rows.len() && 0 <= b < rows[a].len() implies #[trigger] rows[a][b] <= v_hi by {
            assert(a < n);
        }
        lemma_choose_extremes(rows, v_lo, v_hi);
    }
}

// ---------------------------------------------------------------------
// Laws of normalization
// ---------------------------------------------------------------------

/// Rescaling keeps the shape and maps every entry into `[0, den]`: every
/// rescaled rational value lies in `[0, 1]`.
pub proof fn lemma_norm_unit(rows: Seq<Seq<int>>)
    ensures
        norm_den(rows) >= 1,
        norm_rows(rows).len() == rows.len(),
        forall|i: int|
            0 <= i < rows.len() ==> #[trigger] norm_rows(rows)[i].len() == rows[i].len(),
        forall|i: int, j: int|
            0 <= i < rows.len() && 0 <= j < rows[i].len() ==> 0 <= #[trigger] norm_rows(
                rows,
            )[i][j] <= norm_den(rows),
{
    if !degenerate(rows) {
        lemma_extremes(rows);
        assert(mat_lo(rows) <= mat_hi(rows)) by {
            let (a, b) = choose|a: int, b: int|
                0 <= a < rows.len() && 0 <= b < rows[a].len() && #[trigger] rows[a][b] == mat_lo(
                    rows,
                );
            assert(rows[a][b] <= mat_hi(rows));
        }
    }
    assert forall|i: int, j: int|
        0 <= i < rows.len() && 0 <= j < rows[i].len() implies 0 <= #[trigger] norm_rows(
        rows,
    )[i][j] <= norm_den(rows) by {
        assert(norm_rows(rows)[i][j] == norm_entry(rows, rows[i][j]));
        if !degenerate(rows) {
            assert(rows[i][j] >= mat_lo(rows));
            assert(rows[i][j] <= mat_hi(rows));
        }
    }
}

/// Rescaling is idempotent: rescaling an already rescaled matrix changes
/// neither its entries nor its denominator.  In particular this holds
/// whenever the input already spans the full unit range.
pub proof fn lemma_normalize_idempotent(rows: Seq<Seq<int>>)
    ensures
        norm_den(norm_rows(rows)) == norm_den(rows),
        norm_rows(norm_rows(rows)) == norm_rows(rows),
{
    let nr = norm_rows(rows);
    assert(nr.len() == rows.len());
    assert forall|i: int| 0 <= i < nr.len() implies #[trigger] nr[i].len() == rows[i].len() by {}
    if degenerate(rows) {
        // every rescaled entry is zero
        assert forall|a: int, b: int|
            0 <= a < nr.len() && 0 <= b < nr[a].len() implies #[trigger] nr[a][b] == 0 by {
            assert(nr[a][b] == norm_entry(rows, rows[a][b]));
        }
        if has_entries(nr) {
            let a0 = choose|a: int| 0 <= a < nr.len() && #[trigger] nr[a].len() > 0;
            assert(nr[a0][0] == 0);
            lemma_choose_extremes(nr, 0, 0);
        }
        assert(degenerate(nr));
        assert forall|a: int, b: int|
            0 <= a < nr.len() && 0 <= b < nr[a].len() implies #[trigger] norm_rows(nr)[a][b]
            == nr[a][b] by {
            assert(norm_rows(nr)[a][b] == norm_entry(nr, nr[a][b]));
        }
        assert(norm_rows(nr) =~~= nr);
    } else {
        lemma_extremes(rows);
        let lo = mat_lo(rows);
        let hi = mat_hi(rows);
        assert(lo <= hi) by {
            let (a, b) = choose|a: int, b: int|
                0 <= a < rows.len() && 0 <= b < rows[a].len() && #[trigger] rows[a][b] == lo;
            assert(rows[a][b] <= hi);
        }
        let d = hi - lo;
        assert forall|a: int, b: int|
            0 <= a < nr.len() && 0 <= b < nr[a].len() implies #[trigger] nr[a][b] == rows[a][b]
            - lo by {
            assert(nr[a][b] == norm_entry(rows, rows[a][b]));
        }
        // 0 and d are attained, and bound the rescaled entries
        let (la, lb) = choose|a: int, b: int|
            0 <= a < rows.len() && 0 <= b < rows[a].len() && #[trigger] rows[a][b] == lo;
        let (ha, hb) = choose|a: int, b: int|
            0 <= a < rows.len() && 0 <= b < rows[a].len() && #[trigger] rows[a][b] == hi;
        assert(nr[la][lb] == 0);
        assert(nr[ha][hb] == d);
        assert(entry_in(nr, 0));
        assert(entry_in(nr, d));
        assert forall|a: int, b: int|
            0 <= a < nr.len() && 0 <= b < nr[a].len() implies #[trigger] nr[a][b] >= 0 && nr[a][b]
            <= d by {
            assert(rows[a][b] >= lo && rows[a][b] <= hi);
        }
        lemma_choose_extremes(nr, 0, d);
        assert(has_entries(nr)) by {
            assert(nr[la].len() > 0);
        }
        assert(!degenerate(nr));
        assert(norm_den(nr) == d);
        assert forall|a: int, b: int|
            0 <= a < nr.len() && 0 <= b < nr[a].len() implies #[trigger] norm_rows(nr)[a][b]
            == nr[a][b] by {
            assert(norm_rows(nr)[a][b] == norm_entry(nr, nr[a][b]));
        }
        assert(norm_rows(nr) =~~= nr);
    }
}

} // verus!

