//! The one-vs-rest ensemble: one binary perceptron per configured class,
//! trained independently on relabeled targets and aggregated at prediction
//! time by exact rational score comparison.
use vstd::prelude::*;
use crate::matrix::Matrix;
use crate::matrix::norm_den;
use crate::matrix::norm_rows;
use crate::matrix::row_ints;
use crate::perceptron::Perceptron;
use crate::perceptron::correct_labels;
use crate::perceptron::count_correct;
use crate::perceptron::dot;
use crate::perceptron::relabel;
use crate::perceptron::scale_seq;
use crate::perceptron::train_epochs;
use crate::rat::Ratio;
use crate::ClassifierError;
use crate::DIM_LIMIT;
use crate::VAL_LIMIT;
use crate::WDEN_LIMIT;
use crate::WEIGHT_LIMIT;

verus! {

/// No class identifier occurs twice.
pub open spec fn distinct_classes(classes: Seq<i32>) -> bool {
    forall|i: int, j: int|
        0 <= i < j < classes.len() ==> #[trigger] classes[i] != #[trigger] classes[j]
}

/// `p_new` is exactly what training `p_old` on `data` against the targets
/// relabeled for `class` produces.  This is the whole story of one
/// ensemble member: it depends on nothing but that member's own prior
/// state and its own relabeled targets.
pub open spec fn trained_from(
    p_new: Perceptron,
    p_old: Perceptron,
    data: Matrix,
    labels: Seq<u8>,
    class: i32,
    n: nat,
) -> bool {
    let d = norm_den(data.nums());
    &&& p_new.wden as int == p_old.wden as int * d
    &&& p_new.bias == p_old.bias
    &&& p_new.weights@.len() == p_old.weights@.len()
    &&& p_new.w_ints() == train_epochs(
        scale_seq(p_old.w_ints(), d),
        norm_rows(data.nums()),
        relabel(labels, class as u8),
        p_old.wden as int,
        n,
    )
}

/// Per-class independence: a classifier coming out of an ensemble
/// training run carries exactly the state that training it alone — same
/// starting state, same matrix, its own relabeled targets, same epoch
/// budget — produces.  `trained_from` is the contract of
/// `MultiClassPerceptron::train` for each member, and the right-hand
/// sides below are the contract of `Perceptron::train` on the relabeled
/// targets, so the two training paths cannot diverge.
pub proof fn lemma_member_training_independent(
    p_ens: Perceptron,
    p_solo: Perceptron,
    p_start: Perceptron,
    data: Matrix,
    labels: Seq<u8>,
    class: i32,
    n: nat,
)
    requires
        trained_from(p_ens, p_start, data, labels, class, n),
        p_solo.w_ints() == train_epochs(
            scale_seq(p_start.w_ints(), norm_den(data.nums())),
            norm_rows(data.nums()),
            relabel(labels, class as u8),
            p_start.wden as int,
            n,
        ),
        p_solo.wden as int == p_start.wden as int * norm_den(data.nums()),
        p_solo.bias == p_start.bias,
    ensures
        p_ens.w_ints() == p_solo.w_ints(),
        p_ens.wden == p_solo.wden,
        p_ens.bias == p_solo.bias,
{
}

/// An ordered list of `(class identifier, binary classifier)` pairs,
/// index-aligned: the i-th classifier discriminates the i-th class
/// against everything else.
pub struct MultiClassPerceptron {
    pub perceptrons: Vec<Perceptron>,
    pub classes: Vec<i32>,
}

impl MultiClassPerceptron {
    /// The shared feature count (0 for an ensemble without classifiers).
    pub open spec fn num_features(self) -> int {
        if self.perceptrons@.len() == 0 {
            0
        } else {
            self.perceptrons@[0].weights@.len() as int
        }
    }

    /// Well-formed: one classifier per class, all classifiers well-formed
    /// and equally wide, and no duplicate class identifiers.
    pub open spec fn wf(self) -> bool {
        &&& self.perceptrons@.len() == self.classes@.len()
        &&& distinct_classes(self.classes@)
        &&& forall|i: int|
            0 <= i < self.perceptrons@.len() ==> (#[trigger] self.perceptrons@[i]).wf()
        &&& forall|i: int|
            0 <= i < self.perceptrons@.len() ==> (#[trigger] self.perceptrons@[i]).weights@.len()
                == self.num_features()
    }

    /// Builds one fresh classifier per class, in class-list order.
    /// Duplicate class identifiers are a configuration error.
    pub fn new(classes: Vec<i32>, num_features: usize) -> (r: Result<
        MultiClassPerceptron,
        ClassifierError,
    >)
        requires
            num_features <= DIM_LIMIT,
        ensures
            match r {
                Ok(m) => {
                    &&& distinct_classes(classes@)
                    &&& m.wf()
                    &&& m.classes@ == classes@
                    &&& m.perceptrons@.len() == classes@.len()
                    &&& classes@.len() > 0 ==> m.num_features() == num_features as int
                    &&& forall|i: int|
                        0 <= i < classes@.len() ==> (#[trigger] m.perceptrons@[i]).wden == 1
                            && m.perceptrons@[i].bias == 0
                            && m.perceptrons@[i].weights@.len() == num_features
                            && forall|t: int|
                            0 <= t < num_features ==> #[trigger] m.perceptrons@[i].weights@[t] == 0
                },
                Err(e) => e == ClassifierError::ConfigurationError && !distinct_classes(classes@),
            },
    {
        let mut i: usize = 0;
        while i < classes.len()
            invariant
                0 <= i <= classes@.len(),
                forall|a: int, b: int|
                    0 <= a < b < i ==> #[trigger] classes@[a] != #[trigger] classes@[b],
            decreases classes@.len() - i,
        {
            let mut j: usize = 0;
            while j < i
                invariant
                    0 <= j <= i < classes@.len(),
                    forall|a: int| 0 <= a < j ==> #[trigger] classes@[a] != classes@[i as int],
                decreases i - j,
            {
                if classes[j] == classes[i] {
                    return Err(ClassifierError::ConfigurationError);
                }
                j += 1;
            }
            i += 1;
        }
        let mut perceptrons: Vec<Perceptron> = Vec::new();
        let mut i: usize = 0;
        while i < classes.len()
            invariant
                0 <= i <= classes@.len(),
                perceptrons@.len() == i,
                num_features <= DIM_LIMIT,
                forall|a: int|
                    0 <= a < i ==> (#[trigger] perceptrons@[a]).wden == 1 && perceptrons@[a].bias
                        == 0 && perceptrons@[a].weights@.len() == num_features && perceptrons@[a].wf()
                        && forall|t: int|
                        0 <= t < num_features ==> #[trigger] perceptrons@[a].weights@[t] == 0,
            decreases classes@.len() - i,
        {
            perceptrons.push(Perceptron::new(num_features));
            i += 1;
        }
        Ok(MultiClassPerceptron { perceptrons, classes })
    }

    /// Trains every member independently: the i-th classifier is trained
    /// on the same matrix against the labels relabeled for the i-th
    /// class.  No classifier's outcome depends on any other member's
    /// state or on the order of the members.
    pub fn train(
        &mut self,
        training_data: &Matrix,
        training_labels: &Vec<u8>,
        n_iterations: usize,
    ) -> (r: Result<(), ClassifierError>)
        requires
            old(self).wf(),
            training_data.wf(),
            forall|i: int|
                0 <= i < old(self).perceptrons@.len() ==> (
                #[trigger] old(self).perceptrons@[i]).can_train(
                    training_data.rows@.len() as int,
                    n_iterations as int,
                ),
        ensures
            final(self).wf(),
            final(self).classes@ == old(self).classes@,
            final(self).perceptrons@.len() == old(self).perceptrons@.len(),
            match r {
                Ok(()) => {
                    &&& training_labels@.len() == training_data.rows@.len()
                    &&& (old(self).perceptrons@.len() > 0 && training_data.rows@.len() > 0
                        ==> training_data.nums()[0].len() == old(self).num_features())
                    &&& forall|i: int|
                        0 <= i < old(self).perceptrons@.len() ==> trained_from(
                            #[trigger] final(self).perceptrons@[i],
                            old(self).perceptrons@[i],
                            *training_data,
                            training_labels@,
                            old(self).classes@[i],
                            n_iterations as nat,
                        )
                },
                Err(e) => {
                    &&& e == ClassifierError::DimensionMismatch
                    &&& *final(self) == *old(self)
                    &&& (training_labels@.len() != training_data.rows@.len() || (old(
                        self,
                    ).perceptrons@.len() > 0 && training_data.rows@.len() > 0
                        && training_data.nums()[0].len() != old(self).num_features()))
                },
            },
    {
        let nrows: usize = training_data.rows.len();
        if training_labels.len() != nrows {
            return Err(ClassifierError::DimensionMismatch);
        }
        let k: usize = self.perceptrons.len();
        if k > 0 && nrows > 0 {
            let p0: &Perceptron = &self.perceptrons[0];
            if training_data.rows[0].len() != p0.weights.len() {
                proof {
                    assert(training_data.nums()[0].len() == training_data.rows@[0]@.len());
                }
                return Err(ClassifierError::DimensionMismatch);
            }
            proof {
                assert(training_data.nums()[0].len() == training_data.rows@[0]@.len());
            }
        }
        let mut i: usize = 0;
        while i < k
            invariant
                0 <= i <= k,
                k == old(self).perceptrons@.len(),
                k == old(self).classes@.len(),
                self.classes@ == old(self).classes@,
                self.perceptrons@.len() == k,
                training_data.wf(),
                nrows == training_data.rows@.len(),
                training_labels@.len() == nrows as int,
                distinct_classes(self.classes@),
                k > 0 && nrows > 0 ==> training_data.nums()[0].len() == old(self).num_features(),
                forall|t: int|
                    0 <= t < k ==> (#[trigger] old(self).perceptrons@[t]).wf() && old(
                        self,
                    ).perceptrons@[t].weights@.len() == old(self).num_features() && old(
                        self,
                    ).perceptrons@[t].can_train(nrows as int, n_iterations as int),
                forall|t: int| i <= t < k ==> self.perceptrons@[t] == old(self).perceptrons@[t],
                forall|t: int|
                    0 <= t < i ==> trained_from(
                        #[trigger] self.perceptrons@[t],
                        old(self).perceptrons@[t],
                        *training_data,
                        training_labels@,
                        old(self).classes@[t],
                        n_iterations as nat,
                    ) && (#[trigger] self.perceptrons@[t]).wf()
                        && self.perceptrons@[t].weights@.len() == old(
                        self,
                    ).perceptrons@[t].weights@.len(),
            decreases k - i,
        {
            let class_i: i32 = self.classes[i];
            let targets: Vec<u8> = correct_labels(training_labels, #[verifier::truncate] (class_i
                as u8));
            let ghost before = self.perceptrons@;
            let mut p: Perceptron = self.perceptrons.remove(i);
            proof {
                assert(p == old(self).perceptrons@[i as int]);
            }
            let res = p.train(training_data, &targets, n_iterations);
            proof {
                if res is Err {
                    assert(targets@.len() == training_labels@.len());
                    assert(false);
                }
            }
            self.perceptrons.insert(i, p);
            proof {
                assert(self.perceptrons@ =~= before.update(i as int, p));
            }
            i += 1;
        }
        Ok(())
    }

    // -----------------------------------------------------------------
    // Prediction: exact rational score aggregation
    // -----------------------------------------------------------------

    /// The score numerator of member `i` on a row with denominator `rden`.
    pub open spec fn score_num_at(self, row: Seq<int>, rden: int, i: int) -> int {
        dot(self.perceptrons@[i].w_ints(), row) + self.perceptrons@[i].bias * rden
    }

    /// The score denominator of member `i` on such a row.
    pub open spec fn score_den_at(self, rden: int, i: int) -> int {
        self.perceptrons@[i].wden * rden
    }

    /// Member `i` votes 1 (its score is positive).
    pub open spec fn positive_at(self, row: Seq<int>, rden: int, i: int) -> bool {
        self.score_num_at(row, rden, i) > 0
    }

    /// At least one member votes 1.
    pub open spec fn any_positive(self, row: Seq<int>, rden: int) -> bool {
        exists|i: int|
            0 <= i < self.perceptrons@.len() && #[trigger] self.positive_at(row, rden, i)
    }

    /// Member `i`'s score is at most member `j`'s, as rational values
    /// (cross multiplication over positive denominators).
    pub open spec fn score_le(self, row: Seq<int>, rden: int, i: int, j: int) -> bool {
        self.score_num_at(row, rden, i) * self.score_den_at(rden, j) <= self.score_num_at(
            row,
            rden,
            j,
        ) * self.score_den_at(rden, i)
    }

    /// Member `i`'s score is strictly below member `j`'s.
    pub open spec fn score_lt(self, row: Seq<int>, rden: int, i: int, j: int) -> bool {
        self.score_num_at(row, rden, i) * self.score_den_at(rden, j) < self.score_num_at(
            row,
            rden,
            j,
        ) * self.score_den_at(rden, i)
    }

    /// `w` is the member the aggregation rule elects: the positive vote
    /// with the greatest score when any member votes 1 (ties broken by
    /// first occurrence in class-list order), otherwise the member with
    /// the least score among all of them (again the first such).
    pub open spec fn winner_at(self, row: Seq<int>, rden: int, w: int) -> bool {
        &&& 0 <= w < self.perceptrons@.len()
        &&& if self.any_positive(row, rden) {
            &&& self.positive_at(row, rden, w)
            &&& forall|i: int|
                0 <= i < self.perceptrons@.len() && #[trigger] self.positive_at(row, rden, i)
                    ==> self.score_le(row, rden, i, w)
            &&& forall|i: int|
                0 <= i < w && #[trigger] self.positive_at(row, rden, i) ==> self.score_lt(
                    row,
                    rden,
                    i,
                    w,
                )
        } else {
            &&& forall|i: int|
                0 <= i < self.perceptrons@.len() ==> #[trigger] self.score_le(row, rden, w, i)
            &&& forall|i: int| 0 <= i < w ==> #[trigger] self.score_lt(row, rden, w, i)
        }
    }

    /// Only one member can satisfy the aggregation rule.
    pub proof fn lemma_winner_unique(self, row: Seq<int>, rden: int, w1: int, w2: int)
        requires
            self.winner_at(row, rden, w1),
            self.winner_at(row, rden, w2),
        ensures
            w1 == w2,
    {
        if w1 != w2 {
            if self.any_positive(row, rden) {
                if w1 < w2 {
                    assert(self.score_lt(row, rden, w1, w2));
                    assert(self.score_le(row, rden, w2, w1));
                } else {
                    assert(self.score_lt(row, rden, w2, w1));
                    assert(self.score_le(row, rden, w1, w2));
                }
            } else {
                if w1 < w2 {
                    assert(self.score_lt(row, rden, w2, w1));
                    assert(self.score_le(row, rden, w1, w2));
                } else {
                    assert(self.score_lt(row, rden, w1, w2));
                    assert(self.score_le(row, rden, w2, w1));
                }
            }
        }
    }

    /// The index the aggregation rule elects.
    pub open spec fn the_winner(self, row: Seq<int>, rden: int) -> int {
        choose|w: int| self.winner_at(row, rden, w)
    }

    /// The class identifier prediction reports for a row.
    pub open spec fn predicted_class(self, row: Seq<int>, rden: int) -> i32 {
        self.classes@[self.the_winner(row, rden)]
    }

    /// Queries every member on the row and aggregates: if any member
    /// votes 1, the class of the strongest positive vote wins (first in
    /// class-list order on a tie); if none does, the class with the least
    /// score wins.  The result is always one of the configured classes.
    /// An ensemble without classes is a configuration error; a row of the
    /// wrong width is a dimension error.
    pub fn predict(&self, input: &Vec<i64>, input_den: i64) -> (r: Result<i32, ClassifierError>)
        requires
            self.wf(),
            1 <= input_den <= VAL_LIMIT,
            forall|j: int| 0 <= j < input@.len() ==> 0 <= #[trigger] input@[j] <= VAL_LIMIT,
        ensures
            match r {
                Ok(cls) => {
                    &&& self.classes@.len() > 0
                    &&& input@.len() == self.num_features()
                    &&& self.winner_at(
                        row_ints(input@),
                        input_den as int,
                        self.the_winner(row_ints(input@), input_den as int),
                    )
                    &&& cls == self.predicted_class(row_ints(input@), input_den as int)
                    &&& self.classes@.contains(cls)
                },
                Err(ClassifierError::ConfigurationError) => self.classes@.len() == 0,
                Err(ClassifierError::DimensionMismatch) => self.classes@.len() > 0 && input@.len()
                    != self.num_features(),
            },
    {
        let k: usize = self.perceptrons.len();
        if k == 0 {
            return Err(ClassifierError::ConfigurationError);
        }
        let ghost ri = row_ints(input@);
        let ghost rd = input_den as int;
        let p0: &Perceptron = &self.perceptrons[0];
        let pr0 = p0.predict(input, input_den);
        let (lab0, sc0) = match pr0 {
            Ok(t) => t,
            Err(_) => {
                return Err(ClassifierError::DimensionMismatch);
            },
        };
        let ghost nb = DIM_LIMIT as int * WEIGHT_LIMIT as int * VAL_LIMIT as int;
        let ghost db = WDEN_LIMIT as int * VAL_LIMIT as int;
        proof {
            self.lemma_score_in_range(ri, rd, 0, sc0);
            assert(self.score_le(ri, rd, 0, 0));
            if lab0 == 1 {
                assert(self.positive_at(ri, rd, 0));
            } else {
                assert(!self.positive_at(ri, rd, 0));
                assert forall|t: int| 0 <= t < 1 implies !#[trigger] self.positive_at(
                    ri,
                    rd,
                    t,
                ) by {}
            }
        }
        let mut min_idx: usize = 0;
        let mut min_sc: Ratio = sc0;
        let mut has_pos: bool = lab0 == 1;
        let mut pos_idx: usize = 0;
        let mut pos_sc: Ratio = sc0;
        let mut i: usize = 1;
        while i < k
            invariant
                self.wf(),
                1 <= input_den <= VAL_LIMIT,
                forall|j: int| 0 <= j < input@.len() ==> 0 <= #[trigger] input@[j] <= VAL_LIMIT,
                ri == row_ints(input@),
                rd == input_den as int,
                k == self.perceptrons@.len(),
                k == self.classes@.len(),
                input@.len() == self.num_features(),
                nb == DIM_LIMIT as int * WEIGHT_LIMIT as int * VAL_LIMIT as int,
                db == WDEN_LIMIT as int * VAL_LIMIT as int,
                1 <= i <= k,
                0 <= min_idx < i,
                min_sc.num as int == self.score_num_at(ri, rd, min_idx as int),
                min_sc.den as int == self.score_den_at(rd, min_idx as int),
                -nb <= min_sc.num as int <= nb,
                1 <= min_sc.den as int <= db,
                forall|t: int| 0 <= t < i ==> #[trigger] self.score_le(ri, rd, min_idx as int, t),
                forall|t: int|
                    0 <= t < min_idx ==> #[trigger] self.score_lt(ri, rd, min_idx as int, t),
                has_pos == exists|t: int| 0 <= t < i && #[trigger] self.positive_at(ri, rd, t),
                has_pos ==> 0 <= pos_idx < i && self.positive_at(ri, rd, pos_idx as int)
                    && pos_sc.num as int == self.score_num_at(ri, rd, pos_idx as int)
                    && pos_sc.den as int == self.score_den_at(rd, pos_idx as int) && -nb
                    <= pos_sc.num as int <= nb && 1 <= pos_sc.den as int <= db,
                has_pos ==> forall|t: int|
                    0 <= t < i && #[trigger] self.positive_at(ri, rd, t) ==> self.score_le(
                        ri,
                        rd,
                        t,
                        pos_idx as int,
                    ),
                has_pos ==> forall|t: int|
                    0 <= t < pos_idx && #[trigger] self.positive_at(ri, rd, t) ==> self.score_lt(
                        ri,
                        rd,
                        t,
                        pos_idx as int,
                    ),
            decreases k - i,
        {
            let pi: &Perceptron = &self.perceptrons[i];
            let pri = pi.predict(input, input_den);
            let (labi, sci) = match pri {
                Ok(t) => t,
                Err(_) => {
                    proof {
                        assert(false);
                    }
                    return Err(ClassifierError::DimensionMismatch);
                },
            };
            proof {
                self.lemma_score_in_range(ri, rd, i as int, sci);
                assert(i128::MIN <= sci.num as int * min_sc.den as int <= i128::MAX
                    && i128::MIN <= min_sc.num as int * sci.den as int
                    <= i128::MAX) by (nonlinear_arith)
                    requires
                        -nb <= sci.num as int <= nb,
                        -nb <= min_sc.num as int <= nb,
                        1 <= sci.den as int <= db,
                        1 <= min_sc.den as int <= db,
                        nb == DIM_LIMIT as int * WEIGHT_LIMIT as int * VAL_LIMIT as int,
                        db == WDEN_LIMIT as int * VAL_LIMIT as int,
                ;
            }
            let ghost om = min_idx as int;
            proof {
                assert(labi == 1 <==> self.positive_at(ri, rd, i as int));
                self.lemma_score_den_pos(rd, i as int);
                self.lemma_score_den_pos(rd, om);
            }
            let replace_min: bool = sci.lt(&min_sc);
            if replace_min {
                min_idx = i;
                min_sc = sci;
            }
            proof {
                if replace_min {
                    assert(self.score_lt(ri, rd, i as int, om));
                    assert forall|t: int| 0 <= t < i as int + 1 implies #[trigger] self.score_le(
                        ri,
                        rd,
                        i as int,
                        t,
                    ) by {
                        if t < i as int {
                            assert(self.score_le(ri, rd, om, t));
                            self.lemma_score_lt_le(ri, rd, i as int, om, t);
                        } else {
                            assert(self.score_le(ri, rd, i as int, i as int));
                        }
                    }
                    assert forall|t: int| 0 <= t < i as int implies #[trigger] self.score_lt(
                        ri,
                        rd,
                        i as int,
                        t,
                    ) by {
                        assert(self.score_le(ri, rd, om, t));
                        self.lemma_score_lt_le(ri, rd, i as int, om, t);
                    }
                } else {
                    assert(self.score_le(ri, rd, om, i as int));
                    assert forall|t: int| 0 <= t < i as int + 1 implies #[trigger] self.score_le(
                        ri,
                        rd,
                        om,
                        t,
                    ) by {}
                }
            }
            if labi == 1 {
                if !has_pos {
                    has_pos = true;
                    pos_idx = i;
                    pos_sc = sci;
                    proof {
                        assert(self.positive_at(ri, rd, i as int));
                        assert forall|t: int|
                            0 <= t < i as int + 1 && #[trigger] self.positive_at(ri, rd, t)
                            implies self.score_le(ri, rd, t, i as int) by {
                            assert(t == i as int);
                            assert(self.score_le(ri, rd, i as int, i as int));
                        }
                    }
                } else {
                    proof {
                        assert(i128::MIN <= sci.num as int * pos_sc.den as int <= i128::MAX
                            && i128::MIN <= pos_sc.num as int * sci.den as int
                            <= i128::MAX) by (nonlinear_arith)
                            requires
                                -nb <= sci.num as int <= nb,
                                -nb <= pos_sc.num as int <= nb,
                                1 <= sci.den as int <= db,
                                1 <= pos_sc.den as int <= db,
                                nb == DIM_LIMIT as int * WEIGHT_LIMIT as int * VAL_LIMIT as int,
                                db == WDEN_LIMIT as int * VAL_LIMIT as int,
                        ;
                    }
                    let ghost op = pos_idx as int;
                    proof {
                        self.lemma_score_den_pos(rd, op);
                    }
                    let replace_pos: bool = pos_sc.lt(&sci);
                    if replace_pos {
                        pos_idx = i;
                        pos_sc = sci;
                    }
                    proof {
                        if replace_pos {
                            assert(self.score_lt(ri, rd, op, i as int));
                            assert forall|t: int|
                                0 <= t < i as int + 1 && #[trigger] self.positive_at(ri, rd, t)
                                implies self.score_le(ri, rd, t, i as int) by {
                                if t < i as int {
                                    assert(self.score_le(ri, rd, t, op));
                                    self.lemma_score_le_lt(ri, rd, t, op, i as int);
                                } else {
                                    assert(self.score_le(ri, rd, i as int, i as int));
                                }
                            }
                            assert forall|t: int|
                                0 <= t < i as int && #[trigger] self.positive_at(ri, rd, t)
                                implies self.score_lt(ri, rd, t, i as int) by {
                                assert(self.score_le(ri, rd, t, op));
                                self.lemma_score_le_lt(ri, rd, t, op, i as int);
                            }
                        } else {
                            assert(self.score_le(ri, rd, i as int, op));
                            assert forall|t: int|
                                0 <= t < i as int + 1 && #[trigger] self.positive_at(ri, rd, t)
                                implies self.score_le(ri, rd, t, op) by {}
                        }
                    }
                }
                proof {
                    assert(self.positive_at(ri, rd, i as int));
                }
            } else {
                proof {
                    assert(!self.positive_at(ri, rd, i as int));
                    if !has_pos {
                        assert forall|t: int| 0 <= t < i as int + 1 implies !#[trigger] self.positive_at(
                            ri,
                            rd,
                            t,
                        ) by {}
                    }
                }
            }
            i += 1;
        }
        let w: usize = if has_pos {
            pos_idx
        } else {
            min_idx
        };
        proof {
            assert(self.any_positive(ri, rd) == has_pos);
            assert(self.winner_at(ri, rd, w as int));
            self.lemma_winner_unique(ri, rd, w as int, self.the_winner(ri, rd));
            assert(self.classes@.contains(self.classes@[w as int]));
        }
        Ok(self.classes[w])
    }

    /// How many of the first `k` rows the ensemble labels exactly as the
    /// label vector says.
    pub open spec fn count_multi(
        self,
        rows: Seq<Seq<int>>,
        rden: int,
        labels: Seq<u8>,
        k: int,
    ) -> int
        decreases k,
    {
        if k <= 0 {
            0
        } else {
            self.count_multi(rows, rden, labels, k - 1) + if self.predicted_class(
                rows[k - 1],
                rden,
            ) as int == labels[k - 1] as int {
                1int
            } else {
                0int
            }
        }
    }

    /// The number of correctly classified rows lies between 0 and `k`.
    pub proof fn lemma_count_multi_bounds(
        self,
        rows: Seq<Seq<int>>,
        rden: int,
        labels: Seq<u8>,
        k: int,
    )
        requires
            k >= 0,
        ensures
            0 <= self.count_multi(rows, rden, labels, k) <= k,
        decreases k,
    {
        if k > 0 {
            self.lemma_count_multi_bounds(rows, rden, labels, k - 1);
        }
    }

    /// Normalizes the matrix, predicts every row with the full ensemble,
    /// and reports the exact fraction of rows whose predicted class
    /// equals the given multi-class label.  An empty matrix yields the
    /// defined fallback 0/1.
    pub fn validate(&self, validation_images: &Matrix, validation_labels: &Vec<u8>) -> (r: Result<
        Ratio,
        ClassifierError,
    >)
        requires
            self.wf(),
            validation_images.wf(),
        ensures
            match r {
                Ok(acc) => {
                    &&& self.classes@.len() > 0
                    &&& validation_labels@.len() == validation_images.rows@.len()
                    &&& (validation_images.rows@.len() > 0 ==> validation_images.nums()[0].len()
                        == self.num_features())
                    &&& acc.wf()
                    &&& 0 <= acc.num <= acc.den
                    &&& acc.den == if validation_images.rows@.len() == 0 {
                        1int
                    } else {
                        validation_images.rows@.len() as int
                    }
                    &&& acc.num == self.count_multi(
                        norm_rows(validation_images.nums()),
                        norm_den(validation_images.nums()),
                        validation_labels@,
                        validation_images.rows@.len() as int,
                    )
                },
                Err(ClassifierError::ConfigurationError) => self.classes@.len() == 0,
                Err(ClassifierError::DimensionMismatch) => self.classes@.len() > 0 && (
                validation_labels@.len() != validation_images.rows@.len() || (
                validation_images.rows@.len() > 0 && validation_images.nums()[0].len()
                    != self.num_features())),
            },
    {
        let k: usize = self.perceptrons.len();
        if k == 0 {
            return Err(ClassifierError::ConfigurationError);
        }
        let nrows: usize = validation_images.rows.len();
        if validation_labels.len() != nrows {
            return Err(ClassifierError::DimensionMismatch);
        }
        if nrows > 0 {
            let p0: &Perceptron = &self.perceptrons[0];
            if validation_images.rows[0].len() != p0.weights.len() {
                proof {
                    assert(validation_images.nums()[0].len()
                        == validation_images.rows@[0]@.len());
                }
                return Err(ClassifierError::DimensionMismatch);
            }
            proof {
                assert(validation_images.nums()[0].len() == validation_images.rows@[0]@.len());
            }
        }
        let normalized = Perceptron::normalize(validation_images);
        let d: i64 = normalized.den;
        let ghost rows_s = normalized.nums();
        let ghost labs = validation_labels@;
        proof {
            assert forall|t: int| 0 <= t < nrows as int implies #[trigger] rows_s[t].len()
                == self.num_features() by {
                assert(rows_s[t].len() == validation_images.nums()[t].len());
                assert(validation_images.nums()[t].len() == validation_images.nums()[0].len());
            }
        }
        let mut count: usize = 0;
        let mut idx: usize = 0;
        while idx < nrows
            invariant
                self.wf(),
                normalized.wf(),
                normalized.unit_range(),
                d == normalized.den,
                1 <= d <= VAL_LIMIT,
                rows_s == normalized.nums(),
                rows_s.len() == nrows as int,
                nrows == normalized.rows@.len(),
                nrows <= DIM_LIMIT,
                labs == validation_labels@,
                labs.len() == nrows as int,
                k == self.perceptrons@.len(),
                k == self.classes@.len(),
                k > 0,
                forall|t: int|
                    0 <= t < nrows as int ==> #[trigger] rows_s[t].len() == self.num_features(),
                0 <= idx <= nrows,
                0 <= count <= idx,
                count as int == self.count_multi(rows_s, d as int, labs, idx as int),
            decreases nrows - idx,
        {
            let row: &Vec<i64> = &normalized.rows[idx];
            proof {
                assert(rows_s[idx as int] == row_ints(row@));
                assert forall|t: int| 0 <= t < row@.len() implies 0 <= #[trigger] row@[t]
                    <= VAL_LIMIT by {
                    assert(rows_s[idx as int][t] == row@[t] as int);
                    assert(0 <= rows_s[idx as int][t] <= normalized.den as int);
                }
            }
            let pr = self.predict(row, d);
            let cls: i32 = match pr {
                Ok(t) => t,
                Err(_) => {
                    proof {
                        assert(false);
                    }
                    return Err(ClassifierError::ConfigurationError);
                },
            };
            proof {
                assert(cls == self.predicted_class(rows_s[idx as int], d as int));
            }
            if cls == (validation_labels[idx] as i32) {
                count += 1;
            }
            idx += 1;
        }
        if nrows == 0 {
            Ok(Ratio { num: 0, den: 1 })
        } else {
            proof {
                self.lemma_count_multi_bounds(rows_s, d as int, labs, nrows as int);
            }
            Ok(Ratio { num: count as i128, den: nrows as i128 })
        }
    }

    /// Relabels the given multi-class labels against the class at
    /// `class_idx` and reports that one binary sub-model's isolated
    /// accuracy on the matrix.
    pub fn validate_nth_perceptron(
        &self,
        class_idx: usize,
        validation_images: &Matrix,
        validation_labels: &Vec<u8>,
    ) -> (r: Result<Ratio, ClassifierError>)
        requires
            self.wf(),
            validation_images.wf(),
            class_idx < self.classes@.len(),
        ensures
            match r {
                Ok(acc) => {
                    &&& validation_labels@.len() == validation_images.rows@.len()
                    &&& (validation_images.rows@.len() > 0 ==> validation_images.nums()[0].len()
                        == self.num_features())
                    &&& acc.wf()
                    &&& 0 <= acc.num <= acc.den
                    &&& acc.den == if validation_images.rows@.len() == 0 {
                        1int
                    } else {
                        validation_images.rows@.len() as int
                    }
                    &&& acc.num == count_correct(
                        self.perceptrons@[class_idx as int].w_ints(),
                        norm_rows(validation_images.nums()),
                        relabel(validation_labels@, self.classes@[class_idx as int] as u8),
                        validation_images.rows@.len() as int,
                    )
                },
                Err(e) => {
                    &&& e == ClassifierError::DimensionMismatch
                    &&& (validation_labels@.len() != validation_images.rows@.len() || (
                    validation_images.rows@.len() > 0 && validation_images.nums()[0].len()
                        != self.num_features()))
                },
            },
    {
        let class_i: i32 = self.classes[class_idx];
        let targets: Vec<u8> = correct_labels(validation_labels, #[verifier::truncate] (class_i
            as u8));
        let p: &Perceptron = &self.perceptrons[class_idx];
        p.validate(validation_images, &targets)
    }

    /// A well-formed member's score on a bounded row stays inside the
    /// bounds that make cross multiplication safe.
    proof fn lemma_score_in_range(self, ri: Seq<int>, rd: int, i: int, sc: Ratio)
        requires
            self.wf(),
            0 <= i < self.perceptrons@.len(),
            1 <= rd <= VAL_LIMIT,
            ri.len() == self.perceptrons@[i].weights@.len(),
            forall|t: int| 0 <= t < ri.len() ==> 0 <= #[trigger] ri[t] <= VAL_LIMIT,
            sc.num as int == self.score_num_at(ri, rd, i),
            sc.den as int == self.score_den_at(rd, i),
        ensures
            -(DIM_LIMIT as int * WEIGHT_LIMIT as int * VAL_LIMIT as int) <= sc.num as int
                <= DIM_LIMIT as int * WEIGHT_LIMIT as int * VAL_LIMIT as int,
            1 <= sc.den as int <= WDEN_LIMIT as int * VAL_LIMIT as int,
    {
        let p = self.perceptrons@[i];
        let n = p.weights@.len() as int;
        crate::perceptron::lemma_dot_prefix_bound(
            p.w_ints(),
            ri,
            n,
            WEIGHT_LIMIT as int,
            VAL_LIMIT as int,
        );
        assert(n * WEIGHT_LIMIT as int * VAL_LIMIT as int <= DIM_LIMIT as int * WEIGHT_LIMIT as int
            * VAL_LIMIT as int) by (nonlinear_arith)
            requires
                0 <= n <= DIM_LIMIT as int,
        ;
        assert(1 <= p.wden as int * rd <= WDEN_LIMIT as int * VAL_LIMIT as int) by (nonlinear_arith)
            requires
                1 <= p.wden as int <= WDEN_LIMIT as int,
                1 <= rd <= VAL_LIMIT as int,
        ;
    }

    /// A well-formed member's score denominator is positive.
    proof fn lemma_score_den_pos(self, rd: int, i: int)
        requires
            self.wf(),
            0 <= i < self.perceptrons@.len(),
            rd >= 1,
        ensures
            self.score_den_at(rd, i) >= 1,
    {
        assert(self.perceptrons@[i].wden as int * rd >= 1) by (nonlinear_arith)
            requires
                self.perceptrons@[i].wden as int >= 1,
                rd >= 1,
        ;
    }

    /// A strictly smaller score stays strictly smaller across a `<=` step.
    proof fn lemma_score_lt_le(self, ri: Seq<int>, rd: int, a: int, b: int, t: int)
        requires
            self.wf(),
            rd >= 1,
            0 <= a < self.perceptrons@.len(),
            0 <= b < self.perceptrons@.len(),
            0 <= t < self.perceptrons@.len(),
            self.score_lt(ri, rd, a, b),
            self.score_le(ri, rd, b, t),
        ensures
            self.score_lt(ri, rd, a, t),
            self.score_le(ri, rd, a, t),
    {
        self.lemma_score_den_pos(rd, a);
        self.lemma_score_den_pos(rd, b);
        self.lemma_score_den_pos(rd, t);
        crate::rat::lemma_frac_lt_le(
            self.score_num_at(ri, rd, a),
            self.score_den_at(rd, a),
            self.score_num_at(ri, rd, b),
            self.score_den_at(rd, b),
            self.score_num_at(ri, rd, t),
            self.score_den_at(rd, t),
        );
    }

    /// A `<=` step followed by a strictly smaller score stays strict.
    proof fn lemma_score_le_lt(self, ri: Seq<int>, rd: int, a: int, b: int, t: int)
        requires
            self.wf(),
            rd >= 1,
            0 <= a < self.perceptrons@.len(),
            0 <= b < self.perceptrons@.len(),
            0 <= t < self.perceptrons@.len(),
            self.score_le(ri, rd, a, b),
            self.score_lt(ri, rd, b, t),
        ensures
            self.score_lt(ri, rd, a, t),
            self.score_le(ri, rd, a, t),
    {
        self.lemma_score_den_pos(rd, a);
        self.lemma_score_den_pos(rd, b);
        self.lemma_score_den_pos(rd, t);
        crate::rat::lemma_frac_le_lt(
            self.score_num_at(ri, rd, a),
            self.score_den_at(rd, a),
            self.score_num_at(ri, rd, b),
            self.score_den_at(rd, b),
            self.score_num_at(ri, rd, t),
            self.score_den_at(rd, t),
        );
    }
}

} // verus!
