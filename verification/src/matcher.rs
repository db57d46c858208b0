//! Selection of the candidate that is closest to a cell, with a bias toward
//! the blank.
//!
//! Dissimilarities are whole numbers of some unit that is the same for all
//! the scores of one cell: 0 for a perfect match, more for a greater
//! difference. The blank competes with its dissimilarity divided by the
//! space bias, every other candidate with its dissimilarity as it is. The
//! least value wins; among equal values the blank wins before every other
//! candidate, and an earlier candidate before a later one.

use vstd::prelude::*;

verus! {

/// A ratio of two whole numbers, `num / den`.
pub struct Ratio {
    pub num: nat,
    pub den: nat,
}

impl Ratio {
    /// Whether both terms are positive.
    pub open spec fn positive(self) -> bool {
        self.num > 0 && self.den > 0
    }

    /// `self <= other`, for positive ratios.
    pub open spec fn at_most(self, other: Ratio) -> bool {
        self.num * other.den <= other.num * self.den
    }

    /// `self < other`, for positive ratios.
    pub open spec fn below(self, other: Ratio) -> bool {
        self.num * other.den < other.num * self.den
    }
}

/// Whether a candidate of dissimilarity `score` is strictly closer than the
/// blank of dissimilarity `space`: `score < space / bias`.
pub open spec fn beats_space(score: nat, space: nat, bias: Ratio) -> bool {
    score * bias.num < space * bias.den
}

/// Whether `choice` is the winner among the blank, of dissimilarity `space`,
/// and the candidates, of dissimilarities `scores` in their order: `None`
/// for the blank, `Some(i)` for candidate `i`.
pub open spec fn is_choice(space: nat, scores: Seq<u64>, bias: Ratio, choice: Option<int>) -> bool {
    match choice {
        None => forall|j: int|
            0 <= j < scores.len() ==> !beats_space(#[trigger] scores[j] as nat, space, bias),
        Some(i) => {
            &&& 0 <= i < scores.len()
            &&& beats_space(scores[i] as nat, space, bias)
            &&& forall|j: int| 0 <= j < i ==> scores[i] < #[trigger] scores[j]
            &&& forall|j: int| i < j < scores.len() ==> scores[i] <= #[trigger] scores[j]
        },
    }
}

/// There is one winner only.
pub proof fn lemma_choice_unique(
    space: nat,
    scores: Seq<u64>,
    bias: Ratio,
    first: Option<int>,
    second: Option<int>,
)
    requires
        is_choice(space, scores, bias, first),
        is_choice(space, scores, bias, second),
    ensures
        first == second,
{
    match (first, second) {
        (Some(i), Some(j)) => {
            if i < j {
                assert(scores[j] < scores[i]);
            } else if j < i {
                assert(scores[i] < scores[j]);
            }
        },
        (Some(i), None) => {
            assert(!beats_space(scores[i] as nat, space, bias));
        },
        (None, Some(j)) => {
            assert(!beats_space(scores[j] as nat, space, bias));
        },
        (None, None) => {},
    }
}

/// The outcome does not depend on the unit in which dissimilarities are
/// counted.
pub proof fn lemma_unit_free(score: nat, space: nat, bias: Ratio, unit: nat)
    requires
        unit > 0,
    ensures
        beats_space(score * unit, space * unit, bias) == beats_space(score, space, bias),
{
    let a = score * bias.num;
    let b = space * bias.den;
    assert((score * unit) * bias.num == a * unit && (space * unit) * bias.den == b * unit)
        by (nonlinear_arith)
        requires
            a == score * bias.num,
            b == space * bias.den,
    ;
    assert((a * unit < b * unit) == (a < b)) by (nonlinear_arith)
        requires
            unit > 0,
    ;
}

/// A space bias of 1 leaves the comparison as it is: a candidate beats the
/// blank exactly where its dissimilarity is the lower one.
pub proof fn lemma_neutral_bias(score: nat, space: nat, bias: Ratio)
    requires
        bias.positive(),
        bias.num == bias.den,
    ensures
        beats_space(score, space, bias) == (score < space),
{
    assert((score * bias.num < space * bias.num) == (score < space)) by (nonlinear_arith)
        requires
            bias.num > 0,
    ;
}

/// A greater space bias keeps the blank wherever a lesser one keeps it: the
/// range of dissimilarities of the blank for which it is chosen over a given
/// rival does not shrink.
pub proof fn lemma_bias_widens(score: nat, space: nat, lesser: Ratio, greater: Ratio)
    requires
        lesser.positive(),
        greater.positive(),
        lesser.at_most(greater),
        !beats_space(score, space, lesser),
    ensures
        !beats_space(score, space, greater),
{
    assert(space * greater.den <= score * greater.num) by (nonlinear_arith)
        requires
            space * lesser.den <= score * lesser.num,
            lesser.num * greater.den <= greater.num * lesser.den,
            lesser.num > 0,
            lesser.den > 0,
            greater.num > 0,
            greater.den > 0,
    ;
}

/// A greater space bias strictly widens that range, for every rival that is
/// not a perfect match: the dissimilarity that this function names keeps the
/// blank under the greater bias and loses it under the lesser. It is the
/// upper end of the range under the greater bias, `score * greater`, which
/// is a whole number once dissimilarities are counted in a unit
/// `greater.den` times finer.
pub proof fn lemma_bias_widens_strictly(score: nat, lesser: Ratio, greater: Ratio) -> (space: nat)
    requires
        lesser.positive(),
        greater.positive(),
        lesser.below(greater),
        score > 0,
    ensures
        space == score * greater.num,
        !beats_space(score * greater.den, space, greater),
        beats_space(score * greater.den, space, lesser),
{
    let space = score * greater.num;
    assert((score * greater.den) * greater.num == (score * greater.num) * greater.den)
        by (nonlinear_arith);
    assert((score * greater.den) * lesser.num < (score * greater.num) * lesser.den)
        by (nonlinear_arith)
        requires
            lesser.num * greater.den < greater.num * lesser.den,
            score > 0,
    ;
    space
}

/// A perfect match wins over a blank that is not one itself, whatever the
/// space bias, unless an earlier candidate is a perfect match too.
pub proof fn lemma_perfect_match_wins(space: nat, scores: Seq<u64>, bias: Ratio, i: int)
    requires
        bias.positive(),
        0 <= i < scores.len(),
        scores[i] == 0,
        space > 0,
        forall|j: int| 0 <= j < i ==> scores[j] > 0,
    ensures
        is_choice(space, scores, bias, Some(i)),
{
    assert(0 * bias.num == 0) by (nonlinear_arith);
    assert(0 < space * bias.den) by (nonlinear_arith)
        requires
            space > 0,
            bias.den > 0,
    ;
}

/// How strongly the blank is favoured: a positive ratio. Its dissimilarity
/// is divided by this ratio before it is compared.
#[derive(Clone, Copy, Debug)]
pub struct SpaceBias {
    numerator: u32,
    denominator: u32,
}

impl View for SpaceBias {
    type V = Ratio;

    closed spec fn view(&self) -> Ratio {
        Ratio { num: self.numerator as nat, den: self.denominator as nat }
    }
}

impl SpaceBias {
    #[verifier::type_invariant]
    spec fn is_positive(&self) -> bool {
        self.numerator > 0 && self.denominator > 0
    }

    /// The bias `numerator / denominator`, where both are positive.
    pub fn new(numerator: u32, denominator: u32) -> (made: Option<SpaceBias>)
        ensures
            made is Some <==> numerator > 0 && denominator > 0,
            made matches Some(bias) ==> bias@ == (Ratio {
                num: numerator as nat,
                den: denominator as nat,
            }),
    {
        if numerator > 0 && denominator > 0 {
            Some(SpaceBias { numerator, denominator })
        } else {
            None
        }
    }

    /// The bias 1, which favours nothing.
    pub fn neutral() -> (bias: SpaceBias)
        ensures
            bias@ == (Ratio { num: 1, den: 1 }),
    {
        SpaceBias { numerator: 1, denominator: 1 }
    }

    /// The upper term of the ratio.
    pub fn numerator(&self) -> (numerator: u32)
        ensures
            numerator == self@.num,
            self@.positive(),
    {
        proof {
            use_type_invariant(self);
        }
        self.numerator
    }

    /// The lower term of the ratio.
    pub fn denominator(&self) -> (denominator: u32)
        ensures
            denominator == self@.den,
            self@.positive(),
    {
        proof {
            use_type_invariant(self);
        }
        self.denominator
    }
}

/// Finds the winner among the blank and the candidates.
pub fn select(space_score: u64, scores: &Vec<u64>, bias: SpaceBias) -> (choice: Option<usize>)
    ensures
        match choice {
            None => is_choice(space_score as nat, scores@, bias@, None),
            Some(i) => is_choice(space_score as nat, scores@, bias@, Some(i as int)),
        },
{
    let numerator = bias.numerator();
    let denominator = bias.denominator();
    proof {
        assert(space_score * denominator <= 0xFFFF_FFFF_FFFF_FFFF * 0xFFFF_FFFF)
            by (nonlinear_arith)
            requires
                space_score <= 0xFFFF_FFFF_FFFF_FFFF,
                denominator <= 0xFFFF_FFFF,
        ;
    }
    let space_side: u128 = (space_score as u128) * (denominator as u128);
    let mut best: Option<usize> = None;
    let mut best_score: u64 = 0;
    let mut k: usize = 0;
    while k < scores.len()
        invariant
            k <= scores@.len(),
            bias@.positive(),
            numerator == bias@.num,
            denominator == bias@.den,
            space_side == space_score * denominator,
            best matches Some(b) ==> b < k && best_score == scores@[b as int],
            match best {
                None => is_choice(space_score as nat, scores@.take(k as int), bias@, None),
                Some(b) => is_choice(
                    space_score as nat,
                    scores@.take(k as int),
                    bias@,
                    Some(b as int),
                ),
            },
        decreases scores@.len() - k,
    {
        let score = scores[k];
        proof {
            assert(score * numerator <= 0xFFFF_FFFF_FFFF_FFFF * 0xFFFF_FFFF) by (nonlinear_arith)
                requires
                    score <= 0xFFFF_FFFF_FFFF_FFFF,
                    numerator <= 0xFFFF_FFFF,
            ;
        }
        let closer = match best {
            None => (score as u128) * (numerator as u128) < space_side,
            Some(_) => score < best_score,
        };
        let ghost before = scores@.take(k as int);
        let ghost after = scores@.take(k + 1);
        proof {
            assert(after.len() == k + 1);
            assert forall|j: int| 0 <= j < k implies #[trigger] after[j] == before[j] by {}
            assert(after[k as int] == score);
        }
        if closer {
            proof {
                match best {
                    None => {
                        assert forall|j: int| 0 <= j < k implies score < #[trigger] after[j] by {
                            let other = before[j];
                            assert(after[j] == other);
                            assert(!beats_space(other as nat, space_score as nat, bias@));
                            assert(score < other) by (nonlinear_arith)
                                requires
                                    score * numerator < other * numerator,
                                    numerator > 0,
                            ;
                        }
                    },
                    Some(b) => {
                        assert(before[b as int] == best_score);
                        assert(beats_space(score as nat, space_score as nat, bias@))
                            by (nonlinear_arith)
                            requires
                                score < best_score,
                                beats_space(best_score as nat, space_score as nat, bias@),
                        ;
                        assert forall|j: int| 0 <= j < k implies score < #[trigger] after[j] by {
                            assert(before[j] == after[j]);
                            if j < b {
                                assert(best_score < before[j]);
                            } else if j > b {
                                assert(best_score <= before[j]);
                            }
                        }
                    },
                }
                assert(is_choice(space_score as nat, after, bias@, Some(k as int)));
            }
            best = Some(k);
            best_score = score;
        } else {
            proof {
                match best {
                    None => {
                        assert(is_choice(space_score as nat, after, bias@, None));
                    },
                    Some(b) => {
                        assert(before[b as int] == best_score);
                        assert forall|j: int| b < j < after.len() implies after[b as int]
                            <= #[trigger] after[j] by {
                            if j < k {
                                assert(before[j] == after[j]);
                            }
                        }
                        assert forall|j: int| 0 <= j < b implies after[b as int]
                            < #[trigger] after[j] by {
                            assert(before[j] == after[j]);
                        }
                        assert(is_choice(space_score as nat, after, bias@, Some(b as int)));
                    },
                }
            }
        }
        k = k + 1;
    }
    proof {
        assert(scores@.take(k as int) == scores@);
    }
    best
}

} // verus!
