//! Selection of one eigenstate among candidates, and the decomposition of its form value into
//! named components.

use crate::config::CcmParity;
use crate::error::CcmError;
use crate::float::HpFloat;
use crate::matrix::{
    all_finite, copy_values, flat_index, is_all_finite, lemma_build_ends, lemma_extend, vals,
};
use crate::order::{comparable, law_order_is_total, law_order_is_transitive};
use crate::rounding::{hp_word, HpValue};
use crate::tridiagonal::is_square_of;
use vstd::prelude::*;

verus! {

/// How a state is chosen.
#[derive(Clone, Copy, Debug, PartialEq, Eq, Structural)]
pub enum CcmStateCriterion {
    AlgebraicGround,
    SmallestPositive,
    NearestZero,
}

/// Which state is asked for.
#[derive(Clone, Copy, Debug, PartialEq, Eq, Structural)]
pub enum CcmStateTarget {
    AlgebraicGround,
    SmallestPositive,
    NearestZero,
    ParityRestricted { parity: CcmParity, criterion: CcmStateCriterion },
}

impl CcmStateTarget {
    pub open spec fn criterion_of(self) -> CcmStateCriterion {
        match self {
            CcmStateTarget::AlgebraicGround => CcmStateCriterion::AlgebraicGround,
            CcmStateTarget::SmallestPositive => CcmStateCriterion::SmallestPositive,
            CcmStateTarget::NearestZero => CcmStateCriterion::NearestZero,
            CcmStateTarget::ParityRestricted { parity: _, criterion } => criterion,
        }
    }

    /// Whether a parity is admitted.
    pub open spec fn admits(self, p: CcmParity) -> bool {
        self matches CcmStateTarget::ParityRestricted { parity, .. } ==> p == parity
    }
}

/// A state to choose from.
#[derive(Debug)]
pub struct CcmStateCandidateHp {
    pub algebraic_index: usize,
    pub eigenvalue: HpFloat,
    pub eigenvector: Vec<HpFloat>,
    pub parity: CcmParity,
}

/// A candidate, as mathematics.
pub struct CandidateView {
    pub index: nat,
    pub eigenvalue: HpValue,
    pub eigenvector: Seq<HpValue>,
    pub parity: CcmParity,
}

impl View for CcmStateCandidateHp {
    type V = CandidateView;

    open spec fn view(&self) -> CandidateView {
        CandidateView {
            index: self.algebraic_index as nat,
            eigenvalue: self.eigenvalue@,
            eigenvector: vals(self.eigenvector@),
            parity: self.parity,
        }
    }
}

pub open spec fn candidates_of(s: Seq<CcmStateCandidateHp>) -> Seq<CandidateView> {
    Seq::new(s.len(), |i: int| s[i]@)
}

/// The chosen state.
#[derive(Debug)]
pub struct SelectedCcmStateHp {
    pub requested_target: CcmStateTarget,
    pub algebraic_index: usize,
    pub eigenvalue: HpFloat,
    pub eigenvector: Vec<HpFloat>,
    pub parity: CcmParity,
}

/// Whether a candidate can be looked at: a finite value and a finite, nonempty vector.
pub open spec fn sound(c: CandidateView) -> bool {
    c.eigenvector.len() > 0 && c.eigenvalue.is_finite() && all_finite(c.eigenvector)
}

pub open spec fn all_sound(s: Seq<CandidateView>) -> bool {
    forall|i: int| 0 <= i < s.len() ==> sound(#[trigger] s[i])
}

/// Whether a candidate is eligible for a target.
pub open spec fn eligible(c: CandidateView, target: CcmStateTarget) -> bool {
    target.admits(c.parity) && (target.criterion_of() is SmallestPositive ==> hp_word(0).lt(
        c.eigenvalue,
    ))
}

/// What is minimised.
pub open spec fn score(c: CandidateView, criterion: CcmStateCriterion) -> HpValue {
    if criterion is NearestZero {
        c.eigenvalue.abs()
    } else {
        c.eigenvalue
    }
}

/// Outcome of looking through candidates.
pub enum StateChoice {
    Nothing,
    Chosen(int),
    Ambiguous,
}

/// The choice among the first `n` candidates: an eligible one replaces a larger one, and
/// meeting an equal one is ambiguous.
pub open spec fn choice(s: Seq<CandidateView>, target: CcmStateTarget, n: nat) -> StateChoice
    decreases n,
{
    if n == 0 {
        StateChoice::Nothing
    } else {
        let before = choice(s, target, (n - 1) as nat);
        let x = score(s[n - 1], target.criterion_of());
        if before is Ambiguous || !eligible(s[n - 1], target) {
            before
        } else {
            match before {
                StateChoice::Chosen(i) => {
                    let y = score(s[i], target.criterion_of());
                    if x.lt(y) {
                        StateChoice::Chosen(n - 1)
                    } else if x.eqv(y) {
                        StateChoice::Ambiguous
                    } else {
                        before
                    }
                },
                _ => StateChoice::Chosen(n - 1),
            }
        }
    }
}

proof fn lemma_ambiguity_stays(s: Seq<CandidateView>, target: CcmStateTarget, n: nat, total: nat)
    requires
        n <= total,
        choice(s, target, n) is Ambiguous,
    ensures
        choice(s, target, total) is Ambiguous,
    decreases total,
{
    if n < total {
        lemma_ambiguity_stays(s, target, n, (total - 1) as nat);
    }
}

/// What is said where no state is chosen, or `None` where one is.
pub open spec fn selection_refusal(s: Seq<CandidateView>, target: CcmStateTarget) -> Option<
    Seq<char>,
> {
    if s.len() == 0 || !all_sound(s) {
        Some("CCM state selection requires finite nonempty eigenpairs"@)
    } else {
        match choice(s, target, s.len()) {
            StateChoice::Nothing => Some("requested CCM state target has no eligible candidate"@),
            StateChoice::Ambiguous => Some(
                "requested CCM state target is ambiguous at the selected boundary"@,
            ),
            StateChoice::Chosen(_) => None,
        }
    }
}

fn is_sound(c: &CcmStateCandidateHp) -> (r: bool)
    ensures
        r == sound(c@),
{
    c.eigenvector.len() > 0 && c.eigenvalue.is_finite() && is_all_finite(&c.eigenvector)
}

fn are_all_sound(s: &Vec<CcmStateCandidateHp>) -> (r: bool)
    ensures
        r == all_sound(candidates_of(s@)),
{
    let mut i: usize = 0;
    while i < s.len()
        invariant
            i <= s.len(),
            forall|k: int| 0 <= k < i ==> sound(#[trigger] candidates_of(s@)[k]),
        decreases s.len() - i,
    {
        if !is_sound(&s[i]) {
            assert(!sound(candidates_of(s@)[i as int]));
            return false;
        }
        i = i + 1;
    }
    true
}

fn criterion_for(target: CcmStateTarget) -> (r: CcmStateCriterion)
    ensures
        r == target.criterion_of(),
{
    match target {
        CcmStateTarget::AlgebraicGround => CcmStateCriterion::AlgebraicGround,
        CcmStateTarget::SmallestPositive => CcmStateCriterion::SmallestPositive,
        CcmStateTarget::NearestZero => CcmStateCriterion::NearestZero,
        CcmStateTarget::ParityRestricted { parity: _, criterion } => criterion,
    }
}

fn is_eligible(c: &CcmStateCandidateHp, target: CcmStateTarget) -> (r: bool)
    ensures
        r == eligible(c@, target),
{
    let admitted: bool = match target {
        CcmStateTarget::ParityRestricted { parity, criterion: _ } => c.parity == parity,
        _ => true,
    };
    let wanted: bool = match criterion_for(target) {
        CcmStateCriterion::SmallestPositive => HpFloat::from_i64(64, 0).lt(&c.eigenvalue),
        _ => true,
    };
    admitted && wanted
}

fn score_of(c: &CcmStateCandidateHp, criterion: CcmStateCriterion) -> (r: HpFloat)
    ensures
        r@ == score(c@, criterion),
{
    match criterion {
        CcmStateCriterion::NearestZero => c.eigenvalue.abs(),
        _ => c.eigenvalue.clone(),
    }
}

/// Chooses the state that a target asks for.
pub fn select_ccm_state_hp(target: CcmStateTarget, candidates: &Vec<CcmStateCandidateHp>) -> (r:
    Result<SelectedCcmStateHp, CcmError>)
    ensures
        match r {
            Ok(x) => {
                let s = candidates_of(candidates@);
                &&& selection_refusal(s, target) is None
                &&& x.requested_target == target
                &&& (CandidateView {
                    index: x.algebraic_index as nat,
                    eigenvalue: x.eigenvalue@,
                    eigenvector: vals(x.eigenvector@),
                    parity: x.parity,
                }) == s[choice(s, target, s.len())->Chosen_0]
            },
            Err(e) => e is Refused && selection_refusal(candidates_of(candidates@), target) == Some(
                e.text(),
            ),
        },
{
    let ghost s = candidates_of(candidates@);
    if candidates.len() == 0 || !are_all_sound(candidates) {
        return Err(CcmError::refused("CCM state selection requires finite nonempty eigenpairs"));
    }
    let criterion: CcmStateCriterion = criterion_for(target);
    let mut chosen: Option<usize> = None;
    let mut i: usize = 0;
    while i < candidates.len()
        invariant
            i <= candidates.len(),
            s == candidates_of(candidates@),
            s.len() > 0,
            all_sound(s),
            criterion == target.criterion_of(),
            chosen matches Some(k) ==> k < i,
            choice(s, target, i as nat) == (match chosen {
                None => StateChoice::Nothing,
                Some(k) => StateChoice::Chosen(k as int),
            }),
        decreases candidates.len() - i,
    {
        assert(s[i as int] == candidates@[i as int]@);
        if is_eligible(&candidates[i], target) {
            match chosen {
                None => {
                    chosen = Some(i);
                },
                Some(k) => {
                    assert(s[k as int] == candidates@[k as int]@);
                    let x: HpFloat = score_of(&candidates[i], criterion);
                    let y: HpFloat = score_of(&candidates[k], criterion);
                    if x.lt(&y) {
                        chosen = Some(i);
                    } else if x.eqv(&y) {
                        proof {
                            lemma_ambiguity_stays(s, target, (i + 1) as nat, s.len());
                        }
                        return Err(
                            CcmError::refused(
                                "requested CCM state target is ambiguous at the selected boundary",
                            ),
                        );
                    }
                },
            }
        }
        i = i + 1;
    }
    match chosen {
        None => Err(CcmError::refused("requested CCM state target has no eligible candidate")),
        Some(k) => {
            assert(s[k as int] == candidates@[k as int]@);
            let c: &CcmStateCandidateHp = &candidates[k];
            Ok(
                SelectedCcmStateHp {
                    requested_target: target,
                    algebraic_index: c.algebraic_index,
                    eigenvalue: c.eigenvalue.clone(),
                    eigenvector: copy_values(&c.eigenvector),
                    parity: c.parity,
                },
            )
        },
    }
}

/// The chosen state is eligible, and every other eligible candidate has a strictly larger
/// score.
pub proof fn law_chosen_state_is_least(s: Seq<CandidateView>, target: CcmStateTarget, n: nat)
    requires
        n <= s.len(),
        forall|i: int|
            0 <= i < s.len() ==> comparable(#[trigger] score(s[i], target.criterion_of())),
    ensures
        choice(s, target, n) matches StateChoice::Chosen(i) ==> {
            &&& 0 <= i < n
            &&& eligible(s[i], target)
            &&& forall|j: int|
                0 <= j < n && j != i && eligible(s[j], target) ==> score(
                    s[i],
                    target.criterion_of(),
                ).lt(#[trigger] score(s[j], target.criterion_of()))
        },
        choice(s, target, n) is Nothing ==> forall|j: int|
            0 <= j < n ==> !eligible(#[trigger] s[j], target),
    decreases n,
{
    if n > 0 {
        law_chosen_state_is_least(s, target, (n - 1) as nat);
        let c = target.criterion_of();
        match choice(s, target, (n - 1) as nat) {
            StateChoice::Chosen(i) => {
                let x = score(s[n - 1], c);
                let y = score(s[i], c);
                law_order_is_total(x, y);
                assert forall|j: int|
                    0 <= j < n && j != i && eligible(s[j], target) && x.lt(y) implies j == n - 1
                    || x.lt(#[trigger] score(s[j], c)) by {
                    if j < n - 1 {
                        law_order_is_transitive(x, y, score(s[j], c));
                    }
                }
            },
            _ => {},
        }
    }
}

/// Named parts of the form.
#[derive(Clone, Copy, Debug, PartialEq, Eq, Hash, Structural)]
pub enum CcmFormComponentKind {
    Archimedean,
    Prime,
    Pole,
    Other,
}

/// One part of the form: its matrix, and its sign in the total.
#[derive(Debug)]
pub struct CcmFormComponentMatrixHp {
    pub kind: CcmFormComponentKind,
    pub signed_coefficient: i32,
    pub matrix_row_major: Vec<HpFloat>,
}

/// One part of a form value.
#[derive(Debug)]
pub struct CcmFormComponentValueHp {
    pub kind: CcmFormComponentKind,
    pub signed_coefficient: i32,
    pub rayleigh_value: HpFloat,
    pub signed_contribution: HpFloat,
}

/// A form value and its parts.
#[derive(Debug)]
pub struct CcmFormDecompositionHp {
    pub total_value: HpFloat,
    pub reconstructed_total: HpFloat,
    pub cancellation_residual: HpFloat,
    pub components: Vec<CcmFormComponentValueHp>,
}

/// How many of the first `n` components have a kind.
pub open spec fn count_of(s: Seq<CcmFormComponentMatrixHp>, kind: CcmFormComponentKind, n: nat) -> nat
    decreases n,
{
    if n == 0 {
        0
    } else {
        count_of(s, kind, (n - 1) as nat) + if s[n - 1].kind == kind {
            1nat
        } else {
            0
        }
    }
}

/// Whether every kind occurs once.
pub open spec fn each_kind_once(s: Seq<CcmFormComponentMatrixHp>) -> bool {
    &&& count_of(s, CcmFormComponentKind::Archimedean, s.len()) == 1
    &&& count_of(s, CcmFormComponentKind::Prime, s.len()) == 1
    &&& count_of(s, CcmFormComponentKind::Pole, s.len()) == 1
    &&& count_of(s, CcmFormComponentKind::Other, s.len()) == 1
}

/// Whether a component has a sign and a finite square matrix.
pub open spec fn component_holds(c: CcmFormComponentMatrixHp, dim: int) -> bool {
    c.signed_coefficient != 0 && c.matrix_row_major@.len() == dim * dim && all_finite(
        vals(c.matrix_row_major@),
    )
}

/// Words that refuse a decomposition; `None` where it can be evaluated.
pub open spec fn decomposition_refusal(
    total: Seq<HpValue>,
    components: Seq<CcmFormComponentMatrixHp>,
    vector: Seq<HpValue>,
    p: nat,
) -> Option<Seq<char>> {
    let dim = vector.len() as int;
    if p < 64 || dim == 0 || total.len() != dim * dim || !all_finite(vector) {
        Some("invalid CCM form-decomposition dimensions or precision"@)
    } else if !each_kind_once(components) {
        Some("CCM form decomposition requires each named component exactly once"@)
    } else if !(forall|i: int|
        0 <= i < components.len() ==> component_holds(#[trigger] components[i], dim)) {
        Some("CCM form components require finite square matrices and nonzero signs"@)
    } else {
        None
    }
}

fn count_kind(s: &Vec<CcmFormComponentMatrixHp>, kind: CcmFormComponentKind) -> (r: usize)
    ensures
        r == count_of(s@, kind, s@.len()),
{
    let mut n: usize = 0;
    let mut i: usize = 0;
    while i < s.len()
        invariant
            i <= s.len(),
            n <= i,
            n == count_of(s@, kind, i as nat),
        decreases s.len() - i,
    {
        if s[i].kind == kind {
            n = n + 1;
        }
        i = i + 1;
    }
    n
}

fn components_hold(s: &Vec<CcmFormComponentMatrixHp>, dim: usize) -> (r: bool)
    ensures
        r == (forall|i: int| 0 <= i < s@.len() ==> component_holds(#[trigger] s@[i], dim as int)),
{
    let mut i: usize = 0;
    while i < s.len()
        invariant
            i <= s.len(),
            forall|k: int| 0 <= k < i ==> component_holds(#[trigger] s@[k], dim as int),
        decreases s.len() - i,
    {
        if s[i].signed_coefficient == 0 || !is_square_of(s[i].matrix_row_major.len(), dim)
            || !is_all_finite(&s[i].matrix_row_major) {
            assert(!component_holds(s@[i as int], dim as int));
            return false;
        }
        i = i + 1;
    }
    true
}

/// Checks that a decomposition can be evaluated.
pub fn check_form_components(
    total_matrix_row_major: &Vec<HpFloat>,
    components: &Vec<CcmFormComponentMatrixHp>,
    vector: &Vec<HpFloat>,
    precision_bits: u32,
) -> (r: Result<(), CcmError>)
    ensures
        match r {
            Ok(_) => decomposition_refusal(
                vals(total_matrix_row_major@),
                components@,
                vals(vector@),
                precision_bits as nat,
            ) is None,
            Err(e) => e is Refused && decomposition_refusal(
                vals(total_matrix_row_major@),
                components@,
                vals(vector@),
                precision_bits as nat,
            ) == Some(e.text()),
        },
{
    let dim: usize = vector.len();
    if precision_bits < 64 || dim == 0 || !is_square_of(total_matrix_row_major.len(), dim)
        || !is_all_finite(vector) {
        return Err(CcmError::refused("invalid CCM form-decomposition dimensions or precision"));
    }
    if count_kind(components, CcmFormComponentKind::Archimedean) != 1 || count_kind(
        components,
        CcmFormComponentKind::Prime,
    ) != 1 || count_kind(components, CcmFormComponentKind::Pole) != 1 || count_kind(
        components,
        CcmFormComponentKind::Other,
    ) != 1 {
        return Err(
            CcmError::refused("CCM form decomposition requires each named component exactly once"),
        );
    }
    if !components_hold(components, dim) {
        return Err(
            CcmError::refused(
                "CCM form components require finite square matrices and nonzero signs",
            ),
        );
    }
    Ok(())
}

/// Products of a row of a matrix and a vector, at a precision.
pub open spec fn applied_terms(m: Seq<HpValue>, v: Seq<HpValue>, row: int, p: nat) -> Seq<HpValue> {
    Seq::new(v.len(), |column: int| m[row * v.len() + column].at(p).times(v[column]))
}

/// The terms whose sum is one entry of a matrix applied to a vector.
pub fn form_row_terms(matrix: &Vec<HpFloat>, vector: &Vec<HpFloat>, row: usize, precision_bits: u32) -> (r:
    Vec<HpFloat>)
    requires
        precision_bits >= 1,
        matrix@.len() == vector@.len() * vector@.len(),
        row < vector.len(),
    ensures
        vals(r@) == applied_terms(vals(matrix@), vals(vector@), row as int, precision_bits as nat),
{
    let ghost goal = applied_terms(
        vals(matrix@),
        vals(vector@),
        row as int,
        precision_bits as nat,
    );
    let dim: usize = vector.len();
    let mut out: Vec<HpFloat> = Vec::with_capacity(dim);
    let mut column: usize = 0;
    proof {
        lemma_build_ends(goal);
    }
    while column < dim
        invariant
            column <= dim,
            dim == vector.len(),
            precision_bits >= 1,
            matrix@.len() == dim * dim,
            row < dim,
            out.len() == column,
            goal == applied_terms(
                vals(matrix@),
                vals(vector@),
                row as int,
                precision_bits as nat,
            ),
            vals(out@) == goal.take(column as int),
        decreases dim - column,
    {
        let k: usize = flat_index(dim, row, column, matrix.len());
        let x: HpFloat = matrix[k].at(precision_bits).times(&vector[column]);
        proof {
            lemma_extend(out@, x, goal);
        }
        out.push(x);
        column = column + 1;
    }
    proof {
        lemma_build_ends(goal);
    }
    out
}

/// Products of two vectors, entry by entry, at a precision.
pub open spec fn paired_terms(a: Seq<HpValue>, b: Seq<HpValue>, p: nat) -> Seq<HpValue> {
    Seq::new(a.len(), |i: int| a[i].at(p).times(b[i]))
}

/// The terms whose sum is an inner product: of a vector and its image for the numerator of a
/// Rayleigh quotient, of a vector and itself for the denominator.
pub fn inner_product_terms(left: &Vec<HpFloat>, right: &Vec<HpFloat>, precision_bits: u32) -> (r:
    Vec<HpFloat>)
    requires
        precision_bits >= 1,
        left.len() == right.len(),
    ensures
        vals(r@) == paired_terms(vals(left@), vals(right@), precision_bits as nat),
{
    let ghost goal = paired_terms(vals(left@), vals(right@), precision_bits as nat);
    let mut out: Vec<HpFloat> = Vec::with_capacity(left.len());
    let mut i: usize = 0;
    proof {
        lemma_build_ends(goal);
    }
    while i < left.len()
        invariant
            i <= left.len(),
            left.len() == right.len(),
            precision_bits >= 1,
            out.len() == i,
            goal == paired_terms(vals(left@), vals(right@), precision_bits as nat),
            vals(out@) == goal.take(i as int),
        decreases left.len() - i,
    {
        let x: HpFloat = left[i].at(precision_bits).times(&right[i]);
        proof {
            lemma_extend(out@, x, goal);
        }
        out.push(x);
        i = i + 1;
    }
    proof {
        lemma_build_ends(goal);
    }
    out
}

/// Sums of the terms of a Rayleigh quotient.
#[derive(Debug)]
pub struct RayleighSums {
    pub numerator: HpFloat,
    pub denominator: HpFloat,
}

/// A Rayleigh quotient; `None` where the norm is not positive.
pub open spec fn quotient(numerator: HpValue, denominator: HpValue, p: nat) -> Option<HpValue> {
    if denominator.le(hp_word(0)) {
        None
    } else {
        Some(numerator.over(denominator).at(p))
    }
}

/// A Rayleigh quotient from the sums of its terms.
pub fn rayleigh_quotient(sums: &RayleighSums, precision_bits: u32) -> (r: Result<HpFloat, CcmError>)
    requires
        precision_bits >= 1,
    ensures
        match r {
            Ok(v) => quotient(sums.numerator@, sums.denominator@, precision_bits as nat) == Some(
                v@,
            ),
            Err(e) => quotient(sums.numerator@, sums.denominator@, precision_bits as nat) is None
                && e.refuses("CCM form-decomposition vector has nonpositive norm"@),
        },
{
    if sums.denominator.le(&HpFloat::from_i64(64, 0)) {
        return Err(CcmError::refused("CCM form-decomposition vector has nonpositive norm"));
    }
    Ok(sums.numerator.over(&sums.denominator).at(precision_bits))
}

/// Whether a component value is what its sums give.
pub open spec fn component_value_holds(
    x: CcmFormComponentValueHp,
    c: CcmFormComponentMatrixHp,
    s: RayleighSums,
    p: nat,
) -> bool {
    &&& x.kind == c.kind
    &&& x.signed_coefficient == c.signed_coefficient
    &&& quotient(s.numerator@, s.denominator@, p) == Some(x.rayleigh_value@)
    &&& x.signed_contribution@ == x.rayleigh_value@.at(p).times(
        hp_word(c.signed_coefficient as int),
    )
}

/// Whether every quotient has a positive norm.
pub open spec fn norms_positive(total: RayleighSums, sums: Seq<RayleighSums>) -> bool {
    !total.denominator@.le(hp_word(0)) && forall|i: int|
        0 <= i < sums.len() ==> !(#[trigger] sums[i]).denominator@.le(hp_word(0))
}

/// The values of the components, from the sums of their Rayleigh quotients.
pub fn form_component_values(
    components: &Vec<CcmFormComponentMatrixHp>,
    sums: &Vec<RayleighSums>,
    precision_bits: u32,
) -> (r: Result<Vec<CcmFormComponentValueHp>, CcmError>)
    requires
        precision_bits >= 1,
        sums.len() == components.len(),
    ensures
        r is Ok == (forall|i: int|
            0 <= i < sums@.len() ==> !(#[trigger] sums@[i]).denominator@.le(hp_word(0))),
        match r {
            Ok(v) => v.len() == components.len() && forall|i: int|
                0 <= i < v@.len() ==> component_value_holds(
                    #[trigger] v@[i],
                    components@[i],
                    sums@[i],
                    precision_bits as nat,
                ),
            Err(e) => e.refuses("CCM form-decomposition vector has nonpositive norm"@),
        },
{
    let mut out: Vec<CcmFormComponentValueHp> = Vec::with_capacity(components.len());
    let mut i: usize = 0;
    while i < components.len()
        invariant
            i <= components.len(),
            precision_bits >= 1,
            sums.len() == components.len(),
            out.len() == i,
            forall|k: int| 0 <= k < i ==> !(#[trigger] sums@[k]).denominator@.le(hp_word(0)),
            forall|k: int|
                0 <= k < i ==> component_value_holds(
                    #[trigger] out@[k],
                    components@[k],
                    sums@[k],
                    precision_bits as nat,
                ),
        decreases components.len() - i,
    {
        let rayleigh_value: HpFloat = match rayleigh_quotient(&sums[i], precision_bits) {
            Ok(v) => v,
            Err(e) => {
                assert(sums@[i as int].denominator@.le(hp_word(0)));
                return Err(e);
            },
        };
        let coefficient: i32 = components[i].signed_coefficient;
        let signed_contribution: HpFloat = rayleigh_value.at(precision_bits).times_int(
            coefficient as i64,
        );
        out.push(
            CcmFormComponentValueHp {
                kind: components[i].kind,
                signed_coefficient: coefficient,
                rayleigh_value,
                signed_contribution,
            },
        );
        i = i + 1;
    }
    Ok(out)
}

/// How far the total lies from the sum of the contributions.
pub open spec fn cancellation(total: HpValue, contributions: HpValue, p: nat) -> HpValue {
    total.at(p).minus(contributions).abs()
}

/// Decomposes a form value, given the sums of the terms of every Rayleigh quotient and the sum
/// of the signed contributions.
pub fn evaluate_ccm_form_components_hp(
    total_matrix_row_major: &Vec<HpFloat>,
    components: &Vec<CcmFormComponentMatrixHp>,
    vector: &Vec<HpFloat>,
    precision_bits: u32,
    total_sums: &RayleighSums,
    component_sums: &Vec<RayleighSums>,
    contribution_sum: &HpFloat,
) -> (r: Result<CcmFormDecompositionHp, CcmError>)
    requires
        component_sums.len() == components.len(),
    ensures
        ({
            let p = precision_bits as nat;
            let refusal = decomposition_refusal(
                vals(total_matrix_row_major@),
                components@,
                vals(vector@),
                p,
            );
            match r {
                Ok(x) => {
                    &&& refusal is None
                    &&& norms_positive(*total_sums, component_sums@)
                    &&& quotient(total_sums.numerator@, total_sums.denominator@, p) == Some(
                        x.total_value@,
                    )
                    &&& x.reconstructed_total@ == contribution_sum@
                    &&& x.cancellation_residual@ == cancellation(
                        x.total_value@,
                        contribution_sum@,
                        p,
                    )
                    &&& x.components.len() == components.len()
                    &&& forall|i: int|
                        0 <= i < x.components@.len() ==> component_value_holds(
                            #[trigger] x.components@[i],
                            components@[i],
                            component_sums@[i],
                            p,
                        )
                },
                Err(e) => if refusal is Some {
                    e.refuses(refusal->0)
                } else {
                    !norms_positive(*total_sums, component_sums@) && e.refuses(
                        "CCM form-decomposition vector has nonpositive norm"@,
                    )
                },
            }
        }),
{
    match check_form_components(total_matrix_row_major, components, vector, precision_bits) {
        Err(e) => {
            return Err(e);
        },
        Ok(_) => {},
    }
    let total_value: HpFloat = match rayleigh_quotient(total_sums, precision_bits) {
        Err(e) => {
            return Err(e);
        },
        Ok(v) => v,
    };
    let values: Vec<CcmFormComponentValueHp> = match form_component_values(
        components,
        component_sums,
        precision_bits,
    ) {
        Err(e) => {
            return Err(e);
        },
        Ok(v) => v,
    };
    let cancellation_residual: HpFloat = total_value.at(precision_bits).minus(
        contribution_sum,
    ).abs();
    Ok(
        CcmFormDecompositionHp {
            total_value,
            reconstructed_total: contribution_sum.clone(),
            cancellation_residual,
            components: values,
        },
    )
}

} // verus!
