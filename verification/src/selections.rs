//! What a search or a request selects: the state that minimises its criterion, the roots of a
//! window, the seeds that were crossed, and the findings of the checks that look for the first
//! failure.

use crate::closeness::{lemma_number_positive, lemma_signed_real};
use crate::config::{
    requested_bits, IndependentRootDiscoveryOptions, IndependentRootDomain, GUARD_BITS,
};
use crate::eigenpair::{krylov_digits, krylov_steps, KrylovReport};
use crate::eigenvalues::{first_escape, first_unseparated, EnclosureView};
use crate::monotone::law_order_is_that_of_numbers;
use crate::order::{
    comparable, law_numbers_are_comparable, law_order_is_total, law_order_is_transitive,
};
use crate::outcome::OutcomeView;
use crate::payload::ScalarView;
use crate::range::certificate_conflict;
use crate::reals::{real_of, size, two_to};
use crate::refine::RootStatus;
use crate::roots::{first_fault, numbered, run_end, value_at};
use crate::rounding::{hp_word, Class, HpValue};
use crate::route::{assurance_owed, AssuranceLevel};
use crate::run::{crossing_at, crossings, first_outside};
use crate::secular::rising;
use crate::state::{
    choice, count_of, each_kind_once, eligible, law_chosen_state_is_least, score, CandidateView,
    CcmFormComponentKind, CcmFormComponentMatrixHp, CcmStateCriterion, CcmStateTarget, StateChoice,
};
use crate::tau_cache::{failed_positions, TauCacheFileStatus};
use crate::window::{
    advanced_positions, law_rising_is_pairwise, leading_not_above, scan_range, strict_plan,
    TargetView,
};
use vstd::arithmetic::power2::*;
use vstd::prelude::*;

verus! {

/// The magnitude of a finite value stands for the magnitude of its number.
proof fn lemma_magnitude_of_number(x: HpValue)
    requires
        x.wf(),
        x.is_finite(),
    ensures
        x.abs().wf(),
        x.abs().is_finite(),
        real_of(x.abs()) == size(real_of(x)),
{
    if let Class::Num { neg, man, exp } = x.class {
        lemma_pow2_pos((x.prec - 1) as nat);
        lemma_number_positive(man, exp);
        lemma_signed_real(neg, man, two_to(exp));
        lemma_signed_real(false, man, two_to(exp));
    }
}

/// Candidates whose eigenvalues are finite numbers.
pub open spec fn values_finite(s: Seq<CandidateView>) -> bool {
    forall|i: int|
        0 <= i < s.len() ==> (#[trigger] s[i]).eigenvalue.wf() && s[i].eigenvalue.is_finite()
}

proof fn lemma_score_on_reals(c: CandidateView, criterion: CcmStateCriterion)
    requires
        c.eigenvalue.wf(),
        c.eigenvalue.is_finite(),
    ensures
        score(c, criterion).wf(),
        score(c, criterion).is_finite(),
        comparable(score(c, criterion)),
        real_of(score(c, criterion)) == if criterion is NearestZero {
            size(real_of(c.eigenvalue))
        } else {
            real_of(c.eigenvalue)
        },
        hp_word(0).lt(c.eigenvalue) <==> real_of(c.eigenvalue) > 0 as real,
{
    lemma_magnitude_of_number(c.eigenvalue);
    law_numbers_are_comparable(score(c, criterion));
    law_order_is_that_of_numbers(hp_word(0), c.eigenvalue);
}

/// The chosen state minimises what its target asks for, among the candidates of the admitted
/// parity: the ground state has the least eigenvalue, the smallest positive one the least
/// eigenvalue above zero, and the nearest one the eigenvalue of least magnitude.
pub proof fn law_chosen_state_on_reals(s: Seq<CandidateView>, target: CcmStateTarget, j: int)
    requires
        values_finite(s),
        0 <= j < s.len(),
        target matches CcmStateTarget::ParityRestricted { parity, .. } ==> s[j].parity == parity,
    ensures
        choice(s, target, s.len()) matches StateChoice::Chosen(i) ==> {
            let x = real_of(s[i].eigenvalue);
            let y = real_of(s[j].eigenvalue);
            let criterion = match target {
                CcmStateTarget::AlgebraicGround => CcmStateCriterion::AlgebraicGround,
                CcmStateTarget::SmallestPositive => CcmStateCriterion::SmallestPositive,
                CcmStateTarget::NearestZero => CcmStateCriterion::NearestZero,
                CcmStateTarget::ParityRestricted { criterion, .. } => criterion,
            };
            &&& 0 <= i < s.len()
            &&& target matches CcmStateTarget::ParityRestricted { parity, .. } ==> s[i].parity
                == parity
            &&& j != i ==> match criterion {
                CcmStateCriterion::AlgebraicGround => x < y,
                CcmStateCriterion::SmallestPositive => x > 0 as real && (y > 0 as real ==> x < y),
                CcmStateCriterion::NearestZero => size(x) < size(y),
            }
        },
{
    let c = target.criterion_of();
    assert forall|i: int| 0 <= i < s.len() implies comparable(#[trigger] score(s[i], c)) by {
        assert(s[i].eigenvalue.wf());
        lemma_score_on_reals(s[i], c);
    }
    law_chosen_state_is_least(s, target, s.len());
    assert(s[j].eigenvalue.wf());
    lemma_score_on_reals(s[j], c);
    if let StateChoice::Chosen(i) = choice(s, target, s.len()) {
        assert(s[i].eigenvalue.wf());
        lemma_score_on_reals(s[i], c);
        law_order_is_that_of_numbers(score(s[i], c), score(s[j], c));
    }
}

/// A choice is ambiguous only where two eligible candidates share a score; where all scores of
/// the eligible ones differ, and there is one, one of them is chosen.
pub proof fn law_ambiguity_is_a_tie(s: Seq<CandidateView>, target: CcmStateTarget, n: nat)
    requires
        n <= s.len(),
        forall|i: int, j: int|
            0 <= i < j < n && eligible(s[i], target) && eligible(s[j], target) ==> !(
            #[trigger] score(s[j], target.criterion_of())).eqv(
                #[trigger] score(s[i], target.criterion_of()),
            ),
        forall|i: int|
            0 <= i < s.len() ==> comparable(#[trigger] score(s[i], target.criterion_of())),
    ensures
        choice(s, target, n) !is Ambiguous,
        choice(s, target, n) is Chosen <==> exists|i: int|
            0 <= i < n && eligible(#[trigger] s[i], target),
    decreases n,
{
    if n > 0 {
        let c = target.criterion_of();
        law_ambiguity_is_a_tie(s, target, (n - 1) as nat);
        law_chosen_state_is_least(s, target, (n - 1) as nat);
        if eligible(s[n - 1], target) {
            if let StateChoice::Chosen(i) = choice(s, target, (n - 1) as nat) {
                assert(!score(s[n - 1], c).eqv(score(s[i], c)));
            }
        } else if exists|i: int| 0 <= i < n && eligible(#[trigger] s[i], target) {
            let i = choose|i: int| 0 <= i < n && eligible(#[trigger] s[i], target);
            assert(i < n - 1);
        }
    }
}

/// The leading values that do not exceed a limit are just those: the value after them exceeds
/// it, and so do all later ones of rising values.
pub proof fn law_leading_values_stop_at_the_limit(s: Seq<HpValue>, limit: HpValue, from: int, i: int)
    requires
        rising(s),
        forall|k: int| 0 <= k < s.len() ==> comparable(#[trigger] s[k]),
        comparable(limit),
        0 <= from <= i < s.len(),
    ensures
        from <= leading_not_above(s, limit, from) <= s.len(),
        i < leading_not_above(s, limit, from) <==> !limit.lt(s[i]),
    decreases s.len() - from,
{
    law_order_is_total(s[from], limit);
    law_order_is_total(s[i], limit);
    assert(leading_not_above(s, limit, s.len() as int) == s.len());
    if s[from].le(limit) {
        if i > from {
            law_leading_values_stop_at_the_limit(s, limit, from + 1, i);
        } else if from + 1 < s.len() {
            law_leading_values_stop_at_the_limit(s, limit, from + 1, from + 1);
        }
    } else if i > from {
        law_rising_is_pairwise(s, from, i);
        law_order_is_transitive(limit, s[from], s[i]);
    }
}

/// The roots that a request beyond the strict one selects. The first ones of the positive side
/// stand at the front, as many as asked for or as there are; an index range holds the positions
/// from its first index to its last; a height window holds exactly the roots above its lower
/// end.
pub proof fn law_advanced_request_selects_its_roots(
    s: Seq<HpValue>,
    filter: HpValue,
    t: TargetView,
    o: IndependentRootDiscoveryOptions,
    i: int,
)
    requires
        s.len() <= usize::MAX,
        rising(s),
        forall|k: int| 0 <= k < s.len() ==> comparable(#[trigger] s[k]),
        comparable(filter),
        0 <= i < s.len(),
        t matches TargetView::IndexRange { first, last } ==> 1 <= first <= last,
    ensures
        advanced_positions(s, filter, t, o) matches Ok(v) ==> {
            &&& t matches TargetView::FirstK { count } ==> o.domain is Positive ==> (v.contains(
                i as usize,
            ) <==> i < count)
            &&& t matches TargetView::IndexRange { first, last } ==> (v.contains(i as usize)
                <==> first <= i + 1 <= last)
            &&& t is HeightWindow || t is SymmetricHeightWindow ==> (v.contains(i as usize)
                <==> filter.lt(s[i]))
        },
        !o.allow_incomplete ==> {
            &&& t matches TargetView::FirstK { count } ==> (advanced_positions(s, filter, t, o)
                is Ok <==> count <= s.len())
            &&& t matches TargetView::IndexRange { first, last } ==> (advanced_positions(
                s,
                filter,
                t,
                o,
            ) is Ok <==> last <= s.len())
        },
        o.allow_incomplete ==> advanced_positions(s, filter, t, o) is Ok,
{
    law_leading_values_stop_at_the_limit(s, filter, 0, i);
    if let Ok(v) = advanced_positions(s, filter, t, o) {
        let from = match t {
            TargetView::FirstK { .. } => 0,
            TargetView::IndexRange { first, .. } => if first - 1 <= s.len() {
                first - 1
            } else {
                s.len() as int
            },
            _ => leading_not_above(s, filter, 0),
        };
        if o.domain is Positive || !(t is FirstK) {
            if from <= i < from + v.len() {
                assert(v[i - from] == i as usize);
            }
            assert forall|k: int| 0 <= k < v.len() implies #[trigger] v[k] == from + k by {}
        }
    }
}

/// A strict plan succeeds exactly where the window holds what was asked for, and the seeds of a
/// height window are exactly the roots above its lower end.
pub proof fn law_strict_request_selects_its_roots(
    s: Seq<HpValue>,
    filter: HpValue,
    t: TargetView,
    i: int,
)
    requires
        rising(s),
        forall|k: int| 0 <= k < s.len() ==> comparable(#[trigger] s[k]),
        comparable(filter),
        0 <= i < s.len(),
    ensures
        t matches TargetView::FirstK { count } ==> (strict_plan(s, filter, t) is Ok <==> count
            <= s.len()),
        t matches TargetView::IndexRange { first, last } ==> (strict_plan(s, filter, t) is Ok
            <==> last <= s.len()),
        t is HeightWindow || t is SymmetricHeightWindow ==> match strict_plan(s, filter, t) {
            Ok(plan) => {
                &&& plan.artifact_first - 1 + plan.seeds.len() == s.len()
                &&& filter.lt(s[i]) <==> i >= plan.artifact_first - 1
                &&& i >= plan.artifact_first - 1 ==> plan.seeds[i - (plan.artifact_first - 1)]
                    == s[i]
            },
            Err(_) => !filter.lt(s[i]),
        },
{
    law_leading_values_stop_at_the_limit(s, filter, 0, i);
}

/// The range that a target is searched in ends at its own height, or at the reach where it has
/// none, and never beyond the reach; the roots that count lie above the lower end of a height
/// window, and above zero otherwise.
pub proof fn law_scan_range_on_reals(t: TargetView, signed: bool, maximum: HpValue, p: nat)
    requires
        p >= 1,
        maximum.wf() && maximum.is_finite(),
        t matches TargetView::HeightWindow { lower, upper } ==> lower.wf() && lower.is_finite()
            && upper.wf() && upper.is_finite(),
        t matches TargetView::SymmetricHeightWindow { height } ==> height.wf()
            && height.is_finite(),
    ensures
        ({
            let range = scan_range(t, signed, maximum, p);
            let top = real_of((range->Ok_0).0);
            let bottom = real_of((range->Ok_0).1);
            let reach = real_of(maximum);
            match t {
                TargetView::FirstK { count } => {
                    &&& range is Ok <==> count > 0
                    &&& range is Ok ==> top == reach && bottom == 0 as real
                },
                TargetView::IndexRange { first, last } => {
                    &&& range is Ok <==> !signed && 1 <= first <= last
                    &&& range is Ok ==> top == reach && bottom == 0 as real
                },
                TargetView::HeightWindow { lower, upper } => {
                    &&& range is Ok <==> !signed && (0 as real) < real_of(lower) < real_of(upper)
                        && real_of(upper) <= reach
                    &&& range is Ok ==> top == real_of(upper) && bottom == real_of(lower)
                },
                TargetView::SymmetricHeightWindow { height } => {
                    &&& range is Ok <==> (0 as real) < real_of(height) <= reach
                    &&& range is Ok ==> top == real_of(height) && bottom == 0 as real
                },
            }
        }),
{
    match t {
        TargetView::HeightWindow { lower, upper } => {
            law_order_is_that_of_numbers(lower, hp_word(0));
            law_order_is_that_of_numbers(upper, lower);
            law_order_is_that_of_numbers(maximum, upper);
        },
        TargetView::SymmetricHeightWindow { height } => {
            law_order_is_that_of_numbers(height, hp_word(0));
            law_order_is_that_of_numbers(maximum, height);
        },
        _ => {},
    }
}

/// The report of crossings lists every root that lies nearer to another seed, with that seed,
/// and no other root; and it lists them in order.
pub proof fn law_crossings_are_all_reported(
    s: Seq<OutcomeView>,
    seeds: Seq<HpValue>,
    n: nat,
    k: int,
    j: int,
)
    requires
        n <= usize::MAX,
        0 <= k < n,
        0 <= j <= usize::MAX,
        forall|q: int|
            #![trigger crossing_at(s, seeds, q)]
            crossing_at(s, seeds, q) matches Some(x) ==> 0 <= x <= usize::MAX,
    ensures
        crossings(s, seeds, n).contains((k as usize, j as usize)) <==> crossing_at(s, seeds, k)
            == Some(j),
        forall|a: int, b: int|
            0 <= a < b < crossings(s, seeds, n).len() ==> (#[trigger] crossings(s, seeds, n)[a]).0
                < (#[trigger] crossings(s, seeds, n)[b]).0,
{
    lemma_crossings_hold(s, seeds, n);
    let found = crossings(s, seeds, n);
    if found.contains((k as usize, j as usize)) {
        let a = choose|a: int| 0 <= a < found.len() && found[a] == (k as usize, j as usize);
        assert(crossing_at(s, seeds, found[a].0 as int) == Some(found[a].1 as int));
    }
    lemma_crossing_is_listed(s, seeds, n, k);
}

proof fn lemma_crossings_hold(s: Seq<OutcomeView>, seeds: Seq<HpValue>, n: nat)
    requires
        n <= usize::MAX,
        forall|q: int|
            #![trigger crossing_at(s, seeds, q)]
            crossing_at(s, seeds, q) matches Some(x) ==> 0 <= x <= usize::MAX,
    ensures
        forall|a: int|
            0 <= a < crossings(s, seeds, n).len() ==> (#[trigger] crossings(s, seeds, n)[a]).0 < n
                && crossing_at(s, seeds, crossings(s, seeds, n)[a].0 as int) == Some(
                crossings(s, seeds, n)[a].1 as int,
            ),
        forall|a: int, b: int|
            0 <= a < b < crossings(s, seeds, n).len() ==> (#[trigger] crossings(s, seeds, n)[a]).0
                < (#[trigger] crossings(s, seeds, n)[b]).0,
    decreases n,
{
    if n > 0 {
        lemma_crossings_hold(s, seeds, (n - 1) as nat);
    }
}

proof fn lemma_crossing_is_listed(s: Seq<OutcomeView>, seeds: Seq<HpValue>, n: nat, k: int)
    requires
        n <= usize::MAX,
        0 <= k < n,
    ensures
        crossing_at(s, seeds, k) matches Some(x) ==> crossings(s, seeds, n).contains(
            (k as usize, x as usize),
        ),
    decreases n,
{
    if let Some(x) = crossing_at(s, seeds, k) {
        let before = crossings(s, seeds, (n - 1) as nat);
        let found = crossings(s, seeds, n);
        if k == n - 1 {
            assert(found[found.len() - 1] == (k as usize, x as usize));
        } else {
            lemma_crossing_is_listed(s, seeds, (n - 1) as nat, k);
            let a = choose|a: int| 0 <= a < before.len() && before[a] == (k as usize, x as usize);
            assert(found[a] == before[a]);
        }
    }
}

/// Certified intervals are reconciled exactly where each ordinal has a computed root inside its
/// interval, both ends of which can be read.
pub proof fn law_reconciled_roots_lie_in_their_intervals(
    s: Seq<OutcomeView>,
    start: nat,
    first: nat,
    enclosures: Seq<(ScalarView, ScalarView)>,
    from: int,
)
    requires
        0 <= from,
    ensures
        certificate_conflict(s, start, first, enclosures, from) is None <==> (forall|k: int|
            from <= k < enclosures.len() ==> {
                let (lower, upper) = #[trigger] enclosures[k];
                &&& start <= first + k <= usize::MAX
                &&& lower.reading is Ok
                &&& upper.reading is Ok
                &&& value_at(s, first + k - start) matches Some(x) && !x.lt(lower.reading->Ok_0)
                    && !upper.reading->Ok_0.lt(x)
            }),
    decreases enclosures.len() - from,
{
    if from < enclosures.len() {
        law_reconciled_roots_lie_in_their_intervals(s, start, first, enclosures, from + 1);
        let (lower, upper) = enclosures[from];
    }
}

/// An escaped value is reported exactly where there is one, and the report names the index of
/// the first.
pub proof fn law_first_escape_is_reported(values: Seq<HpValue>, s: Seq<EnclosureView>, from: int)
    requires
        0 <= from <= s.len(),
    ensures
        match first_escape(values, s, from) {
            Some(index) => exists|k: int|
                from <= k < s.len() && (#[trigger] s[k]).index == index && (values[index as int].lt(
                    s[k].lower,
                ) || s[k].upper.lt(values[index as int])) && forall|q: int|
                    from <= q < k ==> !values[(#[trigger] s[q]).index as int].lt(s[q].lower)
                        && !s[q].upper.lt(values[s[q].index as int]),
            None => forall|q: int|
                from <= q < s.len() ==> !values[(#[trigger] s[q]).index as int].lt(s[q].lower)
                    && !s[q].upper.lt(values[s[q].index as int]),
        },
    decreases s.len() - from,
{
    if from < s.len() {
        law_first_escape_is_reported(values, s, from + 1);
        assert(s[from].index >= 0);
    }
}

/// A position outside a window is reported exactly where there is one.
pub proof fn law_position_outside_is_reported(positions: Seq<usize>, len: nat, from: int)
    requires
        0 <= from,
    ensures
        match first_outside(positions, len, from) {
            Some(x) => x >= len && positions.contains(x),
            None => forall|k: int| from <= k < positions.len() ==> (#[trigger] positions[k]) < len,
        },
    decreases positions.len() - from,
{
    if from < positions.len() {
        law_position_outside_is_reported(positions, len, from + 1);
    }
}

/// The failed files of an audit are all listed, and no other ones.
pub proof fn law_failures_are_all_listed(s: Seq<TauCacheFileStatus>, n: nat, k: int)
    requires
        n <= s.len() <= usize::MAX,
        0 <= k < n,
    ensures
        failed_positions(s, n).contains(k as usize) <==> (s[k] is LoadFailed
            || s[k] is StructurallyInvalid),
    decreases n,
{
    lemma_failures_below(s, n);
    let found = failed_positions(s, n);
    let before = failed_positions(s, (n - 1) as nat);
    lemma_failures_below(s, (n - 1) as nat);
    if k == n - 1 {
        if s[k].failed() {
            assert(found[found.len() - 1] == k as usize);
        }
    } else {
        law_failures_are_all_listed(s, (n - 1) as nat, k);
        if before.contains(k as usize) {
            let a = choose|a: int| 0 <= a < before.len() && before[a] == k as usize;
            assert(found[a] == before[a]);
        }
        if found.contains(k as usize) {
            let a = choose|a: int| 0 <= a < found.len() && found[a] == k as usize;
            assert(before[a] == k as usize);
        }
    }
}

proof fn lemma_failures_below(s: Seq<TauCacheFileStatus>, n: nat)
    requires
        n <= s.len() <= usize::MAX,
    ensures
        forall|a: int|
            0 <= a < failed_positions(s, n).len() ==> (#[trigger] failed_positions(s, n)[a]) < n,
    decreases n,
{
    if n > 0 {
        lemma_failures_below(s, (n - 1) as nat);
        let before = failed_positions(s, (n - 1) as nat);
        let found = failed_positions(s, n);
        assert forall|a: int| 0 <= a < found.len() implies (#[trigger] found[a]) < n by {
            if a < before.len() {
                assert(found[a] == before[a]);
            }
        }
    }
}

/// A computed result asks for nothing more; a certificate serves every request, a cross-check
/// only one for a cross-check; everything else is certified now.
pub proof fn law_attestation_serves_no_stronger_request(
    requested: AssuranceLevel,
    attested: Option<AssuranceLevel>,
)
    ensures
        assurance_owed(requested, attested) is Nothing <==> requested is Computed,
        assurance_owed(requested, attested) is Retained <==> {
            ||| requested is CrossChecked && (attested == Some(AssuranceLevel::CrossChecked)
                || attested == Some(AssuranceLevel::Certified))
            ||| requested is Certified && attested == Some(AssuranceLevel::Certified)
        },
{
}

/// A search is asked for 12 digits, or for what all but 24 bits of the precision are worth: `d`
/// digits take no more than those bits, and one digit more takes more than them, at 30103 digits
/// to 100000 bits.
pub proof fn law_search_digits_fit_the_precision(p: nat)
    ensures
        krylov_digits(p) >= 12,
        krylov_digits(p) > 12 ==> 100_000 * krylov_digits(p) + 30_103 * 24 <= 30_103 * p,
        30_103 * p < 100_000 * (krylov_digits(p) + 1) + 30_103 * 24,
{
}

/// The steps of a search are those of all its restarts, and of one where it was not restarted.
pub proof fn law_search_steps_count_every_restart(report: KrylovReport)
    ensures
        ({
            let dimension = report.maximum_subspace_dimension;
            let restarts = report.restarts;
            let steps = krylov_steps(report);
            &&& restarts <= 1 ==> steps == dimension
            &&& dimension * restarts <= usize::MAX && restarts >= 1 ==> steps == dimension
                * restarts
            &&& dimension * restarts > usize::MAX ==> steps == usize::MAX
        }),
{
    assert(report.maximum_subspace_dimension * 1 == report.maximum_subspace_dimension);
    assert(report.maximum_subspace_dimension * 0 == 0);
}

/// The roots listed under a status are exactly those that ended with it, each under its own
/// number.
pub proof fn law_listed_roots_have_their_status(
    s: Seq<OutcomeView>,
    status: RootStatus,
    first: int,
    n: nat,
    k: int,
)
    requires
        n <= s.len(),
        0 <= first,
        first + n <= usize::MAX,
        0 <= k < n,
    ensures
        numbered(s, status, first, n).contains((first + k) as usize) <==> s[k] is Valued
            && s[k]->status == status,
    decreases n,
{
    let found = numbered(s, status, first, n);
    let before = numbered(s, status, first, (n - 1) as nat);
    lemma_numbers_below(s, status, first, (n - 1) as nat);
    if k == n - 1 {
        if s[k] is Valued && s[k]->status == status {
            assert(found[found.len() - 1] == (first + k) as usize);
        }
    } else {
        law_listed_roots_have_their_status(s, status, first, (n - 1) as nat, k);
        if before.contains((first + k) as usize) {
            let a = choose|a: int| 0 <= a < before.len() && before[a] == (first + k) as usize;
            assert(found[a] == before[a]);
        }
        if found.contains((first + k) as usize) {
            let a = choose|a: int| 0 <= a < found.len() && found[a] == (first + k) as usize;
            assert(before[a] == (first + k) as usize);
        }
    }
}

proof fn lemma_numbers_below(s: Seq<OutcomeView>, status: RootStatus, first: int, n: nat)
    requires
        n <= s.len(),
        0 <= first,
        first + n <= usize::MAX,
    ensures
        forall|a: int|
            0 <= a < numbered(s, status, first, n).len() ==> (#[trigger] numbered(
                s,
                status,
                first,
                n,
            )[a]) < first + n,
    decreases n,
{
    if n > 0 {
        lemma_numbers_below(s, status, first, (n - 1) as nat);
        let before = numbered(s, status, first, (n - 1) as nat);
        let found = numbered(s, status, first, n);
        assert forall|a: int| 0 <= a < found.len() implies (#[trigger] found[a]) < first + n by {
            if a < before.len() {
                assert(found[a] == before[a]);
            }
        }
    }
}

/// Outcomes that are all finite numbers.
pub open spec fn all_valued(s: Seq<OutcomeView>) -> bool {
    forall|i: int|
        0 <= i < s.len() ==> (#[trigger] s[i]) is Valued && s[i]->refinement.value.wf()
            && s[i]->refinement.value.is_finite()
}

/// The number of an outcome.
pub open spec fn number_at(s: Seq<OutcomeView>, i: int) -> real {
    real_of(s[i]->refinement.value)
}

/// A window of finite values is free of faults exactly where they rise, none is zero, all are
/// positive where only positive ones are wanted, and all converged where that is required.
pub proof fn law_faultless_window_on_reals(
    s: Seq<OutcomeView>,
    from: int,
    require_converged: bool,
    domain: IndependentRootDomain,
)
    requires
        0 <= from <= s.len(),
        all_valued(s),
    ensures
        first_fault(s, from, value_at(s, from - 1), require_converged, domain) is None <==> (
        forall|i: int|
            #![trigger s[i]]
            from <= i < s.len() ==> {
                &&& require_converged ==> s[i]->status is Converged
                &&& number_at(s, i) != 0 as real
                &&& domain is Positive ==> number_at(s, i) > 0 as real
                &&& i > 0 ==> number_at(s, i - 1) < number_at(s, i)
            }),
    decreases s.len() - from,
{
    if from < s.len() {
        let x = s[from]->refinement.value;
        assert(s[from] is Valued);
        assert(value_at(s, from) == Some(x));
        law_faultless_window_on_reals(s, from + 1, require_converged, domain);
        law_order_is_that_of_numbers(x, hp_word(0));
        lemma_zero_is_no_number(x);
        if from > 0 {
            assert(s[from - 1] is Valued);
            law_order_is_that_of_numbers(x, s[from - 1]->refinement.value);
        }
    }
}

proof fn lemma_zero_is_no_number(x: HpValue)
    requires
        x.wf(),
        x.is_finite(),
    ensures
        x.is_zero() <==> real_of(x) == 0 as real,
{
    if let Class::Num { neg, man, exp } = x.class {
        lemma_pow2_pos((x.prec - 1) as nat);
        lemma_number_positive(man, exp);
        lemma_signed_real(neg, man, two_to(exp));
    }
}

/// The number at a position is below the next one.
pub open spec fn below_next(v: Seq<HpValue>, i: int) -> bool {
    real_of(v[i]) < real_of(v[i + 1])
}

/// Eigenvalues are separated exactly where each is below the next; otherwise the report names one
/// that is not.
pub proof fn law_separated_eigenvalues_rise_on_reals(v: Seq<HpValue>, from: int)
    requires
        0 <= from,
        forall|i: int| 0 <= i < v.len() ==> (#[trigger] v[i]).wf() && v[i].is_finite(),
    ensures
        match first_unseparated(v, from) {
            Some(i) => from <= i < v.len() - 1 && !below_next(v, i),
            None => forall|i: int| from <= i < v.len() - 1 ==> #[trigger] below_next(v, i),
        },
    decreases v.len() - from,
{
    if from < v.len() - 1 {
        law_separated_eigenvalues_rise_on_reals(v, from + 1);
        assert(v[from].wf() && v[from + 1].wf());
        law_order_is_that_of_numbers(v[from + 1], v[from]);
    }
}

/// Where every kind of component occurs once, no two components are of one kind.
pub proof fn law_components_differ_in_kind(s: Seq<CcmFormComponentMatrixHp>, i: int, j: int)
    requires
        each_kind_once(s),
        0 <= i < j < s.len(),
    ensures
        s[i].kind != s[j].kind,
{
    if s[i].kind == s[j].kind {
        lemma_two_count_twice(s, i, j, s.len());
    }
}

proof fn lemma_one_counts_once(s: Seq<CcmFormComponentMatrixHp>, i: int, n: nat)
    requires
        0 <= i < n <= s.len(),
    ensures
        count_of(s, s[i].kind, n) >= 1,
    decreases n,
{
    if i < n - 1 {
        lemma_one_counts_once(s, i, (n - 1) as nat);
    }
}

proof fn lemma_two_count_twice(s: Seq<CcmFormComponentMatrixHp>, i: int, j: int, n: nat)
    requires
        0 <= i < j < n <= s.len(),
        s[i].kind == s[j].kind,
    ensures
        count_of(s, s[i].kind, n) >= 2,
    decreases n,
{
    if j < n - 1 {
        lemma_two_count_twice(s, i, j, (n - 1) as nat);
    } else {
        lemma_one_counts_once(s, i, (n - 1) as nat);
    }
}

/// Where every kind of component occurs once, each kind is among the components.
pub proof fn law_every_kind_is_there(s: Seq<CcmFormComponentMatrixHp>, kind: CcmFormComponentKind)
    requires
        each_kind_once(s),
    ensures
        exists|i: int| 0 <= i < s.len() && (#[trigger] s[i]).kind == kind,
{
    assert(count_of(s, kind, s.len()) >= 1);
    lemma_counted_is_there(s, kind, s.len());
}

proof fn lemma_counted_is_there(
    s: Seq<CcmFormComponentMatrixHp>,
    kind: CcmFormComponentKind,
    n: nat,
)
    requires
        n <= s.len(),
        count_of(s, kind, n) >= 1,
    ensures
        exists|i: int| 0 <= i < n && (#[trigger] s[i]).kind == kind,
    decreases n,
{
    if n > 0 && s[n - 1].kind != kind {
        lemma_counted_is_there(s, kind, (n - 1) as nat);
    }
}

/// A run of numbers goes up by one from its first to its last, and ends where the next one does
/// not.
pub proof fn law_runs_are_consecutive(s: Seq<usize>, i: int, k: int)
    requires
        0 <= i <= k < s.len(),
    ensures
        i <= run_end(s, i) < s.len(),
        k <= run_end(s, i) ==> s[k] == s[i] + (k - i),
        k == run_end(s, i) + 1 ==> s[k] != s[k - 1] + 1,
    decreases s.len() - i,
{
    if i < s.len() - 1 && s[i + 1] == s[i] + 1 {
        law_runs_are_consecutive(
            s,
            i + 1,
            if k > i {
                k
            } else {
                i + 1
            },
        );
    }
}

/// The requested bits are the fewest that are worth the digits, at 332193 bits to 100000 digits.
pub proof fn law_requested_bits_are_the_fewest(digits: int)
    requires
        0 <= digits,
        requested_bits(digits) < u32::MAX - GUARD_BITS,
    ensures
        100_000 * requested_bits(digits) >= 332_193 * digits,
        100_000 * (requested_bits(digits) - 1) < 332_193 * digits,
{
}

} // verus!
