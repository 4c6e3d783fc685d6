//! Root windows: computing them, judging them, and replaying stored ones.

use crate::config::{HighPrecConfig, IndependentRootDomain, RootArtifactMode, RootSolver};
use crate::error::CcmError;
use crate::float::HpFloat;
use crate::matrix::vals;
use crate::outcome::{
    outcomes, retain_until_failure, retained_len, searches, EigenvalueResult, OutcomeView,
    RefinementView, RootRefinement,
};
use crate::refine::{refinement, solve_r_zero, RootSearch, RootStatus, SearchOutcome};
use crate::rounding::{hp_pow2, hp_word, HpValue};
use crate::secular::weights_fit;
use crate::text::{number_text, push_number, text_equal};
use vstd::prelude::*;
use vstd::string::*;

verus! {

/// One refinement per seed.
pub open spec fn refined_seeds(
    method: RootSolver,
    xi: Seq<HpValue>,
    n: int,
    spacing: HpValue,
    seeds: Seq<HpValue>,
    p: nat,
    steps: nat,
) -> Seq<SearchOutcome> {
    Seq::new(seeds.len(), |i: int| refinement(method, xi, n, spacing, seeds[i], p, steps))
}

/// Refines seeds in order; the window ends with its first failure.
pub fn compute_root_range(
    xi: &Vec<HpFloat>,
    n_modes: usize,
    two_pi_over_l: &HpFloat,
    cfg: &HighPrecConfig,
    seeds: &Vec<HpFloat>,
) -> (r: Vec<RootSearch>)
    requires
        cfg.precision_bits >= 1,
        weights_fit(xi@.len(), n_modes as nat),
    ensures
        ({
            let all = refined_seeds(
                cfg.root_solver,
                vals(xi@),
                n_modes as int,
                two_pi_over_l@,
                vals(seeds@),
                cfg.precision_bits as nat,
                cfg.solver_steps as nat,
            );
            searches(r@) == all.take(retained_len(all, 0))
        }),
{
    let ghost all = refined_seeds(
        cfg.root_solver,
        vals(xi@),
        n_modes as int,
        two_pi_over_l@,
        vals(seeds@),
        cfg.precision_bits as nat,
        cfg.solver_steps as nat,
    );
    let mut window: Vec<RootSearch> = Vec::with_capacity(seeds.len());
    let mut i: usize = 0;
    while i < seeds.len()
        invariant
            i <= seeds.len(),
            cfg.precision_bits >= 1,
            weights_fit(xi@.len(), n_modes as nat),
            window.len() == i,
            all == refined_seeds(
                cfg.root_solver,
                vals(xi@),
                n_modes as int,
                two_pi_over_l@,
                vals(seeds@),
                cfg.precision_bits as nat,
                cfg.solver_steps as nat,
            ),
            forall|k: int| 0 <= k < i ==> (#[trigger] searches(window@)[k]) == all[k],
        decreases seeds.len() - i,
    {
        let x: RootSearch = solve_r_zero(
            xi,
            n_modes,
            two_pi_over_l,
            &seeds[i],
            cfg.precision_bits,
            cfg.solver_steps,
            cfg.root_solver,
        );
        let ghost before = window@;
        window.push(x);
        assert forall|k: int| 0 <= k < i + 1 implies (#[trigger] searches(window@)[k])
            == all[k] by {
            if k < i {
                assert(searches(before)[k] == all[k]);
            }
        }
        i = i + 1;
    }
    assert(searches(window@) =~= all);
    retain_until_failure(window)
}

/// Why a window of outcomes cannot be used.
#[derive(Debug)]
pub enum RootWindowFault {
    Incomplete { expected: usize, received: usize },
    Stagnated { root: usize, iterations: usize },
    IterationLimit { root: usize, iterations: usize },
    Failed { root: usize, iterations: usize, reason: String },
    Disordered { domain: IndependentRootDomain },
}

/// Why a window cannot be used, as mathematics.
pub enum FaultView {
    Incomplete { expected: nat, received: nat },
    Stagnated { root: nat, iterations: nat },
    IterationLimit { root: nat, iterations: nat },
    Failed { root: nat, iterations: nat, reason: Seq<char> },
    Disordered { domain: IndependentRootDomain },
}

impl View for RootWindowFault {
    type V = FaultView;

    open spec fn view(&self) -> FaultView {
        match self {
            RootWindowFault::Incomplete { expected, received } => FaultView::Incomplete {
                expected: *expected as nat,
                received: *received as nat,
            },
            RootWindowFault::Stagnated { root, iterations } => FaultView::Stagnated {
                root: *root as nat,
                iterations: *iterations as nat,
            },
            RootWindowFault::IterationLimit { root, iterations } => FaultView::IterationLimit {
                root: *root as nat,
                iterations: *iterations as nat,
            },
            RootWindowFault::Failed { root, iterations, reason } => FaultView::Failed {
                root: *root as nat,
                iterations: *iterations as nat,
                reason: reason@,
            },
            RootWindowFault::Disordered { domain } => FaultView::Disordered { domain: *domain },
        }
    }
}

impl FaultView {
    /// The words of the fault, given the texts of the correction, the residual and the digits of
    /// the root that it speaks of.
    pub open spec fn words(
        self,
        correction: Seq<char>,
        residual: Seq<char>,
        digits: Seq<char>,
    ) -> Seq<char> {
        let numbers = " (correction="@ + correction + ", residual="@ + residual
            + ", achieved_digits="@ + digits + ")"@;
        match self {
            FaultView::Incomplete { expected, received } => {
                "CCM root window is incomplete: expected "@ + number_text(expected)
                    + " outcomes, received "@ + number_text(received)
            },
            FaultView::Stagnated { root, iterations } => {
                "CCM root "@ + number_text(root) + " stagnated after "@ + number_text(iterations)
                    + " iterations"@ + numbers
            },
            FaultView::IterationLimit { root, iterations } => {
                "CCM root "@ + number_text(root) + " reached the "@ + number_text(iterations)
                    + "-iteration limit"@ + numbers
            },
            FaultView::Failed { root, iterations, reason } => {
                "CCM root "@ + number_text(root) + " failed after "@ + number_text(iterations)
                    + " iterations: "@ + reason
            },
            FaultView::Disordered { domain } => {
                "CCM root values are not a strictly increasing nonzero "@ + domain.label()
                    + " sequence"@
            },
        }
    }
}

impl RootWindowFault {
    /// The words of the fault, given the texts of the correction, the residual and the digits of
    /// the root that it speaks of.
    pub fn message(&self, correction: &str, residual: &str, digits: &str) -> (r: String)
        ensures
            r@ == self@.words(correction@, residual@, digits@),
    {
        let mut numbers: String = " (correction=".to_owned();
        numbers.append(correction);
        numbers.append(", residual=");
        numbers.append(residual);
        numbers.append(", achieved_digits=");
        numbers.append(digits);
        numbers.append(")");
        match self {
            RootWindowFault::Incomplete { expected, received } => {
                let mut t: String = "CCM root window is incomplete: expected ".to_owned();
                push_number(&mut t, *expected as u64);
                t.append(" outcomes, received ");
                push_number(&mut t, *received as u64);
                t
            },
            RootWindowFault::Stagnated { root, iterations } => {
                let mut t: String = "CCM root ".to_owned();
                push_number(&mut t, *root as u64);
                t.append(" stagnated after ");
                push_number(&mut t, *iterations as u64);
                t.append(" iterations");
                t.append(numbers.as_str());
                t
            },
            RootWindowFault::IterationLimit { root, iterations } => {
                let mut t: String = "CCM root ".to_owned();
                push_number(&mut t, *root as u64);
                t.append(" reached the ");
                push_number(&mut t, *iterations as u64);
                t.append("-iteration limit");
                t.append(numbers.as_str());
                t
            },
            RootWindowFault::Failed { root, iterations, reason } => {
                let mut t: String = "CCM root ".to_owned();
                push_number(&mut t, *root as u64);
                t.append(" failed after ");
                push_number(&mut t, *iterations as u64);
                t.append(" iterations: ");
                t.append(reason.as_str());
                t
            },
            RootWindowFault::Disordered { domain } => {
                let mut t: String =
                    "CCM root values are not a strictly increasing nonzero ".to_owned();
                t.append(domain.as_str());
                t.append(" sequence");
                t
            },
        }
    }
}

/// Whether a value breaks a strictly increasing nonzero sequence of its domain.
pub open spec fn breaks_order(
    value: HpValue,
    previous: Option<HpValue>,
    domain: IndependentRootDomain,
) -> bool {
    (domain is Positive && value.le(hp_word(0))) || value.is_zero() || (previous is Some
        && value.le(previous->0))
}

/// First fault at or after position `from`, given the value before it.
pub open spec fn first_fault(
    s: Seq<OutcomeView>,
    from: int,
    previous: Option<HpValue>,
    require_converged: bool,
    domain: IndependentRootDomain,
) -> Option<FaultView>
    decreases s.len() - from,
{
    if from < 0 || from >= s.len() {
        None
    } else {
        match s[from] {
            OutcomeView::Failed { iterations, reason } => Some(
                FaultView::Failed { root: (from + 1) as nat, iterations, reason },
            ),
            OutcomeView::Valued { status, refinement } => if require_converged
                && status is Stagnated {
                Some(
                    FaultView::Stagnated {
                        root: (from + 1) as nat,
                        iterations: refinement.iterations,
                    },
                )
            } else if require_converged && status is Approximate {
                Some(
                    FaultView::IterationLimit {
                        root: (from + 1) as nat,
                        iterations: refinement.iterations,
                    },
                )
            } else if breaks_order(refinement.value, previous, domain) {
                Some(FaultView::Disordered { domain })
            } else {
                first_fault(s, from + 1, Some(refinement.value), require_converged, domain)
            },
        }
    }
}

/// Whether a value fails to rise above the one before it, where there is one.
pub fn value_breaks_order(
    value: &HpFloat,
    previous: Option<&HpFloat>,
    domain: IndependentRootDomain,
) -> (r: bool)
    ensures
        r == breaks_order(
            value@,
            match previous {
                None => None,
                Some(v) => Some(v@),
            },
            domain,
        ),
{
    let low: bool = match domain {
        IndependentRootDomain::Positive => value.le(&HpFloat::from_i64(64, 0)),
        IndependentRootDomain::Signed => false,
    };
    let repeats: bool = match previous {
        None => false,
        Some(v) => value.le(v),
    };
    low || value.is_zero() || repeats
}

/// The value of a window at a position, where there is one.
pub open spec fn value_at(s: Seq<OutcomeView>, i: int) -> Option<HpValue> {
    if 0 <= i < s.len() && s[i] is Valued {
        Some(s[i]->refinement.value)
    } else {
        None
    }
}

/// Whether a window has the expected size, values throughout, convergence where required, and
/// strictly increasing nonzero values of its domain.
pub fn ensure_root_window_usable(
    window: &Vec<EigenvalueResult>,
    expected_count: usize,
    require_converged: bool,
    domain: IndependentRootDomain,
) -> (r: Result<(), RootWindowFault>)
    ensures
        match r {
            Ok(_) => window.len() == expected_count && first_fault(
                outcomes(window@),
                0,
                None,
                require_converged,
                domain,
            ) is None,
            Err(f) => if window.len() != expected_count {
                f@ == (FaultView::Incomplete {
                    expected: expected_count as nat,
                    received: window@.len(),
                })
            } else {
                first_fault(outcomes(window@), 0, None, require_converged, domain) == Some(f@)
            },
        },
{
    if window.len() != expected_count {
        return Err(
            RootWindowFault::Incomplete { expected: expected_count, received: window.len() },
        );
    }
    let ghost s = outcomes(window@);
    let ghost goal = first_fault(s, 0, None, require_converged, domain);
    let mut i: usize = 0;
    while i < window.len()
        invariant
            i <= window.len(),
            window.len() == expected_count,
            s == outcomes(window@),
            i > 0 ==> s[i - 1] is Valued,
            goal == first_fault(s, 0, None, require_converged, domain),
            goal == first_fault(s, i as int, value_at(s, i - 1), require_converged, domain),
        decreases window.len() - i,
    {
        assert(s[i as int] == window@[i as int]@);
        let previous: Option<&HpFloat> = if i == 0 {
            None
        } else {
            assert(s[i - 1] == window@[i - 1]@);
            window[i - 1].value()
        };
        let result: &RootRefinement = match &window[i] {
            EigenvalueResult::Converged(x) => x,
            EigenvalueResult::Stagnated(x) => {
                if require_converged {
                    return Err(
                        RootWindowFault::Stagnated {
                            root: i + 1,
                            iterations: x.diagnostics.iterations,
                        },
                    );
                }
                x
            },
            EigenvalueResult::Approximate(x) => {
                if require_converged {
                    return Err(
                        RootWindowFault::IterationLimit {
                            root: i + 1,
                            iterations: x.diagnostics.iterations,
                        },
                    );
                }
                x
            },
            EigenvalueResult::Failed { iterations, reason } => {
                return Err(
                    RootWindowFault::Failed {
                        root: i + 1,
                        iterations: *iterations,
                        reason: reason.clone(),
                    },
                );
            },
        };
        if value_breaks_order(&result.value, previous, domain) {
            return Err(RootWindowFault::Disordered { domain });
        }
        i = i + 1;
    }
    Ok(())
}

/// A usable window holds a nonzero value at every position, each above the one before, all of
/// them converged where that is required.
pub proof fn law_usable_window(
    s: Seq<OutcomeView>,
    from: int,
    require_converged: bool,
    domain: IndependentRootDomain,
)
    requires
        0 <= from <= s.len(),
        first_fault(s, from, value_at(s, from - 1), require_converged, domain) is None,
    ensures
        forall|i: int|
            from <= i < s.len() ==> {
                &&& #[trigger] s[i] is Valued
                &&& require_converged ==> s[i]->status is Converged
                &&& !s[i]->refinement.value.is_zero()
                &&& !breaks_order(s[i]->refinement.value, value_at(s, i - 1), domain)
            },
    decreases s.len() - from,
{
    if from < s.len() {
        assert(value_at(s, from) == Some(s[from]->refinement.value));
        law_usable_window(s, from + 1, require_converged, domain);
    }
}

/// Last position of the run of consecutive numbers that starts at `i`.
pub open spec fn run_end(s: Seq<usize>, i: int) -> int
    decreases s.len() - i,
{
    if 0 <= i < s.len() - 1 && s[i + 1] == s[i] + 1 {
        run_end(s, i + 1)
    } else {
        i
    }
}

/// The numbers from position `start` on, runs written as `first-last`, joined by commas.
pub open spec fn ranges_text(s: Seq<usize>, start: int) -> Seq<char>
    decreases s.len() - start,
{
    if start < 0 || start >= s.len() {
        Seq::<char>::empty()
    } else {
        let end = run_end(s, start);
        let head = if end == start {
            number_text(s[start] as nat)
        } else {
            number_text(s[start] as nat) + "-"@ + number_text(s[end] as nat)
        };
        if end < start || end + 1 >= s.len() {
            head
        } else {
            head + ","@ + ranges_text(s, end + 1)
        }
    }
}

proof fn lemma_run_end_bounds(s: Seq<usize>, i: int)
    requires
        0 <= i < s.len(),
    ensures
        i <= run_end(s, i) < s.len(),
    decreases s.len() - i,
{
    if i < s.len() - 1 && s[i + 1] == s[i] + 1 {
        lemma_run_end_bounds(s, i + 1);
    }
}

/// Writes root numbers compactly: `37,39-41`.
pub fn format_index_ranges(indices: &Vec<usize>) -> (r: String)
    ensures
        r@ == ranges_text(indices@, 0),
{
    let ghost s = indices@;
    let mut out: String = String::new();
    let mut start: usize = 0;
    assert(Seq::<char>::empty() + ranges_text(s, 0) =~= ranges_text(s, 0));
    while start < indices.len()
        invariant
            start <= indices.len(),
            s == indices@,
            out@ + ranges_text(s, start as int) == ranges_text(s, 0),
        decreases indices.len() - start,
    {
        let mut end: usize = start;
        while end + 1 < indices.len() && indices[end + 1] > 0 && indices[end + 1] - 1
            == indices[end]
            invariant
                start <= end < indices.len(),
                s == indices@,
                run_end(s, start as int) == run_end(s, end as int),
            decreases indices.len() - end,
        {
            end = end + 1;
        }
        proof {
            lemma_run_end_bounds(s, start as int);
            assert(run_end(s, end as int) == end);
        }
        let ghost before = out@;
        let ghost st = start as int;
        push_number(&mut out, indices[start] as u64);
        if end != start {
            out.append("-");
            push_number(&mut out, indices[end] as u64);
        }
        if end + 1 < indices.len() {
            out.append(",");
        }
        start = end + 1;
        proof {
            let rest = ranges_text(s, start as int);
            assert(out@ + rest =~= before + ranges_text(s, st));
        }
    }
    assert(out@ + Seq::<char>::empty() =~= out@);
    out
}

/// How many roots ended in each way, and the numbers of those that did not converge.
#[derive(Debug)]
pub struct RootStatusSummary {
    pub converged: usize,
    pub stagnated: Vec<usize>,
    pub approximate: Vec<usize>,
    pub failed: usize,
}

/// The numbers, counted from `first`, of the roots among the leading `n` with a given status.
pub open spec fn numbered(s: Seq<OutcomeView>, status: RootStatus, first: int, n: nat) -> Seq<usize>
    decreases n,
{
    if n == 0 {
        Seq::<usize>::empty()
    } else {
        let before = numbered(s, status, first, (n - 1) as nat);
        if s[n - 1] is Valued && s[n - 1]->status == status {
            before.push((first + (n - 1)) as usize)
        } else {
            before
        }
    }
}

/// Number of failures among the leading `n` outcomes.
pub open spec fn failures(s: Seq<OutcomeView>, n: nat) -> nat
    decreases n,
{
    if n == 0 {
        0
    } else {
        failures(s, (n - 1) as nat) + if s[n - 1] is Failed {
            1nat
        } else {
            0
        }
    }
}

/// Every outcome is counted once.
pub proof fn law_status_counts_add_up(s: Seq<OutcomeView>, first: int, n: nat)
    requires
        n <= s.len(),
    ensures
        numbered(s, RootStatus::Converged, first, n).len() + numbered(
            s,
            RootStatus::Stagnated,
            first,
            n,
        ).len() + numbered(s, RootStatus::Approximate, first, n).len() + failures(s, n) == n,
    decreases n,
{
    if n > 0 {
        law_status_counts_add_up(s, first, (n - 1) as nat);
    }
}

/// Counts how the roots of a window ended.
pub fn root_status_summary(window: &Vec<EigenvalueResult>, first_root_index: usize) -> (r:
    RootStatusSummary)
    requires
        first_root_index + window.len() <= usize::MAX,
    ensures
        r.converged == numbered(
            outcomes(window@),
            RootStatus::Converged,
            first_root_index as int,
            window@.len(),
        ).len(),
        r.stagnated@ == numbered(
            outcomes(window@),
            RootStatus::Stagnated,
            first_root_index as int,
            window@.len(),
        ),
        r.approximate@ == numbered(
            outcomes(window@),
            RootStatus::Approximate,
            first_root_index as int,
            window@.len(),
        ),
        r.failed == failures(outcomes(window@), window@.len()),
{
    let ghost s = outcomes(window@);
    let ghost f = first_root_index as int;
    let mut out: RootStatusSummary = RootStatusSummary {
        converged: 0,
        stagnated: Vec::new(),
        approximate: Vec::new(),
        failed: 0,
    };
    let mut i: usize = 0;
    while i < window.len()
        invariant
            i <= window.len(),
            s == outcomes(window@),
            f == first_root_index,
            first_root_index + window.len() <= usize::MAX,
            out.converged <= i,
            out.failed <= i,
            out.converged == numbered(s, RootStatus::Converged, f, i as nat).len(),
            out.stagnated@ == numbered(s, RootStatus::Stagnated, f, i as nat),
            out.approximate@ == numbered(s, RootStatus::Approximate, f, i as nat),
            out.failed == failures(s, i as nat),
        decreases window.len() - i,
    {
        assert(s[i as int] == window@[i as int]@);
        match &window[i] {
            EigenvalueResult::Converged(_) => {
                out.converged = out.converged + 1;
            },
            EigenvalueResult::Stagnated(_) => {
                out.stagnated.push(first_root_index + i);
            },
            EigenvalueResult::Approximate(_) => {
                out.approximate.push(first_root_index + i);
            },
            EigenvalueResult::Failed { .. } => {
                out.failed = out.failed + 1;
            },
        }
        i = i + 1;
    }
    out
}

/// The refinements among the leading `n` outcomes with a given status.
pub open spec fn selected(s: Seq<OutcomeView>, status: RootStatus, n: nat) -> Seq<RefinementView>
    decreases n,
{
    if n == 0 {
        Seq::<RefinementView>::empty()
    } else {
        let before = selected(s, status, (n - 1) as nat);
        if s[n - 1] is Valued && s[n - 1]->status == status {
            before.push(s[n - 1]->refinement)
        } else {
            before
        }
    }
}

/// Least number of achieved digits among the first `n` refinements.
pub open spec fn least_digits(s: Seq<RefinementView>, n: nat) -> HpValue
    decreases n,
{
    if n <= 1 {
        s[0].achieved_decimal_digits
    } else {
        let before = least_digits(s, (n - 1) as nat);
        if s[n - 1].achieved_decimal_digits.lt(before) {
            s[n - 1].achieved_decimal_digits
        } else {
            before
        }
    }
}

/// Greatest number of achieved digits among the first `n` refinements.
pub open spec fn greatest_digits(s: Seq<RefinementView>, n: nat) -> HpValue
    decreases n,
{
    if n <= 1 {
        s[0].achieved_decimal_digits
    } else {
        let before = greatest_digits(s, (n - 1) as nat);
        if before.lt(s[n - 1].achieved_decimal_digits) {
            s[n - 1].achieved_decimal_digits
        } else {
            before
        }
    }
}

/// Greatest number of iterations among the first `n` refinements.
pub open spec fn greatest_iterations(s: Seq<RefinementView>, n: nat) -> nat
    decreases n,
{
    if n == 0 {
        0
    } else {
        let before = greatest_iterations(s, (n - 1) as nat);
        if before < s[n - 1].iterations {
            s[n - 1].iterations
        } else {
            before
        }
    }
}

proof fn lemma_digits_prefix(s: Seq<RefinementView>, x: RefinementView, n: nat)
    requires
        n <= s.len(),
        n >= 1,
    ensures
        least_digits(s.push(x), n) == least_digits(s, n),
        greatest_digits(s.push(x), n) == greatest_digits(s, n),
    decreases n,
{
    if n > 1 {
        lemma_digits_prefix(s, x, (n - 1) as nat);
    }
}

proof fn lemma_iterations_prefix(s: Seq<RefinementView>, x: RefinementView, n: nat)
    requires
        n <= s.len(),
    ensures
        greatest_iterations(s.push(x), n) == greatest_iterations(s, n),
    decreases n,
{
    if n > 0 {
        lemma_iterations_prefix(s, x, (n - 1) as nat);
    }
}

/// Extremes of the roots that precision or the iteration limit held back.
#[derive(Debug)]
pub struct PrecisionLimitedSummary {
    pub minimum_digits: HpFloat,
    pub maximum_digits: HpFloat,
    pub maximum_iterations: usize,
}

fn with_status(outcome: &EigenvalueResult, status: RootStatus) -> (r: Option<&RootRefinement>)
    ensures
        r is Some == (outcome@ is Valued && outcome@->status == status),
        r matches Some(x) ==> x@ == outcome@->refinement,
{
    match (outcome, status) {
        (EigenvalueResult::Converged(x), RootStatus::Converged) => Some(x),
        (EigenvalueResult::Stagnated(x), RootStatus::Stagnated) => Some(x),
        (EigenvalueResult::Approximate(x), RootStatus::Approximate) => Some(x),
        _ => None,
    }
}

/// The extremes of the roots with a given status; `None` where there are none.
pub fn precision_limited_summary(window: &Vec<EigenvalueResult>, status: RootStatus) -> (r: Option<
    PrecisionLimitedSummary,
>)
    ensures
        ({
            let roots = selected(outcomes(window@), status, window@.len());
            match r {
                None => roots.len() == 0,
                Some(x) => {
                    &&& roots.len() > 0
                    &&& x.minimum_digits@ == least_digits(roots, roots.len())
                    &&& x.maximum_digits@ == greatest_digits(roots, roots.len())
                    &&& x.maximum_iterations == greatest_iterations(roots, roots.len())
                },
            }
        }),
{
    let ghost s = outcomes(window@);
    let mut found: Option<PrecisionLimitedSummary> = None;
    let mut i: usize = 0;
    while i < window.len()
        invariant
            i <= window.len(),
            s == outcomes(window@),
            ({
                let roots = selected(s, status, i as nat);
                match found {
                    None => roots.len() == 0,
                    Some(x) => {
                        &&& roots.len() > 0
                        &&& x.minimum_digits@ == least_digits(roots, roots.len())
                        &&& x.maximum_digits@ == greatest_digits(roots, roots.len())
                        &&& x.maximum_iterations == greatest_iterations(roots, roots.len())
                    },
                }
            }),
        decreases window.len() - i,
    {
        assert(s[i as int] == window@[i as int]@);
        let ghost roots = selected(s, status, i as nat);
        match with_status(&window[i], status) {
            None => {},
            Some(x) => {
                proof {
                    if roots.len() > 0 {
                        lemma_digits_prefix(roots, x@, roots.len());
                    }
                    lemma_iterations_prefix(roots, x@, roots.len());
                }
                let digits: HpFloat = x.diagnostics.achieved_decimal_digits.clone();
                let iterations: usize = x.diagnostics.iterations;
                found = match found {
                    None => {
                        assert(roots.push(x@).len() == 1);
                        assert(greatest_iterations(roots.push(x@), 0) == 0);
                        Some(
                            PrecisionLimitedSummary {
                                minimum_digits: digits.clone(),
                                maximum_digits: digits,
                                maximum_iterations: iterations,
                            },
                        )
                    },
                    Some(y) => Some(
                        PrecisionLimitedSummary {
                            minimum_digits: if digits.lt(&y.minimum_digits) {
                                digits.clone()
                            } else {
                                y.minimum_digits
                            },
                            maximum_digits: if y.maximum_digits.lt(&digits) {
                                digits
                            } else {
                                y.maximum_digits
                            },
                            maximum_iterations: if y.maximum_iterations < iterations {
                                iterations
                            } else {
                                y.maximum_iterations
                            },
                        },
                    ),
                };
            },
        }
        i = i + 1;
    }
    found
}

/// Identity of a dataset of reference zeros.
#[derive(Debug, PartialEq, Eq)]
pub struct ReferenceZeroDatasetIdentity {
    pub schema_version: u32,
    pub resource_id: String,
    pub content_sha256: String,
    pub record_count: usize,
    pub decimal_digits: u32,
}

/// Identity of a dataset, as mathematics.
pub struct DatasetView {
    pub schema_version: u32,
    pub resource_id: Seq<char>,
    pub content_sha256: Seq<char>,
    pub record_count: nat,
    pub decimal_digits: u32,
}

impl View for ReferenceZeroDatasetIdentity {
    type V = DatasetView;

    open spec fn view(&self) -> DatasetView {
        DatasetView {
            schema_version: self.schema_version,
            resource_id: self.resource_id@,
            content_sha256: self.content_sha256@,
            record_count: self.record_count as nat,
            decimal_digits: self.decimal_digits,
        }
    }
}

impl ReferenceZeroDatasetIdentity {
    /// Whether two identities are the same.
    pub fn same(&self, other: &ReferenceZeroDatasetIdentity) -> (r: bool)
        ensures
            r == (self@ == other@),
    {
        self.schema_version == other.schema_version && self.record_count == other.record_count
            && self.decimal_digits == other.decimal_digits && text_equal(
            self.resource_id.as_str(),
            other.resource_id.as_str(),
        ) && text_equal(self.content_sha256.as_str(), other.content_sha256.as_str())
    }

    /// A copy of the identity.
    pub fn copied(&self) -> (r: ReferenceZeroDatasetIdentity)
        ensures
            r@ == self@,
    {
        ReferenceZeroDatasetIdentity {
            schema_version: self.schema_version,
            resource_id: self.resource_id.clone(),
            content_sha256: self.content_sha256.clone(),
            record_count: self.record_count,
            decimal_digits: self.decimal_digits,
        }
    }
}

/// The dataset of a request, as mathematics.
pub open spec fn dataset_view(d: Option<&ReferenceZeroDatasetIdentity>) -> Option<DatasetView> {
    match d {
        None => None,
        Some(x) => Some(x@),
    }
}

/// Refusal of a combination of mode, dataset and ordinals; `None` where it is accepted.
///
/// `well_formed` says whether the dataset's own identity and digest hold up.
pub open spec fn dataset_refusal(
    mode: RootArtifactMode,
    dataset: Option<DatasetView>,
    well_formed: bool,
    first: nat,
    count: nat,
) -> Option<Seq<char>> {
    match (mode, dataset) {
        (RootArtifactMode::Independent, None) => None,
        (RootArtifactMode::Independent, Some(_)) => Some(
            "independent CCM discovery cannot carry reference-seed provenance"@,
        ),
        (RootArtifactMode::ReferenceSeededRefinement, None) => Some(
            "reference-seeded CCM refinement requires dataset provenance"@,
        ),
        (RootArtifactMode::ReferenceSeededRefinement, Some(d)) => {
            let last = first + (if count > 0 {
                count - 1
            } else {
                0
            });
            if last > usize::MAX {
                Some("reference-seed ordinal range overflows"@)
            } else if !well_formed || count == 0 || first == 0 || last > d.record_count {
                Some("reference-seeded CCM dataset provenance or ordinal coverage is invalid"@)
            } else {
                None
            }
        },
    }
}

/// Checks the combination of mode, dataset and ordinals.
pub fn validate_reference_seed_dataset(
    artifact_mode: RootArtifactMode,
    reference_dataset: Option<&ReferenceZeroDatasetIdentity>,
    well_formed: bool,
    first_root_index: usize,
    root_count: usize,
) -> (r: Result<(), CcmError>)
    ensures
        match r {
            Ok(_) => dataset_refusal(
                artifact_mode,
                dataset_view(reference_dataset),
                well_formed,
                first_root_index as nat,
                root_count as nat,
            ) is None,
            Err(e) => e is Refused && dataset_refusal(
                artifact_mode,
                dataset_view(reference_dataset),
                well_formed,
                first_root_index as nat,
                root_count as nat,
            ) == Some(e.text()),
        },
{
    match artifact_mode {
        RootArtifactMode::Independent => match reference_dataset {
            None => Ok(()),
            Some(_) => Err(
                CcmError::refused(
                    "independent CCM discovery cannot carry reference-seed provenance",
                ),
            ),
        },
        RootArtifactMode::ReferenceSeededRefinement => match reference_dataset {
            None => Err(
                CcmError::refused("reference-seeded CCM refinement requires dataset provenance"),
            ),
            Some(d) => {
                let span: usize = if root_count > 0 {
                    root_count - 1
                } else {
                    0
                };
                match first_root_index.checked_add(span) {
                    None => Err(CcmError::refused("reference-seed ordinal range overflows")),
                    Some(last) => if !well_formed || root_count == 0 || first_root_index == 0
                        || last > d.record_count {
                        Err(
                            CcmError::refused(
                                "reference-seeded CCM dataset provenance or ordinal coverage is invalid",
                            ),
                        )
                    } else {
                        Ok(())
                    },
                }
            },
        },
    }
}

/// Eight units per term, within 32 bits.
pub open spec fn roundoff_units(term_count: nat) -> int {
    let terms = if term_count <= u32::MAX {
        term_count as int
    } else {
        u32::MAX as int
    };
    if terms * 8 <= u32::MAX {
        terms * 8
    } else {
        u32::MAX as int
    }
}

/// Whether a replayed residual agrees with the stored one, up to the roundoff of its terms.
pub open spec fn replay_agrees(
    stored: HpValue,
    replay: Option<(HpValue, HpValue)>,
    term_count: nat,
    p: nat,
) -> bool {
    match replay {
        None => false,
        Some((residual, scale)) => {
            &&& stored.is_finite() && residual.is_finite()
            &&& !stored.lt(hp_word(0)) && !residual.lt(hp_word(0))
            &&& stored.eqv(residual) || {
                &&& scale.is_finite() && !scale.lt(hp_word(0)) && term_count > 0
                &&& stored.at(p).minus(residual).abs().le(
                    hp_pow2(
                        p,
                        -(if p > 5 {
                            p - 4
                        } else {
                            1
                        }),
                    ).times(scale).times(hp_word(roundoff_units(term_count))),
                )
            }
        },
    }
}

/// Whether a replayed residual agrees with the stored one.
pub fn residual_replay_matches(
    stored: &HpFloat,
    replay: Option<(&HpFloat, &HpFloat)>,
    term_count: usize,
    precision_bits: u32,
) -> (r: bool)
    requires
        precision_bits >= 1,
    ensures
        r == replay_agrees(
            stored@,
            match replay {
                None => None,
                Some(v) => Some((v.0@, v.1@)),
            },
            term_count as nat,
            precision_bits as nat,
        ),
{
    let (residual, scale): (&HpFloat, &HpFloat) = match replay {
        None => {
            return false;
        },
        Some(v) => v,
    };
    let zero: HpFloat = HpFloat::from_i64(64, 0);
    if !stored.is_finite() || !residual.is_finite() || stored.lt(&zero) || residual.lt(&zero) {
        return false;
    }
    if stored.eqv(residual) {
        return true;
    }
    if !scale.is_finite() || scale.lt(&zero) || term_count == 0 {
        return false;
    }
    let unit_bits: i64 = if precision_bits > 5 {
        (precision_bits - 4) as i64
    } else {
        1
    };
    let terms: u64 = if term_count as u64 <= u32::MAX as u64 {
        term_count as u64
    } else {
        u32::MAX as u64
    };
    let units: u64 = if terms * 8 <= u32::MAX as u64 {
        terms * 8
    } else {
        u32::MAX as u64
    };
    let tolerance: HpFloat = HpFloat::power_of_two(precision_bits, -unit_bits).times(scale).times_word(
        units,
    );
    stored.at(precision_bits).minus(residual).abs().le(&tolerance)
}

/// A residual that replays to itself always agrees.
pub proof fn law_identical_replay_agrees(stored: HpValue, scale: HpValue, terms: nat, p: nat)
    requires
        stored.is_finite(),
        !stored.lt(hp_word(0)),
        stored.eqv(stored),
    ensures
        replay_agrees(stored, Some((stored, scale)), terms, p),
{
}

} // verus!
