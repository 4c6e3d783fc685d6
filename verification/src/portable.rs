//! Portable results: a whole run, with every value in a text form of its own precision.

use crate::error::CcmError;
use crate::float::HpFloat;
use crate::matrix::vals;
use crate::outcome::{
    outcomes, DiagnosticsView, EigenvalueResult, HighPrecResult, OutcomeView, RefinementView,
    RootRefinement, RootRefinementDiagnostics,
};
use crate::payload::{
    computed_evidence, diagnostics_of, law_diagnostics_round_trip, HpScalar,
    PortableInverseIterationDiagnostics, ScalarView, StoredDiagnostics,
};
use crate::refine::RootStatus;
use crate::rounding::HpValue;
use vstd::prelude::*;
use vstd::string::*;

verus! {

/// A value in a text form of its own precision.
#[derive(Debug)]
pub struct PortableHpFloat {
    pub precision_bits: u32,
    pub decimal: HpScalar,
}

/// A value in text form, as mathematics.
pub struct CodedValue {
    pub precision: nat,
    pub decimal: ScalarView,
}

impl View for PortableHpFloat {
    type V = CodedValue;

    open spec fn view(&self) -> CodedValue {
        CodedValue { precision: self.precision_bits as nat, decimal: self.decimal@ }
    }
}

/// A value with the text that an encoder gave it.
pub open spec fn coded(value: HpValue, text: Seq<char>) -> CodedValue {
    CodedValue {
        precision: value.prec,
        decimal: ScalarView { text, reading: Ok::<HpValue, Seq<char>>(value) },
    }
}

/// The encodings of values: the text of each, or why it has none.
pub open spec fn codes_view(s: Seq<Result<String, String>>) -> Seq<Result<Seq<char>, Seq<char>>> {
    Seq::new(
        s.len(),
        |i: int|
            match s[i] {
                Ok(t) => Ok::<Seq<char>, Seq<char>>(t@),
                Err(m) => Err::<Seq<char>, Seq<char>>(m@),
            },
    )
}

/// A refined root in text form.
#[derive(Debug)]
pub struct PortableRootRefinementResult {
    pub value: PortableHpFloat,
    pub iterations: usize,
    pub final_correction: PortableHpFloat,
    pub residual: PortableHpFloat,
    pub achieved_decimal_digits: PortableHpFloat,
}

/// A root outcome in text form.
#[derive(Debug)]
pub enum PortableEigenvalueResult {
    Converged(PortableRootRefinementResult),
    Stagnated(PortableRootRefinementResult),
    Approximate(PortableRootRefinementResult),
    Failed { iterations: usize, reason: String },
}

/// A refined root in text form, as mathematics.
pub struct CodedRefinement {
    pub value: CodedValue,
    pub iterations: nat,
    pub final_correction: CodedValue,
    pub residual: CodedValue,
    pub achieved_decimal_digits: CodedValue,
}

/// A root outcome in text form, as mathematics.
pub enum CodedOutcome {
    Valued { status: RootStatus, refinement: CodedRefinement },
    Failed { iterations: nat, reason: Seq<char> },
}

impl View for PortableRootRefinementResult {
    type V = CodedRefinement;

    open spec fn view(&self) -> CodedRefinement {
        CodedRefinement {
            value: self.value@,
            iterations: self.iterations as nat,
            final_correction: self.final_correction@,
            residual: self.residual@,
            achieved_decimal_digits: self.achieved_decimal_digits@,
        }
    }
}

impl View for PortableEigenvalueResult {
    type V = CodedOutcome;

    open spec fn view(&self) -> CodedOutcome {
        match self {
            PortableEigenvalueResult::Converged(x) => CodedOutcome::Valued {
                status: RootStatus::Converged,
                refinement: x@,
            },
            PortableEigenvalueResult::Stagnated(x) => CodedOutcome::Valued {
                status: RootStatus::Stagnated,
                refinement: x@,
            },
            PortableEigenvalueResult::Approximate(x) => CodedOutcome::Valued {
                status: RootStatus::Approximate,
                refinement: x@,
            },
            PortableEigenvalueResult::Failed { iterations, reason } => CodedOutcome::Failed {
                iterations: *iterations as nat,
                reason: reason@,
            },
        }
    }
}

pub open spec fn coded_outcomes(s: Seq<PortableEigenvalueResult>) -> Seq<CodedOutcome> {
    Seq::new(s.len(), |i: int| s[i]@)
}

pub open spec fn coded_values(s: Seq<PortableHpFloat>) -> Seq<CodedValue> {
    Seq::new(s.len(), |i: int| s[i]@)
}

/// A run in text form.
#[derive(Debug)]
pub struct PortableHighPrecResult {
    pub eigenvalues_pos: Vec<PortableEigenvalueResult>,
    pub first_positive_root_index: usize,
    pub weil_min_eigenvalue: PortableHpFloat,
    pub xi: Vec<PortableHpFloat>,
    pub inverse_iteration_diagnostics: PortableInverseIterationDiagnostics,
    pub precision_bits: u32,
}

/// The values of an outcome, in the order in which they are encoded.
pub open spec fn outcome_values(o: OutcomeView) -> Seq<HpValue> {
    match o {
        OutcomeView::Valued { status, refinement } => seq![
            refinement.value,
            refinement.final_correction,
            refinement.residual,
            refinement.achieved_decimal_digits,
        ],
        OutcomeView::Failed { .. } => seq![],
    }
}

/// The values of the leading `n` outcomes.
pub open spec fn window_values(s: Seq<OutcomeView>, n: nat) -> Seq<HpValue>
    decreases n,
{
    if n == 0 {
        Seq::empty()
    } else {
        window_values(s, (n - 1) as nat) + outcome_values(s[n - 1])
    }
}

/// The values of a run, in the order in which they are encoded: those of its outcomes, its
/// eigenvalue, and its eigenvector.
pub open spec fn run_values(s: Seq<OutcomeView>, eigenvalue: HpValue, xi: Seq<HpValue>) -> Seq<HpValue> {
    window_values(s, s.len()).push(eigenvalue) + xi
}

/// The values of a run, in the order in which they are encoded.
pub fn values_to_encode(result: &HighPrecResult) -> (r: Vec<HpFloat>)
    ensures
        vals(r@) == run_values(
            outcomes(result.eigenvalues_pos@),
            result.weil_min_eigenvalue@,
            vals(result.xi@),
        ),
{
    let ghost s = outcomes(result.eigenvalues_pos@);
    let mut out: Vec<HpFloat> = Vec::new();
    let mut i: usize = 0;
    assert(vals(out@) =~= Seq::<HpValue>::empty());
    while i < result.eigenvalues_pos.len()
        invariant
            i <= result.eigenvalues_pos.len(),
            s == outcomes(result.eigenvalues_pos@),
            vals(out@) == window_values(s, i as nat),
        decreases result.eigenvalues_pos.len() - i,
    {
        assert(s[i as int] == result.eigenvalues_pos@[i as int]@);
        let ghost before = out@;
        match refinement_of(&result.eigenvalues_pos[i]) {
            None => {
                assert(vals(out@) =~= vals(before) + outcome_values(s[i as int]));
            },
            Some(x) => {
                out.push(x.value.clone());
                out.push(x.diagnostics.final_correction.clone());
                out.push(x.diagnostics.residual.clone());
                out.push(x.diagnostics.achieved_decimal_digits.clone());
                assert(vals(out@) =~= vals(before) + outcome_values(s[i as int]));
            },
        }
        i = i + 1;
    }
    let ghost before = out@;
    out.push(result.weil_min_eigenvalue.clone());
    assert(vals(out@) =~= vals(before).push(result.weil_min_eigenvalue@));
    let ghost base = vals(out@);
    let mut j: usize = 0;
    assert(vals(out@) =~= base + vals(result.xi@).take(0));
    while j < result.xi.len()
        invariant
            j <= result.xi.len(),
            vals(out@) == base + vals(result.xi@).take(j as int),
        decreases result.xi.len() - j,
    {
        let ghost so_far = out@;
        out.push(result.xi[j].clone());
        assert(vals(out@) =~= vals(so_far).push(vals(result.xi@)[j as int]));
        j = j + 1;
        assert(vals(out@) =~= base + vals(result.xi@).take(j as int));
    }
    assert(vals(result.xi@).take(result.xi@.len() as int) =~= vals(result.xi@));
    out
}

fn refinement_of(o: &EigenvalueResult) -> (r: Option<&RootRefinement>)
    ensures
        match r {
            Some(x) => o@ is Valued && o@->refinement == x@,
            None => o@ is Failed,
        },
{
    match o {
        EigenvalueResult::Converged(x) => Some(x),
        EigenvalueResult::Stagnated(x) => Some(x),
        EigenvalueResult::Approximate(x) => Some(x),
        EigenvalueResult::Failed { .. } => None,
    }
}

/// The first encoding that failed, at or after a position.
pub open spec fn first_refused(codes: Seq<Result<Seq<char>, Seq<char>>>, from: int) -> Option<Seq<char>>
    decreases codes.len() - from,
{
    if from < 0 || from >= codes.len() {
        None
    } else {
        match codes[from] {
            Err(m) => Some(m),
            Ok(_) => first_refused(codes, from + 1),
        }
    }
}

/// Whether a range of root indices can be numbered.
pub open spec fn index_range_holds(first: nat, count: nat) -> bool {
    first > 0 && first + (if count > 0 {
        count - 1
    } else {
        0
    }) <= usize::MAX
}

fn range_is_numbered(first: usize, count: usize) -> (r: bool)
    ensures
        r == index_range_holds(first as nat, count as nat),
{
    let span: usize = if count > 0 {
        count - 1
    } else {
        0
    };
    first > 0 && first.checked_add(span).is_some()
}

/// A refined root with the encodings that start at a position.
pub open spec fn coded_refinement(
    x: RefinementView,
    codes: Seq<Result<Seq<char>, Seq<char>>>,
    at: int,
) -> CodedRefinement {
    CodedRefinement {
        value: coded(x.value, codes[at]->Ok_0),
        iterations: x.iterations,
        final_correction: coded(x.final_correction, codes[at + 1]->Ok_0),
        residual: coded(x.residual, codes[at + 2]->Ok_0),
        achieved_decimal_digits: coded(x.achieved_decimal_digits, codes[at + 3]->Ok_0),
    }
}

/// An outcome with the encodings that start at a position.
pub open spec fn coded_outcome(
    o: OutcomeView,
    codes: Seq<Result<Seq<char>, Seq<char>>>,
    at: int,
) -> CodedOutcome {
    match o {
        OutcomeView::Failed { iterations, reason } => CodedOutcome::Failed { iterations, reason },
        OutcomeView::Valued { status, refinement } => CodedOutcome::Valued {
            status,
            refinement: coded_refinement(refinement, codes, at),
        },
    }
}

/// The leading `n` outcomes with their encodings.
pub open spec fn coded_window(
    s: Seq<OutcomeView>,
    codes: Seq<Result<Seq<char>, Seq<char>>>,
    n: nat,
) -> Seq<CodedOutcome>
    decreases n,
{
    if n == 0 {
        Seq::empty()
    } else {
        coded_window(s, codes, (n - 1) as nat).push(
            coded_outcome(s[n - 1], codes, window_values(s, (n - 1) as nat).len() as int),
        )
    }
}

fn encode_value(value: &HpFloat, code: &Result<String, String>) -> (r: PortableHpFloat)
    requires
        code is Ok,
    ensures
        r@ == coded(value@, code->Ok_0@),
{
    let text: String = match code {
        Ok(t) => t.clone(),
        Err(m) => m.clone(),
    };
    PortableHpFloat { precision_bits: value.prec(), decimal: HpScalar::written(text, value) }
}

fn encode_refinement(x: &RootRefinement, codes: &Vec<Result<String, String>>, at: usize) -> (r:
    PortableRootRefinementResult)
    requires
        at + 4 <= codes.len(),
        forall|k: int| 0 <= k < codes@.len() ==> (#[trigger] codes@[k]) is Ok,
    ensures
        r@ == coded_refinement(x@, codes_view(codes@), at as int),
{
    PortableRootRefinementResult {
        value: encode_value(&x.value, &codes[at]),
        iterations: x.diagnostics.iterations,
        final_correction: encode_value(&x.diagnostics.final_correction, &codes[at + 1]),
        residual: encode_value(&x.diagnostics.residual, &codes[at + 2]),
        achieved_decimal_digits: encode_value(
            &x.diagnostics.achieved_decimal_digits,
            &codes[at + 3],
        ),
    }
}

proof fn lemma_none_refused(codes: Seq<Result<Seq<char>, Seq<char>>>, from: int)
    requires
        0 <= from <= codes.len(),
        forall|k: int| from <= k < codes.len() ==> (#[trigger] codes[k]) is Ok,
    ensures
        first_refused(codes, from) is None,
    decreases codes.len() - from,
{
    if from < codes.len() {
        lemma_none_refused(codes, from + 1);
    }
}

proof fn lemma_first_refused(codes: Seq<Result<Seq<char>, Seq<char>>>, from: int, at: int)
    requires
        0 <= from <= at < codes.len(),
        codes[at] is Err,
        forall|k: int| from <= k < at ==> (#[trigger] codes[k]) is Ok,
    ensures
        first_refused(codes, from) == Some(codes[at]->Err_0),
    decreases at - from,
{
    if from < at {
        lemma_first_refused(codes, from + 1, at);
    }
}

proof fn lemma_window_grows(s: Seq<OutcomeView>, n: nat, m: nat)
    requires
        n <= m,
    ensures
        window_values(s, n).len() <= window_values(s, m).len(),
    decreases m,
{
    if n < m {
        lemma_window_grows(s, n, (m - 1) as nat);
    }
}

impl PortableHighPrecResult {
    /// Whether a portable result is a run with the given encodings of its values.
    pub open spec fn encodes(
        self,
        s: Seq<OutcomeView>,
        result: HighPrecResult,
        codes: Seq<Result<Seq<char>, Seq<char>>>,
    ) -> bool {
        let w = window_values(s, s.len()).len() as int;
        &&& coded_outcomes(self.eigenvalues_pos@) == coded_window(s, codes, s.len())
        &&& self.first_positive_root_index == result.first_positive_root_index
        &&& self.weil_min_eigenvalue@ == coded(result.weil_min_eigenvalue@, codes[w]->Ok_0)
        &&& coded_values(self.xi@) == Seq::new(
            result.xi@.len(),
            |i: int| coded(result.xi@[i]@, codes[w + 1 + i]->Ok_0),
        )
        &&& self.precision_bits == result.precision_bits
    }

    /// A run in text form, with the encodings of [`values_to_encode`].
    pub fn from_runtime(
        result: &HighPrecResult,
        codes: &Vec<Result<String, String>>,
        change_text: String,
        residual_text: String,
    ) -> (r: Result<PortableHighPrecResult, CcmError>)
        requires
            codes@.len() == run_values(
                outcomes(result.eigenvalues_pos@),
                result.weil_min_eigenvalue@,
                vals(result.xi@),
            ).len(),
        ensures
            ({
                let s = outcomes(result.eigenvalues_pos@);
                let c = codes_view(codes@);
                let numbered = index_range_holds(
                    result.first_positive_root_index as nat,
                    result.eigenvalues_pos@.len(),
                );
                let d = result.inverse_iteration_diagnostics@;
                match r {
                    Ok(p) => {
                        &&& numbered
                        &&& first_refused(c, 0) is None
                        &&& p.encodes(s, *result, c)
                        &&& p.inverse_iteration_diagnostics@ == (StoredDiagnostics {
                            limit: d.configured_step_limit,
                            steps: d.unshifted_steps,
                            converged: d.unshifted_converged,
                            change: match d.change {
                                None => None,
                                Some(v) => Some(ScalarView { text: change_text@, reading: Ok(v) }),
                            },
                            shifted: d.shifted_refinement.label(),
                            residual: ScalarView { text: residual_text@, reading: Ok(d.residual) },
                        })
                    },
                    Err(e) => if numbered {
                        e is Refused && first_refused(c, 0) == Some(e.text())
                    } else {
                        e.refuses("CCM root index range is invalid"@)
                    },
                }
            }),
    {
        let ghost s = outcomes(result.eigenvalues_pos@);
        let ghost c = codes_view(codes@);
        let ghost total = window_values(s, s.len()).len();
        if !range_is_numbered(result.first_positive_root_index, result.eigenvalues_pos.len()) {
            return Err(CcmError::refused("CCM root index range is invalid"));
        }
        let mut i: usize = 0;
        while i < codes.len()
            invariant
                i <= codes.len(),
                c == codes_view(codes@),
                index_range_holds(
                    result.first_positive_root_index as nat,
                    result.eigenvalues_pos@.len(),
                ),
                forall|k: int| 0 <= k < i ==> (#[trigger] codes@[k]) is Ok,
            decreases codes.len() - i,
        {
            match &codes[i] {
                Ok(_) => {},
                Err(m) => {
                    proof {
                        assert(c[i as int] is Err);
                        assert forall|k: int| 0 <= k < i implies (#[trigger] c[k]) is Ok by {
                            assert(codes@[k] is Ok);
                        }
                        lemma_first_refused(c, 0, i as int);
                    }
                    return Err(CcmError::Refused(m.clone()));
                },
            }
            i = i + 1;
        }
        proof {
            assert forall|k: int| 0 <= k < c.len() implies (#[trigger] c[k]) is Ok by {
                assert(codes@[k] is Ok);
            }
            lemma_none_refused(c, 0);
        }
        let mut eigenvalues_pos: Vec<PortableEigenvalueResult> = Vec::new();
        let mut at: usize = 0;
        let mut k: usize = 0;
        assert(coded_outcomes(eigenvalues_pos@) =~= Seq::<CodedOutcome>::empty());
        while k < result.eigenvalues_pos.len()
            invariant
                k <= result.eigenvalues_pos.len(),
                s == outcomes(result.eigenvalues_pos@),
                c == codes_view(codes@),
                total == window_values(s, s.len()).len(),
                codes.len() == total + 1 + result.xi@.len(),
                forall|j: int| 0 <= j < codes@.len() ==> (#[trigger] codes@[j]) is Ok,
                at == window_values(s, k as nat).len(),
                coded_outcomes(eigenvalues_pos@) == coded_window(s, c, k as nat),
            decreases result.eigenvalues_pos.len() - k,
        {
            assert(s[k as int] == result.eigenvalues_pos@[k as int]@);
            proof {
                lemma_window_grows(s, (k + 1) as nat, s.len());
            }
            let ghost before = eigenvalues_pos@;
            let (next, used): (PortableEigenvalueResult, usize) = match &result.eigenvalues_pos[k] {
                EigenvalueResult::Converged(x) => (
                    PortableEigenvalueResult::Converged(encode_refinement(x, codes, at)),
                    4,
                ),
                EigenvalueResult::Stagnated(x) => (
                    PortableEigenvalueResult::Stagnated(encode_refinement(x, codes, at)),
                    4,
                ),
                EigenvalueResult::Approximate(x) => (
                    PortableEigenvalueResult::Approximate(encode_refinement(x, codes, at)),
                    4,
                ),
                EigenvalueResult::Failed { iterations, reason } => (
                    PortableEigenvalueResult::Failed {
                        iterations: *iterations,
                        reason: reason.clone(),
                    },
                    0,
                ),
            };
            assert(next@ == coded_outcome(s[k as int], c, at as int));
            let ghost added = next@;
            eigenvalues_pos.push(next);
            assert(coded_outcomes(eigenvalues_pos@) =~= coded_outcomes(before).push(added));
            at = at + used;
            k = k + 1;
        }
        assert(c[at as int] == Ok::<Seq<char>, Seq<char>>(codes@[at as int]->Ok_0@)) by {
            assert(codes@[at as int] is Ok);
        }
        let weil_min_eigenvalue: PortableHpFloat = encode_value(
            &result.weil_min_eigenvalue,
            &codes[at],
        );
        let mut xi: Vec<PortableHpFloat> = Vec::with_capacity(result.xi.len());
        let mut j: usize = 0;
        while j < result.xi.len()
            invariant
                j <= result.xi.len(),
                c == codes_view(codes@),
                at == total,
                codes.len() == total + 1 + result.xi@.len(),
                forall|m: int| 0 <= m < codes@.len() ==> (#[trigger] codes@[m]) is Ok,
                xi.len() == j,
                forall|m: int|
                    0 <= m < j ==> (#[trigger] xi@[m])@ == coded(
                        result.xi@[m]@,
                        c[at + 1 + m]->Ok_0,
                    ),
            decreases result.xi.len() - j,
        {
            assert(c[at + 1 + j] == Ok::<Seq<char>, Seq<char>>(codes@[at + 1 + j]->Ok_0@)) by {
                assert(codes@[at + 1 + j] is Ok);
            }
            xi.push(encode_value(&result.xi[j], &codes[at + 1 + j]));
            j = j + 1;
        }
        assert(coded_values(xi@) =~= Seq::new(
            result.xi@.len(),
            |m: int| coded(result.xi@[m]@, c[total + 1 + m]->Ok_0),
        ));
        Ok(
            PortableHighPrecResult {
                eigenvalues_pos,
                first_positive_root_index: result.first_positive_root_index,
                weil_min_eigenvalue,
                xi,
                inverse_iteration_diagnostics: PortableInverseIterationDiagnostics::from_runtime(
                    &result.inverse_iteration_diagnostics,
                    change_text,
                    residual_text,
                ),
                precision_bits: result.precision_bits,
            },
        )
    }
}

/// The value that a text form reads as, or why it does not read.
pub open spec fn decoded(x: CodedValue) -> Result<HpValue, Seq<char>> {
    x.decimal.reading
}

/// A refined root read from its text form; the first value that does not read decides.
pub open spec fn decoded_refinement(x: CodedRefinement) -> Result<RefinementView, Seq<char>> {
    if decoded(x.value) is Err {
        Err(decoded(x.value)->Err_0)
    } else if decoded(x.final_correction) is Err {
        Err(decoded(x.final_correction)->Err_0)
    } else if decoded(x.residual) is Err {
        Err(decoded(x.residual)->Err_0)
    } else if decoded(x.achieved_decimal_digits) is Err {
        Err(decoded(x.achieved_decimal_digits)->Err_0)
    } else {
        Ok(
            RefinementView {
                value: decoded(x.value)->Ok_0,
                iterations: x.iterations,
                final_correction: decoded(x.final_correction)->Ok_0,
                residual: decoded(x.residual)->Ok_0,
                achieved_decimal_digits: decoded(x.achieved_decimal_digits)->Ok_0,
            },
        )
    }
}

/// An outcome read from its text form.
pub open spec fn decoded_outcome(o: CodedOutcome) -> Result<OutcomeView, Seq<char>> {
    match o {
        CodedOutcome::Failed { iterations, reason } => Ok(
            OutcomeView::Failed { iterations, reason },
        ),
        CodedOutcome::Valued { status, refinement } => match decoded_refinement(refinement) {
            Ok(x) => Ok(OutcomeView::Valued { status, refinement: x }),
            Err(m) => Err(m),
        },
    }
}

/// The leading `n` outcomes read from their text forms; the first that does not read decides.
pub open spec fn decoded_window(s: Seq<CodedOutcome>, n: nat) -> Result<Seq<OutcomeView>, Seq<char>>
    decreases n,
{
    if n == 0 {
        Ok(Seq::empty())
    } else {
        match decoded_window(s, (n - 1) as nat) {
            Err(m) => Err(m),
            Ok(v) => match decoded_outcome(s[n - 1]) {
                Err(m) => Err(m),
                Ok(o) => Ok(v.push(o)),
            },
        }
    }
}

/// The leading `n` values read from their text forms; the first that does not read decides.
pub open spec fn decoded_values(s: Seq<CodedValue>, n: nat) -> Result<Seq<HpValue>, Seq<char>>
    decreases n,
{
    if n == 0 {
        Ok(Seq::empty())
    } else {
        match decoded_values(s, (n - 1) as nat) {
            Err(m) => Err(m),
            Ok(v) => match decoded(s[n - 1]) {
                Err(m) => Err(m),
                Ok(x) => Ok(v.push(x)),
            },
        }
    }
}

/// A run, as mathematics.
pub struct RunView {
    pub outcomes: Seq<OutcomeView>,
    pub first: nat,
    pub eigenvalue: HpValue,
    pub xi: Seq<HpValue>,
    pub diagnostics: DiagnosticsView,
    pub precision_bits: u32,
}

/// A run, as mathematics.
pub open spec fn run_view(r: HighPrecResult) -> RunView {
    RunView {
        outcomes: outcomes(r.eigenvalues_pos@),
        first: r.first_positive_root_index as nat,
        eigenvalue: r.weil_min_eigenvalue@,
        xi: vals(r.xi@),
        diagnostics: r.inverse_iteration_diagnostics@,
        precision_bits: r.precision_bits,
    }
}

/// The run that a portable result reads as, or why it does not read.
pub open spec fn decoded_run(p: PortableHighPrecResult) -> Result<RunView, Seq<char>> {
    let window = decoded_window(coded_outcomes(p.eigenvalues_pos@), p.eigenvalues_pos@.len());
    let xi = decoded_values(coded_values(p.xi@), p.xi@.len());
    let diagnostics = diagnostics_of(p.inverse_iteration_diagnostics@);
    if !index_range_holds(p.first_positive_root_index as nat, p.eigenvalues_pos@.len()) {
        Err("portable CCM result has an invalid root index range"@)
    } else if window is Err {
        Err(window->Err_0)
    } else if decoded(p.weil_min_eigenvalue@) is Err {
        Err(decoded(p.weil_min_eigenvalue@)->Err_0)
    } else if xi is Err {
        Err(xi->Err_0)
    } else if diagnostics is Err {
        Err(diagnostics->Err_0)
    } else {
        Ok(
            RunView {
                outcomes: window->Ok_0,
                first: p.first_positive_root_index as nat,
                eigenvalue: decoded(p.weil_min_eigenvalue@)->Ok_0,
                xi: xi->Ok_0,
                diagnostics: diagnostics->Ok_0,
                precision_bits: p.precision_bits,
            },
        )
    }
}

fn decode_value(x: &PortableHpFloat) -> (r: Result<HpFloat, CcmError>)
    ensures
        match r {
            Ok(v) => decoded(x@) == Ok::<HpValue, Seq<char>>(v@),
            Err(e) => e is Refused && decoded(x@) == Err::<HpValue, Seq<char>>(e.text()),
        },
{
    match &x.decimal.reading {
        Ok(v) => Ok(v.clone()),
        Err(m) => Err(CcmError::Refused(m.clone())),
    }
}

impl PortableRootRefinementResult {
    /// The refined root of a text form.
    pub fn to_runtime(&self) -> (r: Result<RootRefinement, CcmError>)
        ensures
            match r {
                Ok(x) => decoded_refinement(self@) == Ok::<RefinementView, Seq<char>>(x@),
                Err(e) => e is Refused && decoded_refinement(self@) == Err::<
                    RefinementView,
                    Seq<char>,
                >(e.text()),
            },
    {
        let value: HpFloat = match decode_value(&self.value) {
            Ok(v) => v,
            Err(e) => {
                return Err(e);
            },
        };
        let final_correction: HpFloat = match decode_value(&self.final_correction) {
            Ok(v) => v,
            Err(e) => {
                return Err(e);
            },
        };
        let residual: HpFloat = match decode_value(&self.residual) {
            Ok(v) => v,
            Err(e) => {
                return Err(e);
            },
        };
        let achieved_decimal_digits: HpFloat = match decode_value(&self.achieved_decimal_digits) {
            Ok(v) => v,
            Err(e) => {
                return Err(e);
            },
        };
        Ok(
            RootRefinement {
                value,
                diagnostics: RootRefinementDiagnostics {
                    iterations: self.iterations,
                    final_correction,
                    residual,
                    achieved_decimal_digits,
                },
            },
        )
    }
}

fn decode_outcome(o: &PortableEigenvalueResult) -> (r: Result<EigenvalueResult, CcmError>)
    ensures
        match r {
            Ok(x) => decoded_outcome(o@) == Ok::<OutcomeView, Seq<char>>(x@),
            Err(e) => e is Refused && decoded_outcome(o@) == Err::<OutcomeView, Seq<char>>(
                e.text(),
            ),
        },
{
    match o {
        PortableEigenvalueResult::Converged(x) => match x.to_runtime() {
            Ok(v) => Ok(EigenvalueResult::Converged(v)),
            Err(e) => Err(e),
        },
        PortableEigenvalueResult::Stagnated(x) => match x.to_runtime() {
            Ok(v) => Ok(EigenvalueResult::Stagnated(v)),
            Err(e) => Err(e),
        },
        PortableEigenvalueResult::Approximate(x) => match x.to_runtime() {
            Ok(v) => Ok(EigenvalueResult::Approximate(v)),
            Err(e) => Err(e),
        },
        PortableEigenvalueResult::Failed { iterations, reason } => Ok(
            EigenvalueResult::Failed { iterations: *iterations, reason: reason.clone() },
        ),
    }
}

proof fn lemma_window_rejected(s: Seq<CodedOutcome>, n: nat, total: nat)
    requires
        n <= total,
        decoded_window(s, n) is Err,
    ensures
        decoded_window(s, total) == decoded_window(s, n),
    decreases total,
{
    if n < total {
        lemma_window_rejected(s, n, (total - 1) as nat);
    }
}

proof fn lemma_values_rejected(s: Seq<CodedValue>, n: nat, total: nat)
    requires
        n <= total,
        decoded_values(s, n) is Err,
    ensures
        decoded_values(s, total) == decoded_values(s, n),
    decreases total,
{
    if n < total {
        lemma_values_rejected(s, n, (total - 1) as nat);
    }
}

impl PortableHighPrecResult {
    /// The run of a text form.
    pub fn to_runtime(&self) -> (r: Result<HighPrecResult, CcmError>)
        ensures
            match r {
                Ok(v) => decoded_run(*self) == Ok::<RunView, Seq<char>>(run_view(v)),
                Err(e) => decoded_run(*self) == Err::<RunView, Seq<char>>(e.text()),
            },
    {
        let ghost t = coded_outcomes(self.eigenvalues_pos@);
        let ghost u = coded_values(self.xi@);
        if !range_is_numbered(self.first_positive_root_index, self.eigenvalues_pos.len()) {
            return Err(CcmError::refused("portable CCM result has an invalid root index range"));
        }
        let mut eigenvalues_pos: Vec<EigenvalueResult> = Vec::new();
        let mut k: usize = 0;
        assert(outcomes(eigenvalues_pos@) =~= Seq::<OutcomeView>::empty());
        while k < self.eigenvalues_pos.len()
            invariant
                k <= self.eigenvalues_pos.len(),
                t == coded_outcomes(self.eigenvalues_pos@),
                index_range_holds(
                    self.first_positive_root_index as nat,
                    self.eigenvalues_pos@.len(),
                ),
                decoded_window(t, k as nat) == Ok::<Seq<OutcomeView>, Seq<char>>(
                    outcomes(eigenvalues_pos@),
                ),
            decreases self.eigenvalues_pos.len() - k,
        {
            assert(t[k as int] == self.eigenvalues_pos@[k as int]@);
            match decode_outcome(&self.eigenvalues_pos[k]) {
                Err(e) => {
                    proof {
                        lemma_window_rejected(t, (k + 1) as nat, t.len());
                    }
                    return Err(e);
                },
                Ok(o) => {
                    let ghost before = eigenvalues_pos@;
                    let ghost added = o@;
                    eigenvalues_pos.push(o);
                    assert(outcomes(eigenvalues_pos@) =~= outcomes(before).push(added));
                },
            }
            k = k + 1;
        }
        let weil_min_eigenvalue: HpFloat = match decode_value(&self.weil_min_eigenvalue) {
            Ok(v) => v,
            Err(e) => {
                return Err(e);
            },
        };
        let mut xi: Vec<HpFloat> = Vec::with_capacity(self.xi.len());
        let mut j: usize = 0;
        assert(vals(xi@) =~= Seq::<HpValue>::empty());
        while j < self.xi.len()
            invariant
                j <= self.xi.len(),
                t == coded_outcomes(self.eigenvalues_pos@),
                u == coded_values(self.xi@),
                index_range_holds(
                    self.first_positive_root_index as nat,
                    self.eigenvalues_pos@.len(),
                ),
                decoded_window(t, t.len()) is Ok,
                decoded(self.weil_min_eigenvalue@) is Ok,
                decoded_values(u, j as nat) == Ok::<Seq<HpValue>, Seq<char>>(vals(xi@)),
            decreases self.xi.len() - j,
        {
            assert(u[j as int] == self.xi@[j as int]@);
            match decode_value(&self.xi[j]) {
                Err(e) => {
                    proof {
                        lemma_values_rejected(u, (j + 1) as nat, u.len());
                    }
                    return Err(e);
                },
                Ok(v) => {
                    let ghost before = xi@;
                    let ghost added = v@;
                    xi.push(v);
                    assert(vals(xi@) =~= vals(before).push(added));
                },
            }
            j = j + 1;
        }
        match self.inverse_iteration_diagnostics.to_runtime() {
            Err(e) => Err(e),
            Ok(inverse_iteration_diagnostics) => Ok(
                HighPrecResult {
                    eigenvalues_pos,
                    first_positive_root_index: self.first_positive_root_index,
                    weil_min_eigenvalue,
                    xi,
                    inverse_iteration_diagnostics,
                    precision_bits: self.precision_bits,
                },
            ),
        }
    }
}

proof fn lemma_coded_window_reads(
    s: Seq<OutcomeView>,
    codes: Seq<Result<Seq<char>, Seq<char>>>,
    n: nat,
)
    requires
        n <= s.len(),
    ensures
        coded_window(s, codes, n).len() == n,
        decoded_window(coded_window(s, codes, n), n) == Ok::<Seq<OutcomeView>, Seq<char>>(
            s.take(n as int),
        ),
    decreases n,
{
    if n > 0 {
        let m = (n - 1) as nat;
        lemma_coded_window_reads(s, codes, m);
        let now = coded_window(s, codes, n);
        let before = coded_window(s, codes, m);
        lemma_window_prefix(now, before, m);
        assert(s.take(n as int) =~= s.take(m as int).push(s[n - 1]));
    } else {
        assert(s.take(0) =~= Seq::<OutcomeView>::empty());
    }
}

proof fn lemma_window_prefix(a: Seq<CodedOutcome>, b: Seq<CodedOutcome>, n: nat)
    requires
        n <= a.len(),
        n <= b.len(),
        forall|i: int| 0 <= i < n ==> a[i] == b[i],
    ensures
        decoded_window(a, n) == decoded_window(b, n),
    decreases n,
{
    if n > 0 {
        lemma_window_prefix(a, b, (n - 1) as nat);
    }
}

proof fn lemma_coded_values_read(c: Seq<CodedValue>, v: Seq<HpValue>, n: nat)
    requires
        n <= c.len(),
        c.len() == v.len(),
        forall|i: int| 0 <= i < c.len() ==> decoded(#[trigger] c[i]) == Ok::<HpValue, Seq<char>>(v[i]),
    ensures
        decoded_values(c, n) == Ok::<Seq<HpValue>, Seq<char>>(v.take(n as int)),
    decreases n,
{
    if n > 0 {
        lemma_coded_values_read(c, v, (n - 1) as nat);
        assert(v.take(n as int) =~= v.take(n - 1).push(v[n - 1]));
    } else {
        assert(v.take(0) =~= Seq::<HpValue>::empty());
    }
}

/// A run in text form reads back as the run that it was written from: values, statuses and
/// precisions.
pub proof fn law_portable_run_reads_back(
    p: PortableHighPrecResult,
    result: HighPrecResult,
    codes: Seq<Result<Seq<char>, Seq<char>>>,
    change_text: Seq<char>,
    residual_text: Seq<char>,
)
    requires
        index_range_holds(
            result.first_positive_root_index as nat,
            result.eigenvalues_pos@.len(),
        ),
        p.encodes(outcomes(result.eigenvalues_pos@), result, codes),
        computed_evidence(result.inverse_iteration_diagnostics@),
        p.inverse_iteration_diagnostics@ == (StoredDiagnostics {
            limit: result.inverse_iteration_diagnostics@.configured_step_limit,
            steps: result.inverse_iteration_diagnostics@.unshifted_steps,
            converged: result.inverse_iteration_diagnostics@.unshifted_converged,
            change: match result.inverse_iteration_diagnostics@.change {
                None => None,
                Some(v) => Some(ScalarView { text: change_text, reading: Ok(v) }),
            },
            shifted: result.inverse_iteration_diagnostics@.shifted_refinement.label(),
            residual: ScalarView {
                text: residual_text,
                reading: Ok(result.inverse_iteration_diagnostics@.residual),
            },
        }),
    ensures
        decoded_run(p) == Ok::<RunView, Seq<char>>(run_view(result)),
        p.weil_min_eigenvalue@.precision == result.weil_min_eigenvalue@.prec,
        forall|i: int|
            0 <= i < result.xi@.len() ==> (#[trigger] coded_values(p.xi@)[i]).precision
                == result.xi@[i]@.prec,
{
    let s = outcomes(result.eigenvalues_pos@);
    lemma_coded_window_reads(s, codes, s.len());
    assert(s.take(s.len() as int) =~= s);
    assert(coded_outcomes(p.eigenvalues_pos@).len() == s.len());
    lemma_coded_values_read(coded_values(p.xi@), vals(result.xi@), result.xi@.len());
    assert(vals(result.xi@).take(result.xi@.len() as int) =~= vals(result.xi@));
    law_diagnostics_round_trip(
        result.inverse_iteration_diagnostics@,
        change_text,
        residual_text,
    );
    assert(p.eigenvalues_pos@.len() == result.eigenvalues_pos@.len());
    assert(coded_values(p.xi@).len() == result.xi@.len());
    let found = decoded_run(p);
    assert(found is Ok);
    assert(found->Ok_0.outcomes == s);
    assert(found->Ok_0.xi == vals(result.xi@));
    assert(found->Ok_0 == run_view(result));
}

} // verus!
