//! Stored payloads: scalars with their readings, and the checks that turn a payload back into
//! values.

use crate::config::{
    lambda_squared_cache_identity, CcmEigenstateSolver, CcmParams, HighPrecConfig,
};
use crate::error::CcmError;
use crate::float::HpFloat;
use crate::matrix::vals;
use crate::outcome::{
    DiagnosticsView, EigenvalueResult, InverseIterationDiagnostics, OutcomeView, RefinementView,
    RootRefinement, RootRefinementDiagnostics, ShiftedRefinementOutcome,
};
use crate::refine::RootStatus;
use crate::rounding::{hp_word, HpValue};
use crate::text::text_equal;
use vstd::prelude::*;
use vstd::string::*;

verus! {

/// A stored scalar: its text, and what the text reads as at the payload's precision, or why
/// it does not.
#[derive(Debug)]
pub struct HpScalar {
    pub text: String,
    pub reading: Result<HpFloat, String>,
}

/// A stored scalar, as mathematics.
pub struct ScalarView {
    pub text: Seq<char>,
    pub reading: Result<HpValue, Seq<char>>,
}

impl View for HpScalar {
    type V = ScalarView;

    open spec fn view(&self) -> ScalarView {
        ScalarView {
            text: self.text@,
            reading: match self.reading {
                Ok(v) => Ok(v@),
                Err(m) => Err(m@),
            },
        }
    }
}

pub open spec fn scalars(s: Seq<HpScalar>) -> Seq<ScalarView> {
    Seq::new(s.len(), |i: int| s[i]@)
}

/// The views of strings.
pub open spec fn strings(s: Seq<String>) -> Seq<Seq<char>> {
    Seq::new(s.len(), |i: int| s[i]@)
}

impl HpScalar {
    /// A scalar that reads as the value it was written from.
    pub fn written(text: String, value: &HpFloat) -> (r: HpScalar)
        ensures
            r@ == (ScalarView { text: text@, reading: Ok(value@) }),
    {
        HpScalar { text, reading: Ok(value.clone()) }
    }
}

/// Whether a payload names the source that a reader asks for.
pub open spec fn names_source(
    lambda_squared: Seq<char>,
    n_modes: usize,
    precision_bits: u32,
    params: CcmParams,
    cfg: HighPrecConfig,
) -> bool {
    lambda_squared == params.identity() && n_modes == params.n_modes && precision_bits
        == cfg.precision_bits
}

/// Whether a payload names the source that a reader asks for.
pub fn source_matches(
    lambda_squared: &String,
    n_modes: usize,
    precision_bits: u32,
    params: &CcmParams,
    cfg: &HighPrecConfig,
) -> (r: bool)
    ensures
        r == names_source(lambda_squared@, n_modes, precision_bits, *params, *cfg),
{
    let identity: String = lambda_squared_cache_identity(params);
    text_equal(lambda_squared.as_str(), identity.as_str()) && n_modes == params.n_modes
        && precision_bits == cfg.precision_bits
}

/// The finite value of a scalar, or the words of its rejection.
pub open spec fn finite_scalar(s: ScalarView) -> Result<HpValue, Seq<char>> {
    match s.reading {
        Err(m) => Err("CCM component contains an invalid HP scalar: "@ + m),
        Ok(v) => if v.is_finite() {
            Ok(v)
        } else {
            Err("CCM component contains a non-finite HP scalar"@)
        },
    }
}

/// The finite values of the first `n` scalars, or the words of the first rejection.
pub open spec fn finite_vector(s: Seq<ScalarView>, n: nat) -> Result<Seq<HpValue>, Seq<char>>
    decreases n,
{
    if n == 0 {
        Ok(Seq::<HpValue>::empty())
    } else {
        match finite_vector(s, (n - 1) as nat) {
            Err(m) => Err(m),
            Ok(v) => match finite_scalar(s[n - 1]) {
                Err(m) => Err(m),
                Ok(x) => Ok(v.push(x)),
            },
        }
    }
}

/// Reads a scalar that must be finite.
pub fn parse_hp_scalar(s: &HpScalar) -> (r: Result<HpFloat, CcmError>)
    ensures
        match r {
            Ok(v) => finite_scalar(s@) == Ok::<HpValue, Seq<char>>(v@),
            Err(e) => e is InvalidManifest && finite_scalar(s@) == Err::<HpValue, Seq<char>>(
                e.text(),
            ),
        },
{
    match &s.reading {
        Err(m) => {
            let mut t: String = "CCM component contains an invalid HP scalar: ".to_owned();
            t.append(m.as_str());
            Err(CcmError::InvalidManifest(t))
        },
        Ok(v) => if v.is_finite() {
            Ok(v.clone())
        } else {
            Err(CcmError::invalid("CCM component contains a non-finite HP scalar"))
        },
    }
}

/// Once rejected, a longer prefix is rejected in the same words.
proof fn lemma_vector_rejected(s: Seq<ScalarView>, n: nat, total: nat)
    requires
        n <= total,
        finite_vector(s, n) is Err,
    ensures
        finite_vector(s, total) == finite_vector(s, n),
    decreases total,
{
    if n < total {
        lemma_vector_rejected(s, n, (total - 1) as nat);
    }
}

/// Reads scalars that must all be finite; the first that is not decides.
pub fn parse_hp_vector(s: &Vec<HpScalar>) -> (r: Result<Vec<HpFloat>, CcmError>)
    ensures
        match r {
            Ok(v) => finite_vector(scalars(s@), s@.len()) == Ok::<Seq<HpValue>, Seq<char>>(
                vals(v@),
            ) && v.len() == s.len(),
            Err(e) => e is InvalidManifest && finite_vector(scalars(s@), s@.len()) == Err::<
                Seq<HpValue>,
                Seq<char>,
            >(e.text()),
        },
{
    let ghost t = scalars(s@);
    let mut out: Vec<HpFloat> = Vec::with_capacity(s.len());
    let mut i: usize = 0;
    assert(vals(out@) =~= Seq::<HpValue>::empty());
    while i < s.len()
        invariant
            i <= s.len(),
            t == scalars(s@),
            out.len() == i,
            finite_vector(t, i as nat) == Ok::<Seq<HpValue>, Seq<char>>(vals(out@)),
        decreases s.len() - i,
    {
        assert(t[i as int] == s@[i as int]@);
        match parse_hp_scalar(&s[i]) {
            Err(e) => {
                proof {
                    lemma_vector_rejected(t, (i + 1) as nat, s@.len());
                }
                return Err(e);
            },
            Ok(x) => {
                let ghost before = out@;
                out.push(x);
                assert(vals(out@) =~= vals(before).push(x@));
            },
        }
        i = i + 1;
    }
    Ok(out)
}

/// The readings of the first `n` scalars, or the words of the first that does not read.
///
/// `words` opens the rejection.
pub open spec fn readings(words: Seq<char>, s: Seq<ScalarView>, n: nat) -> Result<
    Seq<HpValue>,
    Seq<char>,
>
    decreases n,
{
    if n == 0 {
        Ok(Seq::<HpValue>::empty())
    } else {
        match readings(words, s, (n - 1) as nat) {
            Err(m) => Err(m),
            Ok(v) => match s[n - 1].reading {
                Err(m) => Err(words + m),
                Ok(x) => Ok(v.push(x)),
            },
        }
    }
}

proof fn lemma_readings_rejected(words: Seq<char>, s: Seq<ScalarView>, n: nat, total: nat)
    requires
        n <= total,
        readings(words, s, n) is Err,
    ensures
        readings(words, s, total) == readings(words, s, n),
    decreases total,
{
    if n < total {
        lemma_readings_rejected(words, s, n, (total - 1) as nat);
    }
}

/// Reads scalars, finite or not; the first that does not read decides.
pub fn read_all(words: &str, s: &Vec<HpScalar>) -> (r: Result<Vec<HpFloat>, CcmError>)
    ensures
        match r {
            Ok(v) => readings(words@, scalars(s@), s@.len()) == Ok::<Seq<HpValue>, Seq<char>>(vals(v@)),
            Err(e) => e is InvalidManifest && readings(words@, scalars(s@), s@.len()) == Err::<
                Seq<HpValue>,
                Seq<char>,
            >(e.text()),
        },
{
    let ghost t = scalars(s@);
    let mut out: Vec<HpFloat> = Vec::with_capacity(s.len());
    let mut i: usize = 0;
    assert(vals(out@) =~= Seq::<HpValue>::empty());
    while i < s.len()
        invariant
            i <= s.len(),
            t == scalars(s@),
            out.len() == i,
            readings(words@, t, i as nat) == Ok::<Seq<HpValue>, Seq<char>>(vals(out@)),
        decreases s.len() - i,
    {
        assert(t[i as int] == s@[i as int]@);
        match &s[i].reading {
            Err(m) => {
                let mut w: String = words.to_owned();
                w.append(m.as_str());
                proof {
                    lemma_readings_rejected(words@, t, (i + 1) as nat, s@.len());
                }
                return Err(CcmError::InvalidManifest(w));
            },
            Ok(x) => {
                let ghost before = out@;
                out.push(x.clone());
                assert(vals(out@) =~= vals(before).push(x@));
            },
        }
        i = i + 1;
    }
    Ok(out)
}

/// Every value of an accepted vector is finite, and there is one for each scalar.
pub proof fn law_accepted_vector_is_finite(s: Seq<ScalarView>, n: nat)
    ensures
        finite_vector(s, n) matches Ok(v) ==> v.len() == n && forall|i: int|
            0 <= i < n ==> (#[trigger] v[i]).is_finite(),
    decreases n,
{
    if n > 0 {
        law_accepted_vector_is_finite(s, (n - 1) as nat);
    }
}

impl ShiftedRefinementOutcome {
    pub open spec fn label(self) -> Seq<char> {
        match self {
            ShiftedRefinementOutcome::NotAttempted => "not_attempted"@,
            ShiftedRefinementOutcome::Accepted => "accepted"@,
            ShiftedRefinementOutcome::RejectedEigenvalueJump => "rejected_eigenvalue_jump"@,
            ShiftedRefinementOutcome::Singular => "singular"@,
        }
    }

    pub fn as_str(self) -> (r: &'static str)
        ensures
            r@ == self.label(),
    {
        match self {
            ShiftedRefinementOutcome::NotAttempted => "not_attempted",
            ShiftedRefinementOutcome::Accepted => "accepted",
            ShiftedRefinementOutcome::RejectedEigenvalueJump => "rejected_eigenvalue_jump",
            ShiftedRefinementOutcome::Singular => "singular",
        }
    }

    /// The outcome that a label names.
    pub fn from_label(text: &str) -> (r: Option<ShiftedRefinementOutcome>)
        ensures
            r == shifted_outcome(text@),
    {
        if text_equal(text, "not_attempted") {
            Some(ShiftedRefinementOutcome::NotAttempted)
        } else if text_equal(text, "accepted") {
            Some(ShiftedRefinementOutcome::Accepted)
        } else if text_equal(text, "rejected_eigenvalue_jump") {
            Some(ShiftedRefinementOutcome::RejectedEigenvalueJump)
        } else if text_equal(text, "singular") {
            Some(ShiftedRefinementOutcome::Singular)
        } else {
            None
        }
    }
}

/// The outcome that a label names.
pub open spec fn shifted_outcome(text: Seq<char>) -> Option<ShiftedRefinementOutcome> {
    if text == "not_attempted"@ {
        Some(ShiftedRefinementOutcome::NotAttempted)
    } else if text == "accepted"@ {
        Some(ShiftedRefinementOutcome::Accepted)
    } else if text == "rejected_eigenvalue_jump"@ {
        Some(ShiftedRefinementOutcome::RejectedEigenvalueJump)
    } else if text == "singular"@ {
        Some(ShiftedRefinementOutcome::Singular)
    } else {
        None
    }
}

/// A label names the outcome that it was made from.
pub proof fn law_shifted_label_round_trips(o: ShiftedRefinementOutcome)
    ensures
        shifted_outcome(o.label()) == Some(o),
{
    reveal_strlit("not_attempted");
    reveal_strlit("accepted");
    reveal_strlit("rejected_eigenvalue_jump");
    reveal_strlit("singular");
    assert("not_attempted"@.len() == 13);
    assert("accepted"@.len() == 8);
    assert("rejected_eigenvalue_jump"@.len() == 24);
    assert("singular"@.len() == 8);
    assert("accepted"@[0] == 'a');
    assert("singular"@[0] == 's');
}

/// Stored stopping evidence of an eigenstate solve.
#[derive(Debug)]
pub struct PortableInverseIterationDiagnostics {
    pub configured_step_limit: usize,
    pub unshifted_steps: usize,
    pub unshifted_converged: bool,
    pub final_relative_rayleigh_change: Option<HpScalar>,
    pub shifted_refinement: String,
    pub final_relative_residual_norm: HpScalar,
}

/// Stored stopping evidence, as mathematics.
pub struct StoredDiagnostics {
    pub limit: nat,
    pub steps: nat,
    pub converged: bool,
    pub change: Option<ScalarView>,
    pub shifted: Seq<char>,
    pub residual: ScalarView,
}

impl View for PortableInverseIterationDiagnostics {
    type V = StoredDiagnostics;

    open spec fn view(&self) -> StoredDiagnostics {
        StoredDiagnostics {
            limit: self.configured_step_limit as nat,
            steps: self.unshifted_steps as nat,
            converged: self.unshifted_converged,
            change: match self.final_relative_rayleigh_change {
                None => None,
                Some(s) => Some(s@),
            },
            shifted: self.shifted_refinement@,
            residual: self.final_relative_residual_norm@,
        }
    }
}

pub open spec fn invalid_scalar_words(m: Seq<char>) -> Seq<char> {
    "CCM inverse-iteration diagnostics contain an invalid HP scalar: "@ + m
}

/// The evidence that a stored record holds, or the words of its rejection.
pub open spec fn diagnostics_of(d: StoredDiagnostics) -> Result<DiagnosticsView, Seq<char>> {
    if d.limit == 0 || d.steps > d.limit || (d.steps == 0 && d.converged) {
        Err("CCM inverse-iteration diagnostics contain invalid step counts"@)
    } else if d.change is Some && (d.change->0).reading is Err {
        Err(invalid_scalar_words((d.change->0).reading->Err_0))
    } else if d.residual.reading is Err {
        Err(invalid_scalar_words(d.residual.reading->Err_0))
    } else if (d.change is Some && (d.change->0).reading->Ok_0.lt(hp_word(0)))
        || d.residual.reading->Ok_0.lt(hp_word(0)) {
        Err("CCM inverse-iteration diagnostics contain a negative metric"@)
    } else if shifted_outcome(d.shifted) is None {
        Err("CCM inverse-iteration diagnostics contain an unknown shifted outcome"@)
    } else if d.steps == 0 || shifted_outcome(d.shifted)->0 is NotAttempted {
        Err("computed CCM eigenpair diagnostics omit required stopping evidence"@)
    } else {
        Ok(
            DiagnosticsView {
                configured_step_limit: d.limit,
                unshifted_steps: d.steps,
                unshifted_converged: d.converged,
                change: match d.change {
                    None => None,
                    Some(s) => Some(s.reading->Ok_0),
                },
                shifted_refinement: shifted_outcome(d.shifted)->0,
                residual: d.residual.reading->Ok_0,
            },
        )
    }
}

fn invalid_diagnostic_scalar(m: &String) -> (r: CcmError)
    ensures
        r.rejects(invalid_scalar_words(m@)),
{
    let mut t: String =
        "CCM inverse-iteration diagnostics contain an invalid HP scalar: ".to_owned();
    t.append(m.as_str());
    CcmError::InvalidManifest(t)
}

impl PortableInverseIterationDiagnostics {
    /// The stored form of evidence, with the texts of its scalars.
    pub fn from_runtime(
        value: &InverseIterationDiagnostics,
        change_text: String,
        residual_text: String,
    ) -> (r: PortableInverseIterationDiagnostics)
        ensures
            r@ == (StoredDiagnostics {
                limit: value@.configured_step_limit,
                steps: value@.unshifted_steps,
                converged: value@.unshifted_converged,
                change: match value@.change {
                    None => None,
                    Some(v) => Some(ScalarView { text: change_text@, reading: Ok(v) }),
                },
                shifted: value@.shifted_refinement.label(),
                residual: ScalarView { text: residual_text@, reading: Ok(value@.residual) },
            }),
    {
        PortableInverseIterationDiagnostics {
            configured_step_limit: value.configured_step_limit,
            unshifted_steps: value.unshifted_steps,
            unshifted_converged: value.unshifted_converged,
            final_relative_rayleigh_change: match &value.final_relative_rayleigh_change {
                None => None,
                Some(v) => Some(HpScalar::written(change_text, v)),
            },
            shifted_refinement: value.shifted_refinement.as_str().to_owned(),
            final_relative_residual_norm: HpScalar::written(
                residual_text,
                &value.final_relative_residual_norm,
            ),
        }
    }

    /// The evidence of a stored record.
    pub fn to_runtime(&self) -> (r: Result<InverseIterationDiagnostics, CcmError>)
        ensures
            match r {
                Ok(v) => diagnostics_of(self@) == Ok::<DiagnosticsView, Seq<char>>(v@),
                Err(e) => e is InvalidManifest && diagnostics_of(self@) == Err::<
                    DiagnosticsView,
                    Seq<char>,
                >(e.text()),
            },
    {
        if self.configured_step_limit == 0 || self.unshifted_steps > self.configured_step_limit || (
        self.unshifted_steps == 0 && self.unshifted_converged) {
            return Err(
                CcmError::invalid("CCM inverse-iteration diagnostics contain invalid step counts"),
            );
        }
        let zero: HpFloat = HpFloat::from_i64(64, 0);
        let change: Option<HpFloat> = match &self.final_relative_rayleigh_change {
            None => None,
            Some(s) => match &s.reading {
                Err(m) => {
                    return Err(invalid_diagnostic_scalar(m));
                },
                Ok(v) => Some(v.clone()),
            },
        };
        let residual: HpFloat = match &self.final_relative_residual_norm.reading {
            Err(m) => {
                return Err(invalid_diagnostic_scalar(m));
            },
            Ok(v) => v.clone(),
        };
        let change_negative: bool = match &change {
            None => false,
            Some(v) => v.lt(&zero),
        };
        if change_negative || residual.lt(&zero) {
            return Err(
                CcmError::invalid("CCM inverse-iteration diagnostics contain a negative metric"),
            );
        }
        let shifted: ShiftedRefinementOutcome = match ShiftedRefinementOutcome::from_label(
            self.shifted_refinement.as_str(),
        ) {
            Some(o) => o,
            None => {
                return Err(
                    CcmError::invalid(
                        "CCM inverse-iteration diagnostics contain an unknown shifted outcome",
                    ),
                );
            },
        };
        if self.unshifted_steps == 0 || shifted == ShiftedRefinementOutcome::NotAttempted {
            return Err(
                CcmError::invalid(
                    "computed CCM eigenpair diagnostics omit required stopping evidence",
                ),
            );
        }
        Ok(
            InverseIterationDiagnostics {
                configured_step_limit: self.configured_step_limit,
                unshifted_steps: self.unshifted_steps,
                unshifted_converged: self.unshifted_converged,
                final_relative_rayleigh_change: change,
                shifted_refinement: shifted,
                final_relative_residual_norm: residual,
            },
        )
    }
}

/// Evidence that a computed eigenpair can have.
pub open spec fn computed_evidence(d: DiagnosticsView) -> bool {
    &&& 0 < d.unshifted_steps <= d.configured_step_limit
    &&& !(d.change is Some && d.change->0.lt(hp_word(0)))
    &&& !d.residual.lt(hp_word(0))
    &&& !(d.shifted_refinement is NotAttempted)
}

/// Stored evidence reads back as what was stored.
pub proof fn law_diagnostics_round_trip(
    d: DiagnosticsView,
    change_text: Seq<char>,
    residual_text: Seq<char>,
)
    requires
        computed_evidence(d),
    ensures
        diagnostics_of(
            StoredDiagnostics {
                limit: d.configured_step_limit,
                steps: d.unshifted_steps,
                converged: d.unshifted_converged,
                change: match d.change {
                    None => None,
                    Some(v) => Some(ScalarView { text: change_text, reading: Ok(v) }),
                },
                shifted: d.shifted_refinement.label(),
                residual: ScalarView { text: residual_text, reading: Ok(d.residual) },
            },
        ) == Ok::<DiagnosticsView, Seq<char>>(d),
{
    law_shifted_label_round_trips(d.shifted_refinement);
}

/// A stored root refinement.
#[derive(Debug)]
pub struct PortableRootRefinement {
    pub value: HpScalar,
    pub iterations: usize,
    pub final_correction: HpScalar,
    pub residual: HpScalar,
    pub achieved_decimal_digits: HpScalar,
}

/// A stored root refinement, as mathematics.
pub struct StoredRefinement {
    pub value: ScalarView,
    pub iterations: nat,
    pub final_correction: ScalarView,
    pub residual: ScalarView,
    pub achieved_decimal_digits: ScalarView,
}

impl View for PortableRootRefinement {
    type V = StoredRefinement;

    open spec fn view(&self) -> StoredRefinement {
        StoredRefinement {
            value: self.value@,
            iterations: self.iterations as nat,
            final_correction: self.final_correction@,
            residual: self.residual@,
            achieved_decimal_digits: self.achieved_decimal_digits@,
        }
    }
}

/// The refinement that a stored record holds, or the words of its rejection.
pub open spec fn refinement_of(s: StoredRefinement) -> Result<RefinementView, Seq<char>> {
    let value = finite_scalar(s.value);
    let correction = finite_scalar(s.final_correction);
    let residual = finite_scalar(s.residual);
    let digits = finite_scalar(s.achieved_decimal_digits);
    if value is Err {
        Err(value->Err_0)
    } else if correction is Err {
        Err(correction->Err_0)
    } else if residual is Err {
        Err(residual->Err_0)
    } else if digits is Err {
        Err(digits->Err_0)
    } else if s.iterations == 0 || correction->Ok_0.lt(hp_word(0)) || residual->Ok_0.lt(hp_word(0))
        || digits->Ok_0.lt(hp_word(0)) {
        Err("CCM root diagnostics contain an invalid iteration count or negative metric"@)
    } else {
        Ok(
            RefinementView {
                value: value->Ok_0,
                iterations: s.iterations,
                final_correction: correction->Ok_0,
                residual: residual->Ok_0,
                achieved_decimal_digits: digits->Ok_0,
            },
        )
    }
}

/// Decimal digits that hold a binary value of `p` bits without loss: `p * 0.30103`, rounded
/// up, and four more.
pub open spec fn lossless_digits(p: int) -> int {
    (p * 30_103 + 99_999) / 100_000 + 4
}

/// Digits with which a root is written: as many as needed for the legacy route, a fixed
/// lossless number for the Krylov route.
pub fn root_encoding_digits(resolved: CcmEigenstateSolver, prec: u32) -> (r: Option<usize>)
    requires
        !(resolved is Auto),
    ensures
        r is None == (resolved is LegacyInverseIteration),
        r matches Some(d) ==> d == lossless_digits(prec as int),
{
    match resolved {
        CcmEigenstateSolver::LegacyInverseIteration => None,
        _ => {
            let wide: u64 = (prec as u64 * 30_103 + 99_999) / 100_000 + 4;
            Some(wide as usize)
        },
    }
}

impl PortableRootRefinement {
    /// The stored form of a refinement, with the texts of its scalars.
    pub fn from_runtime(
        result: &RootRefinement,
        value_text: String,
        correction_text: String,
        residual_text: String,
        digits_text: String,
    ) -> (r: PortableRootRefinement)
        ensures
            r@ == (StoredRefinement {
                value: ScalarView { text: value_text@, reading: Ok(result@.value) },
                iterations: result@.iterations,
                final_correction: ScalarView {
                    text: correction_text@,
                    reading: Ok(result@.final_correction),
                },
                residual: ScalarView { text: residual_text@, reading: Ok(result@.residual) },
                achieved_decimal_digits: ScalarView {
                    text: digits_text@,
                    reading: Ok(result@.achieved_decimal_digits),
                },
            }),
    {
        PortableRootRefinement {
            value: HpScalar::written(value_text, &result.value),
            iterations: result.diagnostics.iterations,
            final_correction: HpScalar::written(
                correction_text,
                &result.diagnostics.final_correction,
            ),
            residual: HpScalar::written(residual_text, &result.diagnostics.residual),
            achieved_decimal_digits: HpScalar::written(
                digits_text,
                &result.diagnostics.achieved_decimal_digits,
            ),
        }
    }

    /// The refinement of a stored record.
    pub fn to_runtime(&self) -> (r: Result<RootRefinement, CcmError>)
        ensures
            match r {
                Ok(v) => refinement_of(self@) == Ok::<RefinementView, Seq<char>>(v@),
                Err(e) => e is InvalidManifest && refinement_of(self@) == Err::<
                    RefinementView,
                    Seq<char>,
                >(e.text()),
            },
    {
        let value: HpFloat = match parse_hp_scalar(&self.value) {
            Ok(v) => v,
            Err(e) => {
                return Err(e);
            },
        };
        let final_correction: HpFloat = match parse_hp_scalar(&self.final_correction) {
            Ok(v) => v,
            Err(e) => {
                return Err(e);
            },
        };
        let residual: HpFloat = match parse_hp_scalar(&self.residual) {
            Ok(v) => v,
            Err(e) => {
                return Err(e);
            },
        };
        let achieved_decimal_digits: HpFloat = match parse_hp_scalar(
            &self.achieved_decimal_digits,
        ) {
            Ok(v) => v,
            Err(e) => {
                return Err(e);
            },
        };
        let zero: HpFloat = HpFloat::from_i64(64, 0);
        if self.iterations == 0 || final_correction.lt(&zero) || residual.lt(&zero)
            || achieved_decimal_digits.lt(&zero) {
            return Err(
                CcmError::invalid(
                    "CCM root diagnostics contain an invalid iteration count or negative metric",
                ),
            );
        }
        Ok(
            RootRefinement {
                value,
                diagnostics: RootRefinementDiagnostics {
                    iterations: self.iterations,
                    final_correction,
                    residual,
                    achieved_decimal_digits,
                },
            },
        )
    }
}

/// A stored root outcome.
#[derive(Debug)]
pub enum PortableRootOutcome {
    Converged(PortableRootRefinement),
    Stagnated(PortableRootRefinement),
    Approximate(PortableRootRefinement),
    Failed { iterations: usize, reason: String },
}

/// A stored root outcome, as mathematics.
pub enum StoredOutcome {
    Valued { status: RootStatus, refinement: StoredRefinement },
    Failed { iterations: nat, reason: Seq<char> },
}

impl View for PortableRootOutcome {
    type V = StoredOutcome;

    open spec fn view(&self) -> StoredOutcome {
        match self {
            PortableRootOutcome::Converged(x) => StoredOutcome::Valued {
                status: RootStatus::Converged,
                refinement: x@,
            },
            PortableRootOutcome::Stagnated(x) => StoredOutcome::Valued {
                status: RootStatus::Stagnated,
                refinement: x@,
            },
            PortableRootOutcome::Approximate(x) => StoredOutcome::Valued {
                status: RootStatus::Approximate,
                refinement: x@,
            },
            PortableRootOutcome::Failed { iterations, reason } => StoredOutcome::Failed {
                iterations: *iterations as nat,
                reason: reason@,
            },
        }
    }
}

pub open spec fn stored_outcomes(s: Seq<PortableRootOutcome>) -> Seq<StoredOutcome> {
    Seq::new(s.len(), |i: int| s[i]@)
}

/// The outcome that a stored record holds, or the words of its rejection.
pub open spec fn outcome_of(s: StoredOutcome) -> Result<OutcomeView, Seq<char>> {
    match s {
        StoredOutcome::Failed { iterations, reason } => Ok(
            OutcomeView::Failed { iterations, reason },
        ),
        StoredOutcome::Valued { status, refinement } => match refinement_of(refinement) {
            Err(m) => Err(m),
            Ok(x) => Ok(OutcomeView::Valued { status, refinement: x }),
        },
    }
}

impl PortableRootOutcome {
    /// The outcome of a stored record.
    pub fn to_runtime(&self) -> (r: Result<EigenvalueResult, CcmError>)
        ensures
            match r {
                Ok(v) => outcome_of(self@) == Ok::<OutcomeView, Seq<char>>(v@),
                Err(e) => e is InvalidManifest && outcome_of(self@) == Err::<
                    OutcomeView,
                    Seq<char>,
                >(e.text()),
            },
    {
        match self {
            PortableRootOutcome::Converged(x) => match x.to_runtime() {
                Ok(v) => Ok(EigenvalueResult::Converged(v)),
                Err(e) => Err(e),
            },
            PortableRootOutcome::Stagnated(x) => match x.to_runtime() {
                Ok(v) => Ok(EigenvalueResult::Stagnated(v)),
                Err(e) => Err(e),
            },
            PortableRootOutcome::Approximate(x) => match x.to_runtime() {
                Ok(v) => Ok(EigenvalueResult::Approximate(v)),
                Err(e) => Err(e),
            },
            PortableRootOutcome::Failed { iterations, reason } => Ok(
                EigenvalueResult::Failed { iterations: *iterations, reason: reason.clone() },
            ),
        }
    }
}

} // verus!
