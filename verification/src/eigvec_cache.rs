//! Disk cache of the lowest eigenvector: file names, the nearest precision to start from, what a
//! file has to hold, and the residual that a cached pair has to reach.

use crate::accuracy::law_larger_precision_is_exact;
use crate::config::{CacheMode, CcmParityPolicy};
use crate::envelope::{
    flat, holds_members, json_members, json_written, lemma_flat_object, lemma_list_reads_back,
    is_one_of, list_of, member, members, object_of, older, optional_text_of, read_zip_text,
    reads_back, storable, text_field, text_list, version_is_older, writable, write_object,
    written_text, zip_text, FieldView, JsonField, JsonObject,
};
use crate::float::HpFloat;
use crate::matrix::{
    largest, largest_magnitude, lemma_build_ends, lemma_extend, magnitude_of, matrix_row_dot,
    row_dot, vals,
};
use crate::outcome::{DiagnosticsView, InverseIterationDiagnostics};
use crate::payload::{
    computed_evidence, diagnostics_of, finite_scalar, finite_vector, law_diagnostics_round_trip,
    parse_hp_scalar, parse_hp_vector, scalars, strings, HpScalar,
    PortableInverseIterationDiagnostics, ScalarView, StoredDiagnostics,
};
use crate::reading::{law_near_text_reads_back, literal_reading, text_near};
use crate::rounding::{hp_int, hp_pow2, HpValue};
use crate::text::{
    chars_of, ends_with, has_at, number_of_text, number_text, parse_number, push_number,
    starts_with, text_equal,
};
use crate::tridiagonal::is_square_of;
use vstd::prelude::*;
use vstd::string::*;

verus! {

/// Schema of the cached eigenvectors.
pub const EIGVEC_SCHEMA: u64 = 2;

/// Suffix of the file names of a parity policy.
pub open spec fn variant_suffix(policy: CcmParityPolicy) -> Seq<char> {
    match policy {
        CcmParityPolicy::AdaptiveEven => ""@,
        CcmParityPolicy::Natural => "_natural"@,
        CcmParityPolicy::EvenSector => "_even_sector"@,
    }
}

/// Suffix of the file names of a parity policy.
pub fn cache_variant(policy: CcmParityPolicy) -> (r: &'static str)
    ensures
        r@ == variant_suffix(policy),
{
    match policy {
        CcmParityPolicy::AdaptiveEven => "",
        CcmParityPolicy::Natural => "_natural",
        CcmParityPolicy::EvenSector => "_even_sector",
    }
}

/// What the file names of a configuration begin with, up to the precision.
pub open spec fn name_prefix(lambda: Seq<char>, n_modes: nat) -> Seq<char> {
    "weil_eigvec_lambda_sq"@ + lambda + "_nmodes"@ + number_text(n_modes) + "_prec"@
}

/// Name of the file that holds an eigenvector.
pub open spec fn eigvec_file_name(
    lambda: Seq<char>,
    n_modes: nat,
    prec: nat,
    policy: CcmParityPolicy,
) -> Seq<char> {
    name_prefix(lambda, n_modes) + number_text(prec) + variant_suffix(policy) + ".json"@
}

fn prefix_of(lambda: &str, n_modes: usize) -> (r: String)
    ensures
        r@ == name_prefix(lambda@, n_modes as nat),
{
    let mut t: String = "weil_eigvec_lambda_sq".to_owned();
    t.append(lambda);
    t.append("_nmodes");
    push_number(&mut t, n_modes as u64);
    t.append("_prec");
    t
}

/// Name of the file that holds an eigenvector.
pub fn cache_filename(lambda: &str, n_modes: usize, prec: u32, policy: CcmParityPolicy) -> (r:
    String)
    ensures
        r@ == eigvec_file_name(lambda@, n_modes as nat, prec as nat, policy),
{
    let mut t: String = prefix_of(lambda, n_modes);
    push_number(&mut t, prec as u64);
    t.append(cache_variant(policy));
    t.append(".json");
    t
}

/// Files of different parity policies never share a name.
pub proof fn law_policies_have_their_own_files(
    lambda: Seq<char>,
    n_modes: nat,
    prec: nat,
    a: CcmParityPolicy,
    b: CcmParityPolicy,
)
    requires
        a != b,
    ensures
        eigvec_file_name(lambda, n_modes, prec, a) != eigvec_file_name(lambda, n_modes, prec, b),
{
    reveal_strlit("");
    reveal_strlit("_natural");
    reveal_strlit("_even_sector");
    reveal_strlit(".json");
    assert(variant_suffix(a).len() != variant_suffix(b).len());
    assert(eigvec_file_name(lambda, n_modes, prec, a).len() != eigvec_file_name(
        lambda,
        n_modes,
        prec,
        b,
    ).len());
}

/// The precision that a name states between a prefix and a suffix.
pub open spec fn stated_precision(name: Seq<char>, prefix: Seq<char>, suffix: Seq<char>) -> Option<
    nat,
> {
    if !starts_with(name, prefix) || !ends_with(name, suffix) || prefix.len() + suffix.len()
        > name.len() {
        None
    } else {
        number_of_text(
            name.subrange(prefix.len() as int, name.len() - suffix.len()),
            u32::MAX as nat,
        )
    }
}

pub open spec fn distance(a: nat, b: nat) -> nat {
    if a < b {
        (b - a) as nat
    } else {
        (a - b) as nat
    }
}

/// Whether a precision can be started from.
pub open spec fn near_precision(p: Option<nat>, target: nat, tolerance: nat) -> bool {
    p is Some && p->0 != target && distance(p->0, target) <= tolerance
}

/// The nearest precision among the first `n` names; the first of equally near ones.
pub open spec fn nearest_precision(
    names: Seq<Seq<char>>,
    prefix: Seq<char>,
    suffix: Seq<char>,
    target: nat,
    tolerance: nat,
    n: nat,
) -> Option<nat>
    decreases n,
{
    if n == 0 {
        None
    } else {
        let before = nearest_precision(
            names,
            prefix,
            suffix,
            target,
            tolerance,
            (n - 1) as nat,
        );
        let here = stated_precision(names[n - 1], prefix, suffix);
        if near_precision(here, target, tolerance) && (before is None || distance(here->0, target)
            < distance(before->0, target)) {
            here
        } else {
            before
        }
    }
}

/// What the archives of a configuration end with.
pub open spec fn archive_suffix(policy: CcmParityPolicy) -> Seq<char> {
    variant_suffix(policy) + ".json.zip"@
}

fn precision_in(name: &String, prefix: &Vec<char>, suffix: &Vec<char>) -> (r: Option<u32>)
    ensures
        match r {
            None => stated_precision(name@, prefix@, suffix@) is None,
            Some(p) => stated_precision(name@, prefix@, suffix@) == Some(p as nat),
        },
{
    let chars: Vec<char> = chars_of(name.as_str());
    if !has_at(&chars, prefix, 0) || suffix.len() > chars.len() || !has_at(
        &chars,
        suffix,
        chars.len() - suffix.len(),
    ) || prefix.len() > chars.len() - suffix.len() {
        return None;
    }
    match parse_number(&chars, prefix.len(), chars.len() - suffix.len(), u32::MAX as u64) {
        None => None,
        Some(p) => Some(p as u32),
    }
}

/// The nearest precision, within a tolerance, for which a directory holds an archive of the
/// same configuration.
pub fn nearest_warm_start(
    names: &Vec<String>,
    lambda: &str,
    n_modes: usize,
    target: u32,
    tolerance: u32,
    policy: CcmParityPolicy,
) -> (r: Option<u32>)
    ensures
        ({
            let goal = nearest_precision(
                strings(names@),
                name_prefix(lambda@, n_modes as nat),
                archive_suffix(policy),
                target as nat,
                tolerance as nat,
                names@.len(),
            );
            match r {
                None => goal is None,
                Some(p) => goal == Some(p as nat),
            }
        }),
{
    let mut tail: String = cache_variant(policy).to_owned();
    tail.append(".json.zip");
    let head: String = prefix_of(lambda, n_modes);
    let prefix: Vec<char> = chars_of(head.as_str());
    let suffix: Vec<char> = chars_of(tail.as_str());
    let ghost s = strings(names@);
    let mut best: Option<u32> = None;
    let mut i: usize = 0;
    while i < names.len()
        invariant
            i <= names.len(),
            s == strings(names@),
            prefix@ == name_prefix(lambda@, n_modes as nat),
            suffix@ == archive_suffix(policy),
            nearest_precision(s, prefix@, suffix@, target as nat, tolerance as nat, i as nat) == (
            match best {
                None => None::<nat>,
                Some(p) => Some(p as nat),
            }),
        decreases names.len() - i,
    {
        assert(s[i as int] == names@[i as int]@);
        match precision_in(&names[i], &prefix, &suffix) {
            None => {},
            Some(p) => {
                let d: u32 = if p < target {
                    target - p
                } else {
                    p - target
                };
                let nearer: bool = match best {
                    None => true,
                    Some(q) => {
                        let e: u32 = if q < target {
                            target - q
                        } else {
                            q - target
                        };
                        d < e
                    },
                };
                if p != target && d <= tolerance && nearer {
                    best = Some(p);
                }
            },
        }
        i = i + 1;
    }
    best
}

/// The chosen precision is within the tolerance and not the one asked for, and no name states a
/// nearer one.
pub proof fn law_warm_start_is_nearest(
    names: Seq<Seq<char>>,
    prefix: Seq<char>,
    suffix: Seq<char>,
    target: nat,
    tolerance: nat,
    n: nat,
)
    requires
        n <= names.len(),
    ensures
        match nearest_precision(names, prefix, suffix, target, tolerance, n) {
            None => forall|i: int|
                0 <= i < n ==> !near_precision(
                    #[trigger] stated_precision(names[i], prefix, suffix),
                    target,
                    tolerance,
                ),
            Some(p) => near_precision(Some(p), target, tolerance) && forall|i: int|
                0 <= i < n && near_precision(
                    #[trigger] stated_precision(names[i], prefix, suffix),
                    target,
                    tolerance,
                ) ==> distance(p, target) <= distance(
                    stated_precision(names[i], prefix, suffix)->0,
                    target,
                ),
        },
    decreases n,
{
    if n > 0 {
        law_warm_start_is_nearest(names, prefix, suffix, target, tolerance, (n - 1) as nat);
    }
}

/// The texts and counts of stopping evidence, as mathematics.
pub struct EvidenceView {
    pub limit: nat,
    pub steps: nat,
    pub converged: bool,
    pub change: Option<Seq<char>>,
    pub shifted: Seq<char>,
    pub residual: Seq<char>,
}

/// The texts and counts of stopping evidence.
#[derive(Debug)]
pub struct EvidenceTexts {
    pub configured_step_limit: usize,
    pub unshifted_steps: usize,
    pub unshifted_converged: bool,
    pub final_relative_rayleigh_change: Option<String>,
    pub shifted_refinement: String,
    pub final_relative_residual_norm: String,
}

impl View for EvidenceTexts {
    type V = EvidenceView;

    open spec fn view(&self) -> EvidenceView {
        EvidenceView {
            limit: self.configured_step_limit as nat,
            steps: self.unshifted_steps as nat,
            converged: self.unshifted_converged,
            change: match self.final_relative_rayleigh_change {
                None => None,
                Some(t) => Some(t@),
            },
            shifted: self.shifted_refinement@,
            residual: self.final_relative_residual_norm@,
        }
    }
}

/// What is written of stored evidence.
pub open spec fn evidence_of(d: StoredDiagnostics) -> EvidenceView {
    EvidenceView {
        limit: d.limit,
        steps: d.steps,
        converged: d.converged,
        change: match d.change {
            None => None,
            Some(s) => Some(s.text),
        },
        shifted: d.shifted,
        residual: d.residual.text,
    }
}

impl EvidenceTexts {
    /// What is written of stored evidence.
    pub fn of(d: &PortableInverseIterationDiagnostics) -> (r: EvidenceTexts)
        ensures
            r@ == evidence_of(d@),
    {
        EvidenceTexts {
            configured_step_limit: d.configured_step_limit,
            unshifted_steps: d.unshifted_steps,
            unshifted_converged: d.unshifted_converged,
            final_relative_rayleigh_change: match &d.final_relative_rayleigh_change {
                None => None,
                Some(s) => Some(s.text.clone()),
            },
            shifted_refinement: d.shifted_refinement.clone(),
            final_relative_residual_norm: d.final_relative_residual_norm.text.clone(),
        }
    }
}

/// The texts of a pair and of its stopping evidence, as mathematics.
pub struct PairTexts {
    pub eigenvalue: Seq<char>,
    pub entries: Seq<Seq<char>>,
    pub evidence: EvidenceView,
}

/// The texts of an eigenvalue, its vector and its stopping evidence.
#[derive(Debug)]
pub struct EigenpairTexts {
    pub eigenvalue: String,
    pub entries: Vec<String>,
    pub evidence: EvidenceTexts,
}

impl View for EigenpairTexts {
    type V = PairTexts;

    open spec fn view(&self) -> PairTexts {
        PairTexts {
            eigenvalue: self.eigenvalue@,
            entries: strings(self.entries@),
            evidence: self.evidence@,
        }
    }
}

/// Whether a member of the record of stopping evidence can have a name.
pub open spec fn evidence_name(name: Seq<char>) -> bool {
    name == "configured_step_limit"@ || name == "unshifted_steps"@ || name
        == "unshifted_converged"@ || name == "final_relative_rayleigh_change"@ || name
        == "shifted_refinement"@ || name == "final_relative_residual_norm"@
}

/// The count of a member, where a machine can hold it.
pub open spec fn count_of(m: Seq<(Seq<char>, FieldView)>, key: Seq<char>) -> Option<nat> {
    match member(m, key, 0) {
        Some(FieldView::Number(n)) => if n <= usize::MAX {
            Some(n)
        } else {
            None
        },
        _ => None,
    }
}

/// The evidence that a record of it holds; `None` where a member is missing, is of another kind,
/// or has an unknown name. The Rayleigh change alone may be missing or null.
pub open spec fn evidence_reading(m: Seq<(Seq<char>, FieldView)>) -> Option<EvidenceView> {
    let limit = count_of(m, "configured_step_limit"@);
    let steps = count_of(m, "unshifted_steps"@);
    let converged = member(m, "unshifted_converged"@, 0);
    let change = optional_text_of(m, "final_relative_rayleigh_change"@);
    let shifted = member(m, "shifted_refinement"@, 0);
    let residual = member(m, "final_relative_residual_norm"@, 0);
    if (forall|i: int| 0 <= i < m.len() ==> evidence_name((#[trigger] m[i]).0)) && limit is Some
        && steps is Some && (converged matches Some(FieldView::Flag(_))) && change is Some && (
    shifted matches Some(FieldView::Text(_))) && (residual matches Some(FieldView::Text(_))) {
        Some(
            EvidenceView {
                limit: limit->0,
                steps: steps->0,
                converged: converged->0->Flag_0,
                change: change->0,
                shifted: shifted->0->Text_0,
                residual: residual->0->Text_0,
            },
        )
    } else {
        None
    }
}

fn is_evidence_name(name: &str) -> (r: bool)
    ensures
        r == evidence_name(name@),
{
    text_equal(name, "configured_step_limit") || text_equal(name, "unshifted_steps") || text_equal(
        name,
        "unshifted_converged",
    ) || text_equal(name, "final_relative_rayleigh_change") || text_equal(
        name,
        "shifted_refinement",
    ) || text_equal(name, "final_relative_residual_norm")
}

fn count_member(o: &JsonObject, key: &str) -> (r: Option<usize>)
    ensures
        match r {
            None => count_of(o@, key@) is None,
            Some(n) => count_of(o@, key@) == Some(n as nat),
        },
{
    match o.number(key) {
        Some(n) => if n <= usize::MAX as u64 {
            Some(n as usize)
        } else {
            None
        },
        None => None,
    }
}

/// The evidence that a record of it holds.
pub fn read_evidence(o: &JsonObject) -> (r: Option<EvidenceTexts>)
    ensures
        match r {
            None => evidence_reading(o@) is None,
            Some(e) => evidence_reading(o@) == Some(e@),
        },
{
    let mut i: usize = 0;
    while i < o.count()
        invariant
            i <= o@.len(),
            forall|k: int| 0 <= k < i ==> evidence_name((#[trigger] o@[k]).0),
        decreases o@.len() - i,
    {
        if !is_evidence_name(o.name(i).as_str()) {
            assert(!evidence_name(o@[i as int].0));
            return None;
        }
        i = i + 1;
    }
    let limit: Option<usize> = count_member(o, "configured_step_limit");
    let steps: Option<usize> = count_member(o, "unshifted_steps");
    let converged: Option<bool> = o.flag("unshifted_converged");
    let change: Option<Option<String>> = o.optional_text("final_relative_rayleigh_change");
    let shifted: Option<&String> = o.text("shifted_refinement");
    let residual: Option<&String> = o.text("final_relative_residual_norm");
    match (limit, steps, converged, change, shifted, residual) {
        (
            Some(configured_step_limit),
            Some(unshifted_steps),
            Some(unshifted_converged),
            Some(final_relative_rayleigh_change),
            Some(shifted_text),
            Some(residual_text),
        ) => Some(
            EvidenceTexts {
                configured_step_limit,
                unshifted_steps,
                unshifted_converged,
                final_relative_rayleigh_change,
                shifted_refinement: shifted_text.clone(),
                final_relative_residual_norm: residual_text.clone(),
            },
        ),
        _ => None,
    }
}

/// What an envelope holds for a pair; `None` where a member is missing or disagrees, the file is
/// older than the given version, or its stopping evidence does not read.
pub open spec fn pair_texts(
    o: Option<Seq<(Seq<char>, FieldView)>>,
    n_modes: nat,
    prec: nat,
    oldest: Seq<char>,
) -> Option<PairTexts> {
    match o {
        None => None,
        Some(m) => {
            let version = member(m, "toolkit_version"@, 0);
            let value = member(m, "weil_min_eigenvalue"@, 0);
            let entries = text_list(m, "xi"@, (2 * n_modes + 1) as int);
            let record = object_of(m, "inverse_iteration"@);
            if member(m, "schema_version"@, 0) != Some(FieldView::Number(EIGVEC_SCHEMA as nat))
                || !(version matches Some(FieldView::Text(_))) || older(
                version->0->Text_0,
                oldest,
            ) || member(m, "n_modes"@, 0) != Some(FieldView::Number(n_modes)) || member(
                m,
                "precision_bits"@,
                0,
            ) != Some(FieldView::Number(prec)) || !(value matches Some(FieldView::Text(_)))
                || entries is None || record is None || evidence_reading(record->0) is None {
                None
            } else {
                Some(
                    PairTexts {
                        eigenvalue: value->0->Text_0,
                        entries: entries->0,
                        evidence: evidence_reading(record->0)->0,
                    },
                )
            }
        },
    }
}

/// The texts of an envelope that was read.
pub fn pair_of_envelope(o: &JsonObject, n_modes: usize, prec: u32, oldest: &str) -> (r: Option<
    EigenpairTexts,
>)
    requires
        2 * n_modes + 1 <= usize::MAX,
    ensures
        match r {
            None => pair_texts(Some(o@), n_modes as nat, prec as nat, oldest@) is None,
            Some(v) => pair_texts(Some(o@), n_modes as nat, prec as nat, oldest@) == Some(v@),
        },
{
    match o.number("schema_version") {
        Some(n) => {
            if n != EIGVEC_SCHEMA {
                return None;
            }
        },
        None => {
            return None;
        },
    }
    match o.text("toolkit_version") {
        Some(v) => {
            if version_is_older(v.as_str(), oldest) {
                return None;
            }
        },
        None => {
            return None;
        },
    }
    match o.number("n_modes") {
        Some(n) => {
            if n != n_modes as u64 {
                return None;
            }
        },
        None => {
            return None;
        },
    }
    match o.number("precision_bits") {
        Some(n) => {
            if n != prec as u64 {
                return None;
            }
        },
        None => {
            return None;
        },
    }
    let eigenvalue: String = match o.text("weil_min_eigenvalue") {
        Some(v) => v.clone(),
        None => {
            return None;
        },
    };
    let entries: Vec<String> = match o.texts("xi", 2 * n_modes + 1) {
        Some(v) => v,
        None => {
            return None;
        },
    };
    let record: JsonObject = match o.object("inverse_iteration") {
        Some(v) => v,
        None => {
            return None;
        },
    };
    match read_evidence(&record) {
        None => None,
        Some(evidence) => Some(EigenpairTexts { eigenvalue, entries, evidence }),
    }
}

/// The texts of a cached pair: the text of the file is parsed, and its members checked.
pub fn parse_json(data: &str, n_modes: usize, prec: u32, oldest: &str) -> (r: Option<
    EigenpairTexts,
>)
    requires
        2 * n_modes + 1 <= usize::MAX,
    ensures
        match r {
            None => pair_texts(json_members(data@), n_modes as nat, prec as nat, oldest@) is None,
            Some(v) => pair_texts(json_members(data@), n_modes as nat, prec as nat, oldest@)
                == Some(v@),
        },
{
    match JsonObject::parse(data) {
        None => None,
        Some(o) => pair_of_envelope(&o, n_modes, prec, oldest),
    }
}

/// The members of the record of stopping evidence.
pub open spec fn evidence_members(d: EvidenceView) -> Seq<(Seq<char>, FieldView)> {
    seq![
        ("configured_step_limit"@, FieldView::Number(d.limit)),
        ("unshifted_steps"@, FieldView::Number(d.steps)),
        ("unshifted_converged"@, FieldView::Flag(d.converged)),
        (
            "final_relative_rayleigh_change"@,
            match d.change {
                None => FieldView::Null,
                Some(t) => FieldView::Text(t),
            },
        ),
        ("shifted_refinement"@, FieldView::Text(d.shifted)),
        ("final_relative_residual_norm"@, FieldView::Text(d.residual)),
    ]
}

proof fn lemma_evidence_members(d: EvidenceView)
    ensures
        writable(evidence_members(d)),
        forall|i: int|
            0 <= i < evidence_members(d).len() ==> flat((#[trigger] evidence_members(d)[i]).1),
{
    reveal_strlit("configured_step_limit");
    reveal_strlit("unshifted_steps");
    reveal_strlit("unshifted_converged");
    reveal_strlit("final_relative_rayleigh_change");
    reveal_strlit("shifted_refinement");
    reveal_strlit("final_relative_residual_norm");
    let m = evidence_members(d);
    assert(m.len() == 6);
    assert(m[0].0.len() == 21);
    assert(m[1].0.len() == 15);
    assert(m[2].0.len() == 19);
    assert(m[3].0.len() == 30);
    assert(m[4].0.len() == 18);
    assert(m[5].0.len() == 28);
    assert forall|i: int| 0 <= i < m.len() implies flat((#[trigger] m[i]).1) by {}
}

/// The text of the record of stopping evidence.
pub fn evidence_to_json(d: &EvidenceTexts) -> (r: String)
    ensures
        r@ == written_text(evidence_members(d@)),
        json_written(evidence_members(d@)) is Some,
        holds_members(r@, evidence_members(d@)),
{
    let mut m: Vec<(String, JsonField)> = Vec::new();
    m.push(("configured_step_limit".to_owned(), JsonField::Number(d.configured_step_limit as u64)));
    m.push(("unshifted_steps".to_owned(), JsonField::Number(d.unshifted_steps as u64)));
    m.push(("unshifted_converged".to_owned(), JsonField::Flag(d.unshifted_converged)));
    let change: JsonField = match &d.final_relative_rayleigh_change {
        None => JsonField::Null,
        Some(t) => JsonField::Text(t.clone()),
    };
    m.push(("final_relative_rayleigh_change".to_owned(), change));
    m.push(("shifted_refinement".to_owned(), JsonField::Text(d.shifted_refinement.clone())));
    m.push(
        (
            "final_relative_residual_norm".to_owned(),
            JsonField::Text(d.final_relative_residual_norm.clone()),
        ),
    );
    proof {
        lemma_evidence_members(d@);
    }
    assert(members(m@) =~= evidence_members(d@));
    write_object(&m)
}

/// The members of the envelope of a pair; `evidence` is the text of its stopping evidence.
pub open spec fn pair_members(
    lambda: Seq<char>,
    lambda_mode: Seq<char>,
    n_modes: nat,
    prec: nat,
    version: Seq<char>,
    pair: PairTexts,
    evidence: Seq<char>,
) -> Seq<(Seq<char>, FieldView)> {
    seq![
        ("schema_version"@, FieldView::Number(EIGVEC_SCHEMA as nat)),
        ("toolkit_version"@, FieldView::Text(version)),
        ("lambda_sq"@, FieldView::Decimal(lambda)),
        ("lambda_sq_mode"@, FieldView::Text(lambda_mode)),
        ("n_modes"@, FieldView::Number(n_modes)),
        ("precision_bits"@, FieldView::Number(prec)),
        ("weil_min_eigenvalue"@, FieldView::Text(pair.eigenvalue)),
        ("xi"@, list_of(pair.entries)),
        ("inverse_iteration"@, FieldView::Object(evidence)),
    ]
}

proof fn lemma_pair_members(
    lambda: Seq<char>,
    lambda_mode: Seq<char>,
    n_modes: nat,
    prec: nat,
    version: Seq<char>,
    pair: PairTexts,
    evidence: Seq<char>,
)
    requires
        storable(FieldView::Object(evidence)),
    ensures
        writable(pair_members(lambda, lambda_mode, n_modes, prec, version, pair, evidence)),
{
    let m = pair_members(lambda, lambda_mode, n_modes, prec, version, pair, evidence);
    reveal_strlit("schema_version");
    reveal_strlit("toolkit_version");
    reveal_strlit("lambda_sq");
    reveal_strlit("lambda_sq_mode");
    reveal_strlit("n_modes");
    reveal_strlit("precision_bits");
    reveal_strlit("weil_min_eigenvalue");
    reveal_strlit("xi");
    reveal_strlit("inverse_iteration");
    assert(m.len() == 9);
    assert(m[0].0.len() == 14 && m[0].0[0] == 's');
    assert(m[1].0.len() == 15);
    assert(m[2].0.len() == 9);
    assert(m[3].0.len() == 14 && m[3].0[0] == 'l');
    assert(m[4].0.len() == 7);
    assert(m[5].0.len() == 14 && m[5].0[0] == 'p');
    assert(m[6].0.len() == 19);
    assert(m[7].0.len() == 2);
    assert(m[8].0.len() == 17);
    assert forall|i: int| 0 <= i < m.len() implies storable((#[trigger] m[i]).1) by {}
}

/// The text of the envelope of a pair, from the texts of its values and the text of
/// lambda-squared as a number; empty where that is no number.
pub fn serialize_to_json(
    lambda: &str,
    lambda_mode: &str,
    n_modes: usize,
    prec: u32,
    toolkit_version: &str,
    pair: &EigenpairTexts,
) -> (r: String)
    ensures
        ({
            let given = pair_members(
                lambda@,
                lambda_mode@,
                n_modes as nat,
                prec as nat,
                toolkit_version@,
                pair@,
                written_text(evidence_members(pair.evidence@)),
            );
            r@ == written_text(given) && (json_written(given) is Some ==> holds_members(r@, given))
        }),
        holds_members(
            written_text(evidence_members(pair.evidence@)),
            evidence_members(pair.evidence@),
        ),
        r@.len() > 0 && pair@.entries.len() == 2 * n_modes + 1 ==> forall|oldest: Seq<char>|
            !older(toolkit_version@, oldest) ==> #[trigger] pair_texts(
                json_members(r@),
                n_modes as nat,
                prec as nat,
                oldest,
            ) == Some(pair@),
{
    let evidence: String = evidence_to_json(&pair.evidence);
    let ghost given = pair_members(
        lambda@,
        lambda_mode@,
        n_modes as nat,
        prec as nat,
        toolkit_version@,
        pair@,
        evidence@,
    );
    proof {
        lemma_evidence_members(pair.evidence@);
        lemma_flat_object(evidence@, evidence_members(pair.evidence@));
        lemma_pair_members(
            lambda@,
            lambda_mode@,
            n_modes as nat,
            prec as nat,
            toolkit_version@,
            pair@,
            evidence@,
        );
    }
    let mut m: Vec<(String, JsonField)> = Vec::new();
    m.push(("schema_version".to_owned(), JsonField::Number(EIGVEC_SCHEMA)));
    m.push(("toolkit_version".to_owned(), JsonField::Text(toolkit_version.to_owned())));
    m.push(("lambda_sq".to_owned(), JsonField::Decimal(lambda.to_owned())));
    m.push(("lambda_sq_mode".to_owned(), JsonField::Text(lambda_mode.to_owned())));
    m.push(("n_modes".to_owned(), JsonField::Number(n_modes as u64)));
    m.push(("precision_bits".to_owned(), JsonField::Number(prec as u64)));
    m.push(("weil_min_eigenvalue".to_owned(), JsonField::Text(pair.eigenvalue.clone())));
    m.push(("xi".to_owned(), text_field(&pair.entries)));
    m.push(("inverse_iteration".to_owned(), JsonField::Object(evidence)));
    assert(members(m@) =~= given);
    let r: String = write_object(&m);
    proof {
        if r@.len() > 0 && pair@.entries.len() == 2 * n_modes + 1 {
            assert forall|oldest: Seq<char>| !older(
                toolkit_version@,
                oldest,
            ) implies #[trigger] pair_texts(
                json_members(r@),
                n_modes as nat,
                prec as nat,
                oldest,
            ) == Some(pair@) by {
                law_saved_pair_reads_back(
                    lambda@,
                    lambda_mode@,
                    n_modes as nat,
                    prec as nat,
                    toolkit_version@,
                    oldest,
                    pair@,
                    written_text(evidence_members(pair.evidence@)),
                    r@,
                );
            }
        }
    }
    r
}

proof fn lemma_evidence_reads_back(text: Seq<char>, e: EvidenceView)
    requires
        holds_members(text, evidence_members(e)),
        e.limit <= usize::MAX,
        e.steps <= usize::MAX,
    ensures
        evidence_reading(json_members(text)->0) == Some(e),
{
    let m = json_members(text)->0;
    let given = evidence_members(e);
    assert(reads_back(given[0].1, member(m, given[0].0, 0)));
    assert(reads_back(given[1].1, member(m, given[1].0, 0)));
    assert(reads_back(given[2].1, member(m, given[2].0, 0)));
    assert(reads_back(given[3].1, member(m, given[3].0, 0)));
    assert(reads_back(given[4].1, member(m, given[4].0, 0)));
    assert(reads_back(given[5].1, member(m, given[5].0, 0)));
    assert forall|i: int| 0 <= i < m.len() implies evidence_name((#[trigger] m[i]).0) by {
        assert(is_one_of(m[i], given));
    }
}

/// What is read of a pair gives back what was saved: where the envelope was written by a toolkit
/// that is not too old, the texts of the pair and of its evidence come back.
pub proof fn law_saved_pair_reads_back(
    lambda: Seq<char>,
    lambda_mode: Seq<char>,
    n_modes: nat,
    prec: nat,
    version: Seq<char>,
    oldest: Seq<char>,
    pair: PairTexts,
    evidence: Seq<char>,
    text: Seq<char>,
)
    requires
        holds_members(evidence, evidence_members(pair.evidence)),
        holds_members(
            text,
            pair_members(lambda, lambda_mode, n_modes, prec, version, pair, evidence),
        ),
        pair.entries.len() == 2 * n_modes + 1,
        pair.evidence.limit <= usize::MAX,
        pair.evidence.steps <= usize::MAX,
        !older(version, oldest),
    ensures
        pair_texts(json_members(text), n_modes, prec, oldest) == Some(pair),
{
    let m = json_members(text)->0;
    let given = pair_members(lambda, lambda_mode, n_modes, prec, version, pair, evidence);
    assert(reads_back(given[0].1, member(m, given[0].0, 0)));
    assert(reads_back(given[1].1, member(m, given[1].0, 0)));
    assert(reads_back(given[4].1, member(m, given[4].0, 0)));
    assert(reads_back(given[5].1, member(m, given[5].0, 0)));
    assert(reads_back(given[6].1, member(m, given[6].0, 0)));
    assert(reads_back(given[7].1, member(m, given[7].0, 0)));
    assert(reads_back(given[8].1, member(m, given[8].0, 0)));
    lemma_list_reads_back(m, "xi"@, pair.entries);
    lemma_evidence_reads_back(evidence, pair.evidence);
}

/// The text of the archive of a pair, where the mode reads archives.
pub fn archive_text(bytes: &Vec<u8>, entry_name: &str, mode: CacheMode) -> (r: Option<String>)
    ensures
        match r {
            None => !(mode is JsonZip) || zip_text(bytes@, entry_name@) is None,
            Some(t) => mode is JsonZip && zip_text(bytes@, entry_name@) == Some(t@),
        },
{
    if mode.uses_disk() {
        read_zip_text(bytes, entry_name)
    } else {
        None
    }
}

/// A cached eigenpair with its stopping evidence.
#[derive(Debug)]
pub struct CachedXi {
    pub eps_n: HpFloat,
    pub xi: Vec<HpFloat>,
    pub diagnostics: InverseIterationDiagnostics,
}

/// A cached eigenpair, as mathematics.
#[verifier::ext_equal]
pub struct CachedView {
    pub eigenvalue: HpValue,
    pub eigenvector: Seq<HpValue>,
    pub diagnostics: DiagnosticsView,
}

impl View for CachedXi {
    type V = CachedView;

    open spec fn view(&self) -> CachedView {
        CachedView {
            eigenvalue: self.eps_n@,
            eigenvector: vals(self.xi@),
            diagnostics: self.diagnostics@,
        }
    }
}

/// The pair that readings make; `None` where one is not finite, the lambda of the file is not
/// the one asked for, or the evidence does not hold up.
pub open spec fn pair_of_readings(
    lambda_agrees: bool,
    eigenvalue: ScalarView,
    entries: Seq<ScalarView>,
    diagnostics: StoredDiagnostics,
) -> Option<CachedView> {
    let value = finite_scalar(eigenvalue);
    let vector = finite_vector(entries, entries.len());
    let evidence = diagnostics_of(diagnostics);
    if !lambda_agrees || value is Err || vector is Err || evidence is Err {
        None
    } else {
        Some(
            CachedView {
                eigenvalue: value->Ok_0,
                eigenvector: vector->Ok_0,
                diagnostics: evidence->Ok_0,
            },
        )
    }
}

/// The pair that readings make.
pub fn cached_pair(
    lambda_agrees: bool,
    eigenvalue: &HpScalar,
    entries: &Vec<HpScalar>,
    diagnostics: &PortableInverseIterationDiagnostics,
) -> (r: Option<CachedXi>)
    ensures
        ({
            let goal = pair_of_readings(
                lambda_agrees,
                eigenvalue@,
                scalars(entries@),
                diagnostics@,
            );
            match r {
                None => goal is None,
                Some(x) => goal == Some(x@),
            }
        }),
{
    if !lambda_agrees {
        return None;
    }
    let eps_n: HpFloat = match parse_hp_scalar(eigenvalue) {
        Ok(v) => v,
        Err(_) => {
            return None;
        },
    };
    let xi: Vec<HpFloat> = match parse_hp_vector(entries) {
        Ok(v) => v,
        Err(_) => {
            return None;
        },
    };
    match diagnostics.to_runtime() {
        Err(_) => None,
        Ok(diagnostics) => Some(CachedXi { eps_n, xi, diagnostics }),
    }
}

/// Texts with what `read` makes of each.
pub open spec fn readings(
    read: spec_fn(Seq<char>) -> Result<HpValue, Seq<char>>,
    texts: Seq<Seq<char>>,
) -> Seq<ScalarView> {
    Seq::new(texts.len(), |i: int| ScalarView { text: texts[i], reading: read(texts[i]) })
}

/// Stored evidence with what `read` makes of its texts.
pub open spec fn evidence_readings(
    read: spec_fn(Seq<char>) -> Result<HpValue, Seq<char>>,
    e: EvidenceView,
) -> StoredDiagnostics {
    StoredDiagnostics {
        limit: e.limit,
        steps: e.steps,
        converged: e.converged,
        change: match e.change {
            None => None,
            Some(t) => Some(ScalarView { text: t, reading: read(t) }),
        },
        shifted: e.shifted,
        residual: ScalarView { text: e.residual, reading: read(e.residual) },
    }
}

/// The pair that an archive loads as, where `read` makes numbers of decimal texts: none where the
/// mode reads no archives, the archive has no such entry, the entry is no envelope of the model,
/// or its readings make no pair.
pub open spec fn loaded_pair(
    mode: CacheMode,
    zip: Seq<u8>,
    entry: Seq<char>,
    n_modes: nat,
    prec: nat,
    oldest: Seq<char>,
    lambda_agrees: bool,
    read: spec_fn(Seq<char>) -> Result<HpValue, Seq<char>>,
) -> Option<CachedView> {
    if !(mode is JsonZip) || zip_text(zip, entry) is None {
        None
    } else {
        match pair_texts(json_members(zip_text(zip, entry)->0), n_modes, prec, oldest) {
            None => None,
            Some(pair) => pair_of_readings(
                lambda_agrees,
                ScalarView { text: pair.eigenvalue, reading: read(pair.eigenvalue) },
                readings(read, pair.entries),
                evidence_readings(read, pair.evidence),
            ),
        }
    }
}

/// The texts under which a pair is saved, where `texts`, `change` and `residual` are those of its
/// numbers.
pub open spec fn texts_of_pair(
    x: CachedView,
    eigenvalue: Seq<char>,
    entries: Seq<Seq<char>>,
    change: Seq<char>,
    residual: Seq<char>,
) -> PairTexts {
    PairTexts {
        eigenvalue,
        entries,
        evidence: EvidenceView {
            limit: x.diagnostics.configured_step_limit,
            steps: x.diagnostics.unshifted_steps,
            converged: x.diagnostics.unshifted_converged,
            change: match x.diagnostics.change {
                None => None,
                Some(_) => Some(change),
            },
            shifted: x.diagnostics.shifted_refinement.label(),
            residual,
        },
    }
}

proof fn lemma_finite_readings(
    read: spec_fn(Seq<char>) -> Result<HpValue, Seq<char>>,
    texts: Seq<Seq<char>>,
    values: Seq<HpValue>,
    n: nat,
)
    requires
        texts.len() == values.len(),
        n <= values.len(),
        forall|i: int| 0 <= i < values.len() ==> (#[trigger] values[i]).is_finite(),
        forall|i: int|
            0 <= i < values.len() ==> read(#[trigger] texts[i]) == Ok::<HpValue, Seq<char>>(
                values[i],
            ),
    ensures
        finite_vector(readings(read, texts), n) == Ok::<Seq<HpValue>, Seq<char>>(
            values.take(n as int),
        ),
    decreases n,
{
    if n > 0 {
        lemma_finite_readings(read, texts, values, (n - 1) as nat);
        assert(readings(read, texts)[n - 1].reading == read(texts[n - 1]));
        assert(values[n - 1].is_finite());
        assert(values.take(n as int) =~= values.take(n - 1).push(values[n - 1]));
    } else {
        assert(values.take(0) =~= Seq::<HpValue>::empty());
    }
}

/// A saved pair loads as it was, and only where the mode reads archives: an archive whose entry is
/// the envelope of a pair loads as that pair and its evidence, wherever each decimal text reads as
/// the number that it was written for; every other mode loads nothing.
///
/// `evidence` is the text of the record of evidence, `json` that of the envelope, and `zip` the
/// archive.
pub proof fn law_saved_pair_loads(
    mode: CacheMode,
    x: CachedView,
    eigenvalue: Seq<char>,
    entries: Seq<Seq<char>>,
    change: Seq<char>,
    residual: Seq<char>,
    read: spec_fn(Seq<char>) -> Result<HpValue, Seq<char>>,
    lambda: Seq<char>,
    lambda_mode: Seq<char>,
    n_modes: nat,
    prec: nat,
    version: Seq<char>,
    oldest: Seq<char>,
    evidence: Seq<char>,
    json: Seq<char>,
    zip: Seq<u8>,
    entry: Seq<char>,
)
    requires
        x.eigenvalue.is_finite(),
        x.eigenvector.len() == 2 * n_modes + 1,
        entries.len() == x.eigenvector.len(),
        forall|i: int| 0 <= i < x.eigenvector.len() ==> (#[trigger] x.eigenvector[i]).is_finite(),
        computed_evidence(x.diagnostics),
        x.diagnostics.configured_step_limit <= usize::MAX,
        read(eigenvalue) == Ok::<HpValue, Seq<char>>(x.eigenvalue),
        forall|i: int|
            0 <= i < x.eigenvector.len() ==> read(#[trigger] entries[i]) == Ok::<
                HpValue,
                Seq<char>,
            >(x.eigenvector[i]),
        x.diagnostics.change matches Some(v) ==> read(change) == Ok::<HpValue, Seq<char>>(v),
        read(residual) == Ok::<HpValue, Seq<char>>(x.diagnostics.residual),
        !older(version, oldest),
        ({
            let pair = texts_of_pair(x, eigenvalue, entries, change, residual);
            &&& holds_members(evidence, evidence_members(pair.evidence))
            &&& holds_members(
                json,
                pair_members(lambda, lambda_mode, n_modes, prec, version, pair, evidence),
            )
        }),
        zip_text(zip, entry) == Some(json),
    ensures
        mode is JsonZip ==> loaded_pair(mode, zip, entry, n_modes, prec, oldest, true, read)
            == Some(x),
        !(mode is JsonZip) ==> loaded_pair(mode, zip, entry, n_modes, prec, oldest, true, read)
            is None,
{
    let pair = texts_of_pair(x, eigenvalue, entries, change, residual);
    law_saved_pair_reads_back(
        lambda,
        lambda_mode,
        n_modes,
        prec,
        version,
        oldest,
        pair,
        evidence,
        json,
    );
    lemma_finite_readings(read, entries, x.eigenvector, entries.len());
    assert(x.eigenvector.take(entries.len() as int) =~= x.eigenvector);
    law_diagnostics_round_trip(x.diagnostics, change, residual);
}

/// A text is a literal with enough digits for a number of a precision.
pub open spec fn holds_number(s: Seq<char>, x: HpValue, p: nat) -> bool {
    x.wf() && x.prec == p && text_near(s, x)
}

/// A pair saved in literals with enough digits loads as it was, where literals are read to the
/// nearest value of the file's precision.
pub proof fn law_pair_of_enough_digits_loads(
    x: CachedView,
    eigenvalue: Seq<char>,
    entries: Seq<Seq<char>>,
    change: Seq<char>,
    residual: Seq<char>,
    lambda: Seq<char>,
    lambda_mode: Seq<char>,
    n_modes: nat,
    prec: nat,
    version: Seq<char>,
    oldest: Seq<char>,
    evidence: Seq<char>,
    json: Seq<char>,
    zip: Seq<u8>,
    entry: Seq<char>,
)
    requires
        holds_number(eigenvalue, x.eigenvalue, prec),
        x.eigenvector.len() == 2 * n_modes + 1,
        entries.len() == x.eigenvector.len(),
        forall|i: int|
            0 <= i < x.eigenvector.len() ==> holds_number(
                #[trigger] entries[i],
                x.eigenvector[i],
                prec,
            ),
        x.diagnostics.change matches Some(v) ==> holds_number(change, v, prec),
        holds_number(residual, x.diagnostics.residual, prec),
        computed_evidence(x.diagnostics),
        x.diagnostics.configured_step_limit <= usize::MAX,
        !older(version, oldest),
        ({
            let pair = texts_of_pair(x, eigenvalue, entries, change, residual);
            &&& holds_members(evidence, evidence_members(pair.evidence))
            &&& holds_members(
                json,
                pair_members(lambda, lambda_mode, n_modes, prec, version, pair, evidence),
            )
        }),
        zip_text(zip, entry) == Some(json),
    ensures
        loaded_pair(
            CacheMode::JsonZip,
            zip,
            entry,
            n_modes,
            prec,
            oldest,
            true,
            literal_reading(prec),
        ) == Some(x),
{
    law_near_text_reads_back(eigenvalue, x.eigenvalue);
    law_near_text_reads_back(residual, x.diagnostics.residual);
    if x.diagnostics.change is Some {
        law_near_text_reads_back(change, x.diagnostics.change->0);
    }
    assert forall|i: int| 0 <= i < x.eigenvector.len() implies literal_reading(prec)(
        #[trigger] entries[i],
    ) == Ok::<HpValue, Seq<char>>(x.eigenvector[i]) by {
        law_near_text_reads_back(entries[i], x.eigenvector[i]);
    }
    assert forall|i: int| 0 <= i < x.eigenvector.len() implies (
    #[trigger] x.eigenvector[i]).is_finite() by {
        assert(holds_number(entries[i], x.eigenvector[i], prec));
    }
    law_saved_pair_loads(
        CacheMode::JsonZip,
        x,
        eigenvalue,
        entries,
        change,
        residual,
        literal_reading(prec),
        lambda,
        lambda_mode,
        n_modes,
        prec,
        version,
        oldest,
        evidence,
        json,
        zip,
        entry,
    );
}

/// The start that a cached vector gives at another precision, where `again` holds the decimal
/// texts of its entries as they read there: an entry whose digits all fit keeps its value, every
/// other one is read from its text, and is zero where the text does not read.
pub open spec fn warm_start(v: Seq<HpValue>, again: Seq<ScalarView>, p: nat) -> Seq<HpValue> {
    Seq::new(
        v.len(),
        |i: int|
            if v[i].prec <= p {
                v[i].at(p)
            } else {
                match again[i].reading {
                    Ok(x) => x,
                    Err(_) => hp_int(p, 0),
                }
            },
    )
}

/// The start that a cached vector gives at the precision of the solve; `again` holds the decimal
/// texts of its entries, read at that precision.
pub fn warm_start_at(xi: &Vec<HpFloat>, again: &Vec<HpScalar>, target_prec: u32) -> (r: Vec<
    HpFloat,
>)
    requires
        target_prec >= 1,
        again@.len() == xi@.len(),
    ensures
        vals(r@) == warm_start(vals(xi@), scalars(again@), target_prec as nat),
{
    let ghost goal = warm_start(vals(xi@), scalars(again@), target_prec as nat);
    let mut r: Vec<HpFloat> = Vec::with_capacity(xi.len());
    let mut i: usize = 0;
    proof {
        lemma_build_ends(goal);
    }
    while i < xi.len()
        invariant
            i <= xi.len(),
            target_prec >= 1,
            again@.len() == xi@.len(),
            r.len() == i,
            goal == warm_start(vals(xi@), scalars(again@), target_prec as nat),
            vals(r@) == goal.take(i as int),
        decreases xi.len() - i,
    {
        let x: HpFloat = if xi[i].prec() <= target_prec {
            xi[i].at(target_prec)
        } else {
            match &again[i].reading {
                Ok(v) => v.clone(),
                Err(_) => HpFloat::zero(target_prec),
            }
        };
        proof {
            assert(scalars(again@)[i as int] == again@[i as int]@);
            lemma_extend(r@, x, goal);
        }
        r.push(x);
        i = i + 1;
    }
    proof {
        lemma_build_ends(goal);
    }
    r
}

/// A start from a smaller precision loses nothing: every entry keeps its value, whatever its text
/// reads as.
pub proof fn law_raised_start_is_exact(v: Seq<HpValue>, again: Seq<ScalarView>, p: nat)
    requires
        forall|i: int|
            0 <= i < v.len() ==> (#[trigger] v[i]).wf() && !v[i].is_nan() && v[i].prec <= p,
    ensures
        warm_start(v, again, p).len() == v.len(),
        forall|i: int|
            0 <= i < v.len() ==> (#[trigger] warm_start(v, again, p)[i]).eqv(v[i]) && warm_start(
                v,
                again,
                p,
            )[i].prec == p,
{
    assert forall|i: int| 0 <= i < v.len() implies (#[trigger] warm_start(v, again, p)[i]).eqv(v[i])
        && warm_start(v, again, p)[i].prec == p by {
        assert(v[i].wf());
        law_larger_precision_is_exact(v[i], p);
    }
}

/// Residuals of `A v = x v`, as a function of the row.
pub open spec fn pair_residuals(m: Seq<HpValue>, dim: int, v: Seq<HpValue>, x: HpValue, p: nat) -> spec_fn(
    int,
) -> HpValue {
    |row: int| row_dot(m, v, dim, row, p).minus(x.times(v[row])).abs()
}

/// Largest residual of a pair, relative to the largest entry of its vector; `None` where the
/// sizes do not fit or the vector is zero.
pub open spec fn relative_residual(m: Seq<HpValue>, dim: int, v: Seq<HpValue>, x: HpValue, p: nat) -> Option<
    HpValue,
> {
    if v.len() != dim || m.len() != dim * dim || magnitude_of(v, p).is_zero() {
        None
    } else {
        Some(
            largest(hp_int(p, 0), pair_residuals(m, dim, v, x, p), dim as nat).over(
                magnitude_of(v, p),
            ),
        )
    }
}

/// Largest residual of a pair, relative to the largest entry of its vector.
pub fn relative_residual_norm(
    tau: &Vec<HpFloat>,
    dim: usize,
    xi: &Vec<HpFloat>,
    eps_n: &HpFloat,
    prec: u32,
) -> (r: Option<HpFloat>)
    requires
        prec >= 1,
    ensures
        ({
            let goal = relative_residual(
                vals(tau@),
                dim as int,
                vals(xi@),
                eps_n@,
                prec as nat,
            );
            match r {
                None => goal is None,
                Some(v) => goal == Some(v@),
            }
        }),
{
    if xi.len() != dim || !is_square_of(tau.len(), dim) {
        return None;
    }
    let linf: HpFloat = largest_magnitude(xi, prec);
    if linf.is_zero() {
        return None;
    }
    let mut worst: HpFloat = HpFloat::zero(prec);
    let mut row: usize = 0;
    while row < dim
        invariant
            row <= dim,
            prec >= 1,
            xi.len() == dim,
            tau.len() == dim * dim,
            worst@ == largest(
                hp_int(prec as nat, 0),
                pair_residuals(vals(tau@), dim as int, vals(xi@), eps_n@, prec as nat),
                row as nat,
            ),
        decreases dim - row,
    {
        let residual: HpFloat = matrix_row_dot(tau, xi, dim, row, prec).minus(
            &eps_n.times(&xi[row]),
        ).abs();
        if worst.lt(&residual) {
            worst = residual;
        }
        row = row + 1;
    }
    Some(worst.over(&linf))
}

/// Whether a pair reaches the residual that the precision allows, less 32 bits.
pub open spec fn residual_holds(m: Seq<HpValue>, dim: int, v: Seq<HpValue>, x: HpValue, p: nat) -> bool {
    relative_residual(m, dim, v, x, p) matches Some(r) && r.lt_abs(hp_pow2(p, 32 - p))
}

/// Whether a pair reaches the residual that the precision allows.
pub fn residual_ok(
    tau: &Vec<HpFloat>,
    dim: usize,
    xi: &Vec<HpFloat>,
    eps_n: &HpFloat,
    prec: u32,
) -> (r: bool)
    requires
        prec >= 1,
    ensures
        r == residual_holds(vals(tau@), dim as int, vals(xi@), eps_n@, prec as nat),
{
    match relative_residual_norm(tau, dim, xi, eps_n, prec) {
        None => false,
        Some(v) => v.lt_abs(&HpFloat::power_of_two(prec, 32 - prec as i64)),
    }
}

} // verus!
