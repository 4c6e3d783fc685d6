//! Interval certificates: what ties a root certificate to its source, and what a certificate of
//! the form has to pass before it is recorded.

use crate::config::{
    CcmParams, CcmRootCertificationOptions, HighPrecConfig, IndependentCcmRootTarget,
};
use crate::error::CcmError;
use crate::float::HpFloat;
use crate::lexical::{comes_before, order_texts};
use crate::limbs::Order;
use crate::matrix::vals;
use crate::rounding::HpValue;
use crate::text::{number_text, push_number, text_equal};
use vstd::prelude::*;
use vstd::string::*;

verus! {

/// The parts of a root certificate that name its source and its request.
#[derive(Debug)]
pub struct RootCertificateHeader {
    pub integer_cutoff: u64,
    pub modes: usize,
    pub precision_bits: u32,
    pub isolation_bits: u32,
    pub target: IndependentCcmRootTarget,
    /// Decimal width that an enclosure had to reach.
    pub width_tolerance: String,
    pub maximum_iterations: usize,
    pub source_weights_digest: String,
}

/// Whether a root certificate was made for a source, given by the digest of its weights, and
/// for a request.
pub open spec fn certificate_names(
    c: RootCertificateHeader,
    params: CcmParams,
    cfg: HighPrecConfig,
    options: CcmRootCertificationOptions,
    weights_digest: Seq<char>,
) -> bool {
    &&& c.integer_cutoff == params.cutoff()
    &&& c.modes == params.n_modes
    &&& c.precision_bits == cfg.precision_bits
    &&& c.isolation_bits == options.isolation_bits
    &&& c.width_tolerance@ == options.width_tolerance@
    &&& c.maximum_iterations == options.maximum_iterations
    &&& c.target == options.target
    &&& c.source_weights_digest@ == weights_digest
}

/// Accepts a stored root certificate whose structure holds and which was made for exactly this
/// source and request.
///
/// `structure` is what the validation of the certificate's structure gave, with its words where
/// it failed.
pub fn check_root_certificate(
    structure: &Result<(), String>,
    certificate: &RootCertificateHeader,
    params: &CcmParams,
    cfg: &HighPrecConfig,
    options: &CcmRootCertificationOptions,
    weights_digest: &str,
) -> (r: Result<(), CcmError>)
    ensures
        match r {
            Ok(_) => structure is Ok && certificate_names(
                *certificate,
                *params,
                *cfg,
                *options,
                weights_digest@,
            ),
            Err(e) => match *structure {
                Err(m) => e.rejects(m@),
                Ok(_) => !certificate_names(*certificate, *params, *cfg, *options, weights_digest@)
                    && e.rejects(
                    "CCM root certificate does not match its exact semantic identity"@,
                ),
            },
        },
{
    match structure {
        Err(m) => {
            return Err(CcmError::InvalidManifest(m.clone()));
        },
        Ok(_) => {},
    }
    if certificate.integer_cutoff != params.lambda_sq_int() || certificate.modes != params.n_modes
        || certificate.precision_bits != cfg.precision_bits || certificate.isolation_bits
        != options.isolation_bits || !text_equal(
        certificate.width_tolerance.as_str(),
        options.width_tolerance.as_str(),
    ) || certificate.maximum_iterations != options.maximum_iterations || certificate.target
        != options.target || !text_equal(
        certificate.source_weights_digest.as_str(),
        weights_digest,
    ) {
        return Err(
            CcmError::invalid("CCM root certificate does not match its exact semantic identity"),
        );
    }
    Ok(())
}

/// A root certificate serves one source and one request: whatever it is accepted for agrees in
/// cutoff, modes, precision, target and weights.
pub proof fn law_certificate_is_bound_to_its_source(
    c: RootCertificateHeader,
    first: (CcmParams, HighPrecConfig, CcmRootCertificationOptions, Seq<char>),
    second: (CcmParams, HighPrecConfig, CcmRootCertificationOptions, Seq<char>),
)
    requires
        certificate_names(c, first.0, first.1, first.2, first.3),
        certificate_names(c, second.0, second.1, second.2, second.3),
    ensures
        first.0.cutoff() == second.0.cutoff(),
        first.0.n_modes == second.0.n_modes,
        first.1.precision_bits == second.1.precision_bits,
        first.2.target == second.2.target,
        first.2.isolation_bits == second.2.isolation_bits,
        first.2.width_tolerance@ == second.2.width_tolerance@,
        first.2.maximum_iterations == second.2.maximum_iterations,
        first.3 == second.3,
{
}

/// First position at or after `from` whose value is not finite.
pub open spec fn first_inexact(s: Seq<HpValue>, from: int) -> Option<int>
    decreases s.len() - from,
{
    if from < 0 || from >= s.len() {
        None
    } else if !s[from].is_finite() {
        Some(from)
    } else {
        first_inexact(s, from + 1)
    }
}

/// Texts one after another, with a semicolon between neighbours.
pub open spec fn listed(s: Seq<String>) -> Seq<char>
    decreases s.len(),
{
    if s.len() == 0 {
        Seq::<char>::empty()
    } else if s.len() == 1 {
        s[0]@
    } else {
        listed(s.drop_last()) + "; "@ + s.last()@
    }
}

/// Words for a certificate of the form that cannot be recorded, or `None` where it can: it has
/// to cover every entry, the entries have to be exact numbers, its independent replay has to
/// succeed, and there has to be a place for evidence.
pub open spec fn form_certificate_fault(
    tau: Seq<HpValue>,
    enclosed: nat,
    replay: Result<(), Seq<String>>,
    has_store: bool,
) -> Option<Seq<char>> {
    if enclosed != tau.len() {
        Some("cutoff-free certification matrix dimension differs from retained tau matrix"@)
    } else if first_inexact(tau, 0) is Some {
        Some(
            "retained tau entry "@ + number_text(first_inexact(tau, 0)->0 as nat)
                + " cannot be represented exactly"@,
        )
    } else if replay is Err {
        Some(
            "portable tau interval certificate failed independent replay: "@ + listed(
                replay->Err_0,
            ),
        )
    } else if !has_store {
        Some("certified assurance requires the toolkit evidence store"@)
    } else {
        None
    }
}

fn find_inexact(tau: &Vec<HpFloat>) -> (r: Option<usize>)
    ensures
        match r {
            None => first_inexact(vals(tau@), 0) is None,
            Some(i) => first_inexact(vals(tau@), 0) == Some(i as int),
        },
{
    let ghost v = vals(tau@);
    let mut i: usize = 0;
    while i < tau.len()
        invariant
            i <= tau.len(),
            v == vals(tau@),
            first_inexact(v, 0) == first_inexact(v, i as int),
        decreases tau.len() - i,
    {
        if !tau[i].is_finite() {
            return Some(i);
        }
        i = i + 1;
    }
    None
}

fn push_listed(t: &mut String, s: &Vec<String>)
    ensures
        final(t)@ == old(t)@ + listed(s@),
{
    let ghost before = t@;
    let mut i: usize = 0;
    proof {
        assert(s@.take(0) =~= Seq::<String>::empty());
        assert(t@ =~= before + listed(s@.take(0)));
    }
    while i < s.len()
        invariant
            i <= s.len(),
            t@ == before + listed(s@.take(i as int)),
        decreases s.len() - i,
    {
        let ghost head = s@.take(i + 1);
        proof {
            assert(head.drop_last() =~= s@.take(i as int));
            assert(head.last() == s@[i as int]);
        }
        if i > 0 {
            t.append("; ");
        }
        t.append(s[i].as_str());
        proof {
            assert(t@ =~= before + listed(head));
        }
        i = i + 1;
    }
    proof {
        assert(s@.take(s@.len() as int) =~= s@);
    }
}

/// Accepts a certificate of the form that can be recorded.
///
/// `enclosed` is the number of entries that the certificate encloses, and `replay` what its
/// independent replay gave, with the errors that it found.
pub fn check_form_certificate(
    tau: &Vec<HpFloat>,
    enclosed: usize,
    replay: &Result<(), Vec<String>>,
    has_store: bool,
) -> (r: Result<(), CcmError>)
    ensures
        ({
            let fault = form_certificate_fault(
                vals(tau@),
                enclosed as nat,
                match *replay {
                    Ok(_) => Ok(()),
                    Err(m) => Err(m@),
                },
                has_store,
            );
            match r {
                Ok(_) => fault is None,
                Err(e) => e is Refused && fault == Some(e.text()),
            }
        }),
{
    if enclosed != tau.len() {
        return Err(
            CcmError::refused(
                "cutoff-free certification matrix dimension differs from retained tau matrix",
            ),
        );
    }
    match find_inexact(tau) {
        Some(i) => {
            let mut t: String = "retained tau entry ".to_owned();
            push_number(&mut t, i as u64);
            t.append(" cannot be represented exactly");
            return Err(CcmError::Refused(t));
        },
        None => {},
    }
    match replay {
        Err(m) => {
            let mut t: String =
                "portable tau interval certificate failed independent replay: ".to_owned();
            push_listed(&mut t, m);
            return Err(CcmError::Refused(t));
        },
        Ok(_) => {},
    }
    if !has_store {
        return Err(CcmError::refused("certified assurance requires the toolkit evidence store"));
    }
    Ok(())
}

/// The digests of a certificate and of its containment report, in order.
pub fn certificate_evidence(certificate: String, containment: String) -> (r: Vec<String>)
    ensures
        r@ == if comes_before(containment@, certificate@) {
            seq![containment, certificate]
        } else {
            seq![certificate, containment]
        },
{
    let mut r: Vec<String> = Vec::with_capacity(2);
    match order_texts(containment.as_str(), certificate.as_str()) {
        Order::Less => {
            r.push(containment);
            r.push(certificate);
        },
        _ => {
            r.push(certificate);
            r.push(containment);
        },
    }
    r
}

} // verus!
