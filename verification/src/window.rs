//! Planning of a root window: which part of the finite source is scanned, and which of the
//! discovered roots a request is given.

use crate::config::{
    CcmParams, HighPrecConfig, IndependentRootDiscoveryOptions, IndependentRootDomain,
    RootArtifactFormat, RootWindowSemantics,
};
use crate::error::CcmError;
use crate::float::HpFloat;
use crate::matrix::{lemma_build_ends, lemma_extend, vals};
use crate::order::{
    comparable, exponent_of, law_order_is_total, law_order_is_transitive, lemma_order_at, min3, rank,
    scaled_int,
};
use crate::refine::{pole_spacing, spacing_of};
use crate::rounding::{hp_int, hp_word, HpValue};
use crate::secular::{
    discover_secular_roots_hp, discover_secular_roots_hp_signed, discovered, rising,
};
use crate::text::{number_text, push_number};
use vstd::arithmetic::power2::*;
use vstd::prelude::*;
use vstd::string::*;

verus! {

/// Which roots a request asks for.
#[derive(Debug)]
pub enum ZeroTarget {
    FirstK { count: usize },
    IndexRange { first: usize, last: usize },
    HeightWindow { lower: HpFloat, upper: HpFloat },
    SymmetricHeightWindow { height: HpFloat },
}

/// Which roots a request asks for, as mathematics.
pub enum TargetView {
    FirstK { count: nat },
    IndexRange { first: nat, last: nat },
    HeightWindow { lower: HpValue, upper: HpValue },
    SymmetricHeightWindow { height: HpValue },
}

impl View for ZeroTarget {
    type V = TargetView;

    open spec fn view(&self) -> TargetView {
        match self {
            ZeroTarget::FirstK { count } => TargetView::FirstK { count: *count as nat },
            ZeroTarget::IndexRange { first, last } => TargetView::IndexRange {
                first: *first as nat,
                last: *last as nat,
            },
            ZeroTarget::HeightWindow { lower, upper } => TargetView::HeightWindow {
                lower: lower@,
                upper: upper@,
            },
            ZeroTarget::SymmetricHeightWindow { height } => TargetView::SymmetricHeightWindow {
                height: height@,
            },
        }
    }
}

/// The roots that a configuration asks for: the first positive ones in the configured number. A
/// configuration that asks for none builds its source alone.
pub fn configured_target(cfg: &HighPrecConfig) -> (r: Option<ZeroTarget>)
    ensures
        match r {
            None => cfg.n_eigenvalues == 0,
            Some(t) => cfg.n_eigenvalues > 0 && t@ == (TargetView::FirstK {
                count: cfg.n_eigenvalues as nat,
            }),
        },
{
    if cfg.n_eigenvalues == 0 {
        None
    } else {
        Some(ZeroTarget::FirstK { count: cfg.n_eigenvalues })
    }
}

/// Starting points of a window and the part of them that answers a request.
#[derive(Debug)]
pub struct IndependentRootDiscoveryPlan {
    pub artifact_first_root_index: usize,
    pub artifact_seeds: Vec<HpFloat>,
    pub selected_positions: Vec<usize>,
    pub result_first_root_index: usize,
    pub request_semantics: RootWindowSemantics,
}

/// A plan, as mathematics.
pub struct PlanView {
    pub artifact_first: nat,
    pub seeds: Seq<HpValue>,
    pub positions: Seq<usize>,
    pub result_first: nat,
    pub semantics: RootWindowSemantics,
}

impl View for IndependentRootDiscoveryPlan {
    type V = PlanView;

    open spec fn view(&self) -> PlanView {
        PlanView {
            artifact_first: self.artifact_first_root_index as nat,
            seeds: vals(self.artifact_seeds@),
            positions: self.selected_positions@,
            result_first: self.result_first_root_index as nat,
            semantics: self.request_semantics,
        }
    }
}

/// The default options: positive roots, and the whole target or nothing.
pub open spec fn strict_options(o: IndependentRootDiscoveryOptions) -> bool {
    o.domain is Positive && !o.allow_incomplete
}

/// Upper scan limit and lower filter of a target, or the words of its refusal.
pub open spec fn scan_range(t: TargetView, signed: bool, maximum: HpValue, p: nat) -> Result<
    (HpValue, HpValue),
    Seq<char>,
> {
    if signed && (t is IndexRange || t is HeightWindow) {
        Err("signed independent discovery supports FirstK and SymmetricHeightWindow targets only"@)
    } else {
        match t {
            TargetView::FirstK { count } => if count == 0 {
                Err("independent CCM prefix count must be positive"@)
            } else {
                Ok((maximum, hp_int(p, 0)))
            },
            TargetView::IndexRange { first, last } => if first == 0 || first > last {
                Err("independent CCM root indices require 1 <= first <= last"@)
            } else {
                Ok((maximum, hp_int(p, 0)))
            },
            TargetView::HeightWindow { lower, upper } => if lower.le(hp_word(0)) || upper.le(lower)
                || maximum.lt(upper) {
                Err("independent positive height window lies outside the finite CCM reach"@)
            } else {
                Ok((upper, lower))
            },
            TargetView::SymmetricHeightWindow { height } => if height.le(hp_word(0))
                || maximum.lt(height) {
                Err("independent symmetric height window lies outside the finite CCM reach"@)
            } else {
                Ok((height, hp_int(p, 0)))
            },
        }
    }
}

/// Number of leading values that are not above a limit.
pub open spec fn leading_not_above(s: Seq<HpValue>, limit: HpValue, from: int) -> int
    decreases s.len() - from,
{
    if from < 0 || from >= s.len() {
        s.len() as int
    } else if s[from].le(limit) {
        leading_not_above(s, limit, from + 1)
    } else {
        from
    }
}

/// The positions from `a` up to `b`.
pub open spec fn span(a: int, b: int) -> Seq<usize> {
    Seq::new(
        if a <= b {
            (b - a) as nat
        } else {
            0
        },
        |i: int| (a + i) as usize,
    )
}

/// `a` is closer to zero than `b`; at equal distance the smaller one counts as closer.
pub open spec fn nearer(a: HpValue, b: HpValue) -> bool {
    a.abs().lt(b.abs()) || (a.abs().eqv(b.abs()) && a.lt(b))
}

/// The `count` positions of `lo..hi` closest to zero: the farther end goes, one at a time.
pub open spec fn nearest_window(s: Seq<HpValue>, lo: int, hi: int, count: int) -> (int, int)
    decreases hi - lo,
{
    if hi - lo <= count || hi - lo <= 0 {
        (lo, hi)
    } else if nearer(s[lo], s[hi - 1]) {
        nearest_window(s, lo, hi - 1, count)
    } else {
        nearest_window(s, lo + 1, hi, count)
    }
}

pub open spec fn smaller(a: int, b: int) -> int {
    if a <= b {
        a
    } else {
        b
    }
}

pub open spec fn shortfall_words(found: nat, domain: Seq<char>, count: nat) -> Seq<char> {
    "independent HP discovery found only "@ + number_text(found) + " "@ + domain
        + " roots, but target requests "@ + number_text(count)
        + "; enable the explicit incomplete-window policy or increase finite reach"@
}

pub open spec fn index_shortfall_words(found: nat, last: nat) -> Seq<char> {
    "independent HP discovery found only "@ + number_text(found)
        + " positive roots, but target requires index "@ + number_text(last)
        + "; enable the explicit incomplete-window policy or increase finite reach"@
}

/// Number of roots that a target asks for, given how many were found.
pub open spec fn requested_count(t: TargetView, found: nat) -> nat {
    match t {
        TargetView::FirstK { count } => count,
        TargetView::IndexRange { first, last } => (last - first + 1) as nat,
        _ => found,
    }
}

/// Request-shaped plan of a strict request: exactly the roots of the target.
pub open spec fn strict_plan(s: Seq<HpValue>, filter: HpValue, t: TargetView) -> Result<
    PlanView,
    Seq<char>,
> {
    let semantics = RootWindowSemantics {
        domain: IndependentRootDomain::Positive,
        requested_count: requested_count(t, s.len()) as usize,
        allow_incomplete: false,
        artifact_format: RootArtifactFormat::LegacyV6,
    };
    match t {
        TargetView::FirstK { count } => if s.len() < count {
            Err(shortfall_words(s.len(), "positive"@, count))
        } else {
            Ok(
                PlanView {
                    artifact_first: 1,
                    seeds: s.subrange(0, count as int),
                    positions: span(0, count as int),
                    result_first: 1,
                    semantics,
                },
            )
        },
        TargetView::IndexRange { first, last } => if s.len() < last {
            Err(index_shortfall_words(s.len(), last))
        } else {
            Ok(
                PlanView {
                    artifact_first: first,
                    seeds: s.subrange(first - 1, last as int),
                    positions: span(0, last - first + 1),
                    result_first: first,
                    semantics,
                },
            )
        },
        _ => {
            let from = leading_not_above(s, filter, 0);
            if from == s.len() {
                Err("independent computed height window contains no discovered roots"@)
            } else {
                Ok(
                    PlanView {
                        artifact_first: (from + 1) as nat,
                        seeds: s.subrange(from, s.len() as int),
                        positions: span(0, s.len() - from),
                        result_first: (from + 1) as nat,
                        semantics,
                    },
                )
            }
        },
    }
}

/// Positions within the whole discovered window that answer an advanced request.
pub open spec fn advanced_positions(
    s: Seq<HpValue>,
    filter: HpValue,
    t: TargetView,
    o: IndependentRootDiscoveryOptions,
) -> Result<Seq<usize>, Seq<char>> {
    match t {
        TargetView::FirstK { count } => if s.len() < count && !o.allow_incomplete {
            Err(shortfall_words(s.len(), o.domain.label(), count))
        } else if o.domain is Signed {
            let w = nearest_window(s, 0, s.len() as int, count as int);
            Ok(span(w.0, w.1))
        } else {
            Ok(span(0, smaller(count as int, s.len() as int)))
        },
        TargetView::IndexRange { first, last } => if s.len() < last && !o.allow_incomplete {
            Err(index_shortfall_words(s.len(), last))
        } else {
            Ok(span(smaller(first - 1, s.len() as int), smaller(last as int, s.len() as int)))
        },
        _ => {
            let from = leading_not_above(s, filter, 0);
            if from == s.len() && !o.allow_incomplete {
                Err("independent computed height window contains no discovered roots"@)
            } else {
                Ok(span(from, s.len() as int))
            }
        },
    }
}

/// Plan of an advanced request: the whole discovered window, and a projection of it.
pub open spec fn advanced_plan(
    s: Seq<HpValue>,
    filter: HpValue,
    t: TargetView,
    o: IndependentRootDiscoveryOptions,
) -> Result<PlanView, Seq<char>> {
    match advanced_positions(s, filter, t, o) {
        Err(words) => Err(words),
        Ok(positions) => if positions.len() == 0 && !o.allow_incomplete {
            Err("independent HP discovery found no roots in the finite source window"@)
        } else {
            Ok(
                PlanView {
                    artifact_first: 1,
                    seeds: s,
                    positions,
                    result_first: match t {
                        TargetView::IndexRange { first, .. } => first,
                        TargetView::HeightWindow { .. } => if o.domain is Positive
                            && positions.len() > 0 {
                            positions[0] as nat + 1
                        } else {
                            1
                        },
                        _ => 1,
                    },
                    semantics: RootWindowSemantics {
                        domain: o.domain,
                        requested_count: requested_count(t, s.len()) as usize,
                        allow_incomplete: o.allow_incomplete,
                        artifact_format: RootArtifactFormat::AdvancedV7,
                    },
                },
            )
        },
    }
}

/// Plan for discovered roots.
pub open spec fn window_plan(
    s: Seq<HpValue>,
    filter: HpValue,
    t: TargetView,
    o: IndependentRootDiscoveryOptions,
) -> Result<PlanView, Seq<char>> {
    if strict_options(o) {
        strict_plan(s, filter, t)
    } else {
        advanced_plan(s, filter, t, o)
    }
}

fn span_vec(a: usize, b: usize) -> (r: Vec<usize>)
    ensures
        r@ == span(a as int, b as int),
{
    let mut r: Vec<usize> = Vec::new();
    let mut i: usize = a;
    while i < b
        invariant
            a <= i,
            i <= b || i == a,
            r@ =~= span(a as int, i as int),
        decreases b - i,
    {
        r.push(i);
        i = i + 1;
    }
    assert(r@ =~= span(a as int, b as int));
    r
}

fn values_between(s: &Vec<HpFloat>, from: usize, to: usize) -> (r: Vec<HpFloat>)
    requires
        from <= to <= s.len(),
    ensures
        vals(r@) == vals(s@).subrange(from as int, to as int),
{
    let ghost target = vals(s@).subrange(from as int, to as int);
    let mut r: Vec<HpFloat> = Vec::new();
    let mut i: usize = from;
    proof {
        lemma_build_ends(target);
    }
    while i < to
        invariant
            from <= i <= to <= s.len(),
            target == vals(s@).subrange(from as int, to as int),
            r.len() == i - from,
            vals(r@) == target.take(i - from),
        decreases to - i,
    {
        let x: HpFloat = s[i].clone();
        proof {
            lemma_extend(r@, x, target);
        }
        r.push(x);
        i = i + 1;
    }
    r
}

fn shortfall(found: usize, domain: &str, count: usize) -> (r: CcmError)
    ensures
        r.refuses(shortfall_words(found as nat, domain@, count as nat)),
{
    let mut t: String = "independent HP discovery found only ".to_owned();
    push_number(&mut t, found as u64);
    t.append(" ");
    t.append(domain);
    t.append(" roots, but target requests ");
    push_number(&mut t, count as u64);
    t.append("; enable the explicit incomplete-window policy or increase finite reach");
    CcmError::Refused(t)
}

fn index_shortfall(found: usize, last: usize) -> (r: CcmError)
    ensures
        r.refuses(index_shortfall_words(found as nat, last as nat)),
{
    let mut t: String = "independent HP discovery found only ".to_owned();
    push_number(&mut t, found as u64);
    t.append(" positive roots, but target requires index ");
    push_number(&mut t, last as u64);
    t.append("; enable the explicit incomplete-window policy or increase finite reach");
    CcmError::Refused(t)
}

fn count_not_above(s: &Vec<HpFloat>, limit: &HpFloat) -> (r: usize)
    ensures
        r == leading_not_above(vals(s@), limit@, 0),
        r <= s.len(),
{
    let mut i: usize = 0;
    while i < s.len()
        invariant
            i <= s.len(),
            leading_not_above(vals(s@), limit@, 0) == leading_not_above(
                vals(s@),
                limit@,
                i as int,
            ),
        decreases s.len() - i,
    {
        assert(vals(s@)[i as int] == s@[i as int]@);
        if !s[i].le(limit) {
            return i;
        }
        i = i + 1;
    }
    i
}

fn is_nearer(a: &HpFloat, b: &HpFloat) -> (r: bool)
    ensures
        r == nearer(a@, b@),
{
    let x: HpFloat = a.abs();
    let y: HpFloat = b.abs();
    x.lt(&y) || (x.eqv(&y) && a.lt(b))
}

fn nearest_positions(s: &Vec<HpFloat>, count: usize) -> (r: (usize, usize))
    ensures
        (r.0 as int, r.1 as int) == nearest_window(vals(s@), 0, s@.len() as int, count as int),
        r.0 <= r.1 <= s.len(),
{
    let ghost v = vals(s@);
    let ghost goal = nearest_window(v, 0, s@.len() as int, count as int);
    let mut lo: usize = 0;
    let mut hi: usize = s.len();
    while hi - lo > count
        invariant
            lo <= hi <= s.len(),
            v == vals(s@),
            goal == nearest_window(v, 0, s@.len() as int, count as int),
            goal == nearest_window(v, lo as int, hi as int, count as int),
        decreases hi - lo,
    {
        assert(v[lo as int] == s@[lo as int]@);
        assert(v[hi - 1] == s@[hi - 1]@);
        if is_nearer(&s[lo], &s[hi - 1]) {
            hi = hi - 1;
        } else {
            lo = lo + 1;
        }
    }
    (lo, hi)
}

/// The plan for discovered roots.
pub fn plan_window(
    values: Vec<HpFloat>,
    filter: &HpFloat,
    target: &ZeroTarget,
    options: IndependentRootDiscoveryOptions,
) -> (r: Result<IndependentRootDiscoveryPlan, CcmError>)
    requires
        target@ matches TargetView::IndexRange { first, last } ==> 1 <= first <= last,
    ensures
        match r {
            Ok(plan) => window_plan(vals(values@), filter@, target@, options) == Ok::<
                PlanView,
                Seq<char>,
            >(plan@),
            Err(e) => e is Refused && window_plan(vals(values@), filter@, target@, options) == Err::<
                PlanView,
                Seq<char>,
            >(e.text()),
        },
{
    let found: usize = values.len();
    let ghost s = vals(values@);
    assert(s.subrange(0, s.len() as int) =~= s);
    let requested: usize = match target {
        ZeroTarget::FirstK { count } => *count,
        ZeroTarget::IndexRange { first, last } => *last - *first + 1,
        _ => found,
    };
    if options.domain == IndependentRootDomain::Positive && !options.allow_incomplete {
        let (from, to): (usize, usize) = match target {
            ZeroTarget::FirstK { count } => {
                if found < *count {
                    return Err(shortfall(found, "positive", *count));
                }
                (0, *count)
            },
            ZeroTarget::IndexRange { first, last } => {
                if found < *last {
                    return Err(index_shortfall(found, *last));
                }
                (*first - 1, *last)
            },
            _ => {
                let from: usize = count_not_above(&values, filter);
                if from == found {
                    return Err(
                        CcmError::refused(
                            "independent computed height window contains no discovered roots",
                        ),
                    );
                }
                (from, found)
            },
        };
        return Ok(
            IndependentRootDiscoveryPlan {
                artifact_first_root_index: from + 1,
                artifact_seeds: values_between(&values, from, to),
                selected_positions: span_vec(0, to - from),
                result_first_root_index: from + 1,
                request_semantics: RootWindowSemantics::strict_positive(requested),
            },
        );
    }
    let (from, to): (usize, usize) = match target {
        ZeroTarget::FirstK { count } => {
            if found < *count && !options.allow_incomplete {
                return Err(shortfall(found, options.domain.as_str(), *count));
            }
            match options.domain {
                IndependentRootDomain::Signed => nearest_positions(&values, *count),
                IndependentRootDomain::Positive => (
                    0,
                    if *count <= found {
                        *count
                    } else {
                        found
                    },
                ),
            }
        },
        ZeroTarget::IndexRange { first, last } => {
            if found < *last && !options.allow_incomplete {
                return Err(index_shortfall(found, *last));
            }
            (
                if *first - 1 <= found {
                    *first - 1
                } else {
                    found
                },
                if *last <= found {
                    *last
                } else {
                    found
                },
            )
        },
        _ => {
            let from: usize = count_not_above(&values, filter);
            if from == found && !options.allow_incomplete {
                return Err(
                    CcmError::refused(
                        "independent computed height window contains no discovered roots",
                    ),
                );
            }
            (from, found)
        },
    };
    let selected_positions: Vec<usize> = span_vec(from, to);
    if selected_positions.len() == 0 && !options.allow_incomplete {
        return Err(
            CcmError::refused(
                "independent HP discovery found no roots in the finite source window",
            ),
        );
    }
    let result_first_root_index: usize = match target {
        ZeroTarget::IndexRange { first, last: _ } => *first,
        ZeroTarget::HeightWindow { .. } => if options.domain == IndependentRootDomain::Positive
            && selected_positions.len() > 0 {
            selected_positions[0] + 1
        } else {
            1
        },
        _ => 1,
    };
    Ok(
        IndependentRootDiscoveryPlan {
            artifact_first_root_index: 1,
            artifact_seeds: values,
            selected_positions,
            result_first_root_index,
            request_semantics: RootWindowSemantics::advanced(
                options.domain,
                requested,
                options.allow_incomplete,
            ),
        },
    )
}

/// The scan limits of a target.
pub fn scan_limits(target: &ZeroTarget, signed: bool, maximum: &HpFloat, p: u32) -> (r: Result<
    (HpFloat, HpFloat),
    CcmError,
>)
    requires
        p >= 1,
    ensures
        match r {
            Ok(v) => scan_range(target@, signed, maximum@, p as nat) == Ok::<
                (HpValue, HpValue),
                Seq<char>,
            >((v.0@, v.1@)),
            Err(e) => e is Refused && scan_range(target@, signed, maximum@, p as nat) == Err::<
                (HpValue, HpValue),
                Seq<char>,
            >(e.text()),
        },
{
    let zero: HpFloat = HpFloat::from_i64(64, 0);
    match target {
        ZeroTarget::FirstK { count } => if *count == 0 {
            Err(CcmError::refused("independent CCM prefix count must be positive"))
        } else {
            Ok((maximum.clone(), HpFloat::zero(p)))
        },
        ZeroTarget::IndexRange { first, last } => if signed {
            Err(
                CcmError::refused(
                    "signed independent discovery supports FirstK and SymmetricHeightWindow targets only",
                ),
            )
        } else if *first == 0 || *first > *last {
            Err(CcmError::refused("independent CCM root indices require 1 <= first <= last"))
        } else {
            Ok((maximum.clone(), HpFloat::zero(p)))
        },
        ZeroTarget::HeightWindow { lower, upper } => if signed {
            Err(
                CcmError::refused(
                    "signed independent discovery supports FirstK and SymmetricHeightWindow targets only",
                ),
            )
        } else if lower.le(&zero) || upper.le(lower) || maximum.lt(upper) {
            Err(
                CcmError::refused(
                    "independent positive height window lies outside the finite CCM reach",
                ),
            )
        } else {
            Ok((upper.clone(), lower.clone()))
        },
        ZeroTarget::SymmetricHeightWindow { height } => if height.le(&zero) || maximum.lt(height) {
            Err(
                CcmError::refused(
                    "independent symmetric height window lies outside the finite CCM reach",
                ),
            )
        } else {
            Ok((height.clone(), HpFloat::zero(p)))
        },
    }
}

/// Lower scan limit of a domain.
pub open spec fn scan_floor(signed: bool, upper: HpValue, p: nat) -> HpValue {
    if signed {
        upper.at(p).times(hp_word(-1))
    } else {
        hp_int(p, 0)
    }
}

/// Discovers the roots that a target needs and plans the window.
///
/// `pi` is the circle constant at the working precision and `l` the basis length.
pub fn independently_discovered_starting_points(
    params: &CcmParams,
    pi: &HpFloat,
    l: &HpFloat,
    xi: &Vec<HpFloat>,
    target: &ZeroTarget,
    options: IndependentRootDiscoveryOptions,
    precision_bits: u32,
) -> (r: Result<IndependentRootDiscoveryPlan, CcmError>)
    requires
        precision_bits >= 1,
        params.n_modes <= 0x3fff_ffff_ffff_ffff,
        xi.len() < usize::MAX - 2,
    ensures
        r matches Err(e) ==> e is Refused,
        plan_outcome(
            r,
            xi@.len(),
            vals(xi@),
            params.n_modes as int,
            spacing_of(pi@, l@),
            target@,
            options,
            precision_bits as nat,
        ),
{
    let ghost n = params.n_modes as int;
    let ghost p = precision_bits as nat;
    if params.n_modes > (usize::MAX - 1) / 2 || xi.len() != 2 * params.n_modes + 1 {
        return Err(
            CcmError::refused("independent HP discovery requires one weight per CCM pole"),
        );
    }
    let spacing: HpFloat = pole_spacing(pi, l);
    let maximum: HpFloat = spacing.times_word(params.n_modes as u64);
    let signed: bool = options.domain == IndependentRootDomain::Signed;
    let (scan_upper, lower_filter): (HpFloat, HpFloat) = match scan_limits(
        target,
        signed,
        &maximum,
        precision_bits,
    ) {
        Ok(v) => v,
        Err(e) => {
            return Err(e);
        },
    };
    let found: Result<Vec<HpFloat>, CcmError> = if signed {
        discover_secular_roots_hp_signed(xi, params.n_modes, &spacing, &scan_upper, precision_bits)
    } else {
        discover_secular_roots_hp(xi, params.n_modes, &spacing, &scan_upper, precision_bits)
    };
    let values: Vec<HpFloat> = match found {
        Ok(v) => v,
        Err(e) => {
            return Err(e);
        },
    };
    plan_window(values, &lower_filter, target, options)
}

/// What planning returns: a refusal of the request, a refusal of the scan, or the plan of the
/// discovered roots.
pub open spec fn plan_outcome(
    r: Result<IndependentRootDiscoveryPlan, CcmError>,
    weights: nat,
    xi: Seq<HpValue>,
    n: int,
    spacing: HpValue,
    target: TargetView,
    options: IndependentRootDiscoveryOptions,
    p: nat,
) -> bool {
    let signed = options.domain is Signed;
    let limits = scan_range(target, signed, spacing.times(hp_word(n)), p);
    if weights != 2 * n + 1 {
        r matches Err(e) && e.text()
            == "independent HP discovery requires one weight per CCM pole"@
    } else if limits is Err {
        r matches Err(e) && e.text() == limits->Err_0
    } else {
        let upper = (limits->Ok_0).0;
        let filter = (limits->Ok_0).1;
        let lower = scan_floor(signed, upper, p);
        let found = discovered(xi, n, spacing, lower, upper, p);
        if upper.le(lower) {
            r matches Err(e) && e.text()
                == "independent HP discovery requires a nonempty scan interval"@
        } else if found is None {
            r matches Err(e) && e.text() == "independent HP discovery evaluated a secular pole"@
        } else {
            match window_plan(found->0, filter, target, options) {
                Ok(plan) => r matches Ok(x) && x@ == plan,
                Err(words) => r matches Err(e) && e.text() == words,
            }
        }
    }
}

/// Between two values of a rising triple, the ends decide who is farther from zero.
proof fn lemma_nearer_between(a: HpValue, b: HpValue, c: HpValue)
    requires
        comparable(a) && a.is_finite(),
        comparable(b) && b.is_finite(),
        comparable(c) && c.is_finite(),
        a.lt(c),
        a.lt(b) || a == b,
        b.lt(c) || b == c,
    ensures
        nearer(a, c) && b != c ==> nearer(b, c),
        !nearer(a, c) && b != a ==> nearer(b, a),
{
    let e = min3(exponent_of(a.class), exponent_of(b.class), exponent_of(c.class));
    lemma_order_at(a.class, b.class, e);
    lemma_order_at(b.class, c.class, e);
    lemma_order_at(a.class, c.class, e);
    lemma_order_at(b.class, a.class, e);
    lemma_abs_scaled(a, e);
    lemma_abs_scaled(b, e);
    lemma_abs_scaled(c, e);
    lemma_order_at(a.abs().class, c.abs().class, e);
    lemma_order_at(b.abs().class, c.abs().class, e);
    lemma_order_at(b.abs().class, a.abs().class, e);
}

/// The magnitude of a value is the magnitude of its scaled integer.
proof fn lemma_abs_scaled(x: HpValue, e: int)
    requires
        comparable(x),
        x.is_finite(),
        e <= exponent_of(x.class),
    ensures
        comparable(x.abs()),
        exponent_of(x.abs().class) == exponent_of(x.class),
        rank(x.abs().class) == 0,
        rank(x.class) == 0,
        scaled_int(x.abs().class, e) == if scaled_int(x.class, e) < 0 {
            -scaled_int(x.class, e)
        } else {
            scaled_int(x.class, e)
        },
{
    if x.class is Num {
        let m = x.class->man as int;
        let k = pow2((exponent_of(x.class) - e) as nat) as int;
        lemma_pow2_pos((exponent_of(x.class) - e) as nat);
        assert(m * k > 0) by (nonlinear_arith)
            requires
                m > 0,
                k > 0,
        ;
    }
}

/// Values that rise from each one to the next rise over any distance.
pub proof fn law_rising_is_pairwise(s: Seq<HpValue>, i: int, j: int)
    requires
        rising(s),
        forall|k: int| 0 <= k < s.len() ==> comparable(#[trigger] s[k]),
        0 <= i < j < s.len(),
    ensures
        s[i].lt(s[j]),
    decreases j - i,
{
    if j == i + 1 {
        assert(s[i].lt(s[i + 1]));
    } else {
        law_rising_is_pairwise(s, i, j - 1);
        assert(s[j - 1].lt(s[j - 1 + 1]));
        law_order_is_transitive(s[i], s[j - 1], s[j]);
    }
}

proof fn lemma_upper_end_is_farther(s: Seq<HpValue>, lo: int, hi: int, k: int)
    requires
        rising(s),
        forall|q: int| 0 <= q < s.len() ==> comparable(#[trigger] s[q]) && s[q].is_finite(),
        0 <= lo <= k < hi - 1,
        hi <= s.len(),
        nearer(s[lo], s[hi - 1]),
    ensures
        nearer(s[k], s[hi - 1]),
{
    if lo < k {
        law_rising_is_pairwise(s, lo, k);
    }
    law_rising_is_pairwise(s, k, hi - 1);
    law_rising_is_pairwise(s, lo, hi - 1);
    law_order_is_total(s[k], s[hi - 1]);
    lemma_nearer_between(s[lo], s[k], s[hi - 1]);
}

proof fn lemma_lower_end_is_farther(s: Seq<HpValue>, lo: int, hi: int, k: int)
    requires
        rising(s),
        forall|q: int| 0 <= q < s.len() ==> comparable(#[trigger] s[q]) && s[q].is_finite(),
        0 <= lo < k < hi,
        hi <= s.len(),
        !nearer(s[lo], s[hi - 1]),
    ensures
        nearer(s[k], s[lo]),
{
    law_rising_is_pairwise(s, lo, k);
    if k < hi - 1 {
        law_rising_is_pairwise(s, k, hi - 1);
    }
    law_rising_is_pairwise(s, lo, hi - 1);
    law_order_is_total(s[lo], s[k]);
    lemma_nearer_between(s[lo], s[k], s[hi - 1]);
}

/// A signed request is given the roots closest to zero: the projection has the requested
/// size, or is the whole window, and every root in it is closer to zero than every other one.
#[verifier::spinoff_prover]
#[verifier::rlimit(40)]
pub proof fn law_signed_projection_is_nearest(s: Seq<HpValue>, lo: int, hi: int, count: int)
    requires
        rising(s),
        forall|k: int| 0 <= k < s.len() ==> comparable(#[trigger] s[k]) && s[k].is_finite(),
        0 <= lo <= hi <= s.len(),
        count >= 0,
    ensures
        ({
            let w = nearest_window(s, lo, hi, count);
            &&& lo <= w.0 <= w.1 <= hi
            &&& w.1 - w.0 == smaller(count, hi - lo)
            &&& forall|k: int, j: int|
                w.0 <= k < w.1 && lo <= j < hi && !(w.0 <= j < w.1) ==> nearer(
                    #[trigger] s[k],
                    #[trigger] s[j],
                )
        }),
    decreases hi - lo,
{
    if hi - lo > count && hi - lo > 0 {
        if nearer(s[lo], s[hi - 1]) {
            law_signed_projection_is_nearest(s, lo, hi - 1, count);
            assert forall|k: int| lo <= k < hi - 1 implies nearer(#[trigger] s[k], s[hi - 1]) by {
                lemma_upper_end_is_farther(s, lo, hi, k);
            }
            if hi - 1 == lo {
                law_order_is_total(s[lo], s[lo]);
                law_order_is_total(s[lo].abs(), s[lo].abs());
            }
        } else {
            law_signed_projection_is_nearest(s, lo + 1, hi, count);
            assert forall|k: int| lo + 1 <= k < hi implies nearer(#[trigger] s[k], s[lo]) by {
                lemma_lower_end_is_farther(s, lo, hi, k);
            }
        }
    }
}

proof fn lemma_leading_bounds(s: Seq<HpValue>, limit: HpValue, from: int)
    requires
        0 <= from <= s.len(),
    ensures
        from <= leading_not_above(s, limit, from) <= s.len(),
    decreases s.len() - from,
{
    if from < s.len() {
        lemma_leading_bounds(s, limit, from + 1);
    }
}

/// A strict plan holds exactly the roots that were asked for, numbered from the one asked for.
pub proof fn law_strict_plan_matches_request(s: Seq<HpValue>, filter: HpValue, t: TargetView)
    requires
        t matches TargetView::IndexRange { first, last } ==> 1 <= first <= last,
    ensures
        strict_plan(s, filter, t) matches Ok(plan) ==> {
            &&& plan.positions == span(0, plan.seeds.len() as int)
            &&& plan.artifact_first == plan.result_first
            &&& t is FirstK ==> plan.seeds.len() == requested_count(t, s.len())
            &&& t is IndexRange ==> plan.seeds.len() == requested_count(t, s.len())
            &&& forall|i: int|
                0 <= i < plan.seeds.len() ==> #[trigger] plan.seeds[i] == s[plan.artifact_first - 1
                    + i]
        },
{
    lemma_leading_bounds(s, filter, 0);
}

proof fn lemma_nearest_bounds(s: Seq<HpValue>, lo: int, hi: int, count: int)
    requires
        lo <= hi,
    ensures
        lo <= nearest_window(s, lo, hi, count).0,
        nearest_window(s, lo, hi, count).1 <= hi,
    decreases hi - lo,
{
    if hi - lo > count && hi - lo > 0 {
        lemma_nearest_bounds(s, lo, hi - 1, count);
        lemma_nearest_bounds(s, lo + 1, hi, count);
    }
}

/// Every position that a plan selects lies inside its window.
pub proof fn law_plan_stays_in_its_window(
    s: Seq<HpValue>,
    filter: HpValue,
    t: TargetView,
    o: IndependentRootDiscoveryOptions,
)
    requires
        s.len() <= usize::MAX,
        t matches TargetView::IndexRange { first, last } ==> 1 <= first <= last,
    ensures
        window_plan(s, filter, t, o) matches Ok(plan) ==> forall|i: int|
            0 <= i < plan.positions.len() ==> (#[trigger] plan.positions[i]) < plan.seeds.len(),
{
    lemma_leading_bounds(s, filter, 0);
    if t is FirstK {
        lemma_nearest_bounds(s, 0, s.len() as int, t->count as int);
    }
}

} // verus!
