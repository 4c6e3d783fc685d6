//! Ordered eigenvalues of a parity block: how they are assembled, and what a stored list has
//! to pass.

use crate::config::{CcmParams, CcmParity, CcmSectorEigenvalueRoute, HighPrecConfig};
use crate::error::CcmError;
use crate::float::HpFloat;
use crate::matrix::{lemma_build_ends, lemma_extend, ordered_square_sum, ordered_sum, sum_of, vals};
use crate::payload::{
    finite_scalar, finite_vector, names_source, parse_hp_scalar, parse_hp_vector, scalars,
    source_matches, HpScalar, ScalarView,
};
use crate::rounding::{hp_pow2, hp_word, HpValue};
use crate::sector::{close, hp_invariant_close};
use crate::text::{number_text, push_number};
use crate::tridiagonal::{
    square_sum, tridiagonal_square_sum, tridiagonal_squares, SectorTridiagonalHp, TridiagonalView,
};
use vstd::prelude::*;
use vstd::string::*;

verus! {

/// Width to which selected eigenvalues are enclosed.
pub open spec fn enclosure_width(p: nat) -> HpValue {
    hp_pow2(
        p,
        -(if p > 32 {
            p - 32
        } else {
            0
        }),
    )
}

/// Width to which selected eigenvalues are enclosed.
pub fn selected_sector_tolerance(precision_bits: u32) -> (r: HpFloat)
    requires
        precision_bits >= 1,
    ensures
        r@ == enclosure_width(precision_bits as nat),
{
    let bits: i64 = if precision_bits > 32 {
        (precision_bits - 32) as i64
    } else {
        0
    };
    HpFloat::power_of_two(precision_bits, -bits)
}

/// Most bisection steps that one selected eigenvalue may take: two for each bit of the precision.
pub fn selected_sector_step_limit(precision_bits: u32) -> (r: usize)
    ensures
        r == if 2 * precision_bits <= usize::MAX {
            2 * precision_bits
        } else {
            usize::MAX as int
        },
{
    let bits: u64 = 2 * precision_bits as u64;
    if bits <= usize::MAX as u64 {
        bits as usize
    } else {
        usize::MAX
    }
}

/// An indexed eigenvalue enclosure with the Sturm counts at its ends.
#[derive(Debug)]
pub struct EigenvalueEnclosure {
    pub index: usize,
    pub lower: HpFloat,
    pub upper: HpFloat,
    pub lower_count: usize,
    pub upper_count: usize,
    pub iterations: usize,
}

/// An indexed enclosure, as mathematics.
pub struct EnclosureView {
    pub index: nat,
    pub lower: HpValue,
    pub upper: HpValue,
    pub lower_count: nat,
    pub upper_count: nat,
    pub iterations: nat,
}

impl View for EigenvalueEnclosure {
    type V = EnclosureView;

    open spec fn view(&self) -> EnclosureView {
        EnclosureView {
            index: self.index as nat,
            lower: self.lower@,
            upper: self.upper@,
            lower_count: self.lower_count as nat,
            upper_count: self.upper_count as nat,
            iterations: self.iterations as nat,
        }
    }
}

pub open spec fn enclosures(s: Seq<EigenvalueEnclosure>) -> Seq<EnclosureView> {
    Seq::new(s.len(), |i: int| s[i]@)
}

/// Ordered eigenvalues of a parity block.
#[derive(Debug)]
pub struct SectorEigenvaluesHp {
    pub route: CcmSectorEigenvalueRoute,
    pub complete: bool,
    pub values: Vec<HpFloat>,
    pub selected_enclosures: Vec<EigenvalueEnclosure>,
}

/// Ordered eigenvalues, as mathematics.
#[verifier::ext_equal]
pub struct EigenvaluesView {
    pub route: CcmSectorEigenvalueRoute,
    pub complete: bool,
    pub values: Seq<HpValue>,
    pub enclosures: Seq<EnclosureView>,
}

impl View for SectorEigenvaluesHp {
    type V = EigenvaluesView;

    open spec fn view(&self) -> EigenvaluesView {
        EigenvaluesView {
            route: self.route,
            complete: self.complete,
            values: vals(self.values@),
            enclosures: enclosures(self.selected_enclosures@),
        }
    }
}

/// The midpoints of enclosures.
pub open spec fn midpoints(s: Seq<EnclosureView>) -> Seq<HpValue> {
    Seq::new(s.len(), |i: int| s[i].lower.plus(s[i].upper).over(hp_word(2)))
}

/// Eigenvalues from the enclosures of an algebraic prefix.
pub fn selected_sector_eigenvalues(selected: Vec<EigenvalueEnclosure>) -> (r: SectorEigenvaluesHp)
    ensures
        r@ == (EigenvaluesView {
            route: CcmSectorEigenvalueRoute::Selected,
            complete: false,
            values: midpoints(enclosures(selected@)),
            enclosures: enclosures(selected@),
        }),
{
    let ghost goal = midpoints(enclosures(selected@));
    let mut values: Vec<HpFloat> = Vec::with_capacity(selected.len());
    let mut i: usize = 0;
    proof {
        lemma_build_ends(goal);
    }
    while i < selected.len()
        invariant
            i <= selected.len(),
            values.len() == i,
            goal == midpoints(enclosures(selected@)),
            vals(values@) == goal.take(i as int),
        decreases selected.len() - i,
    {
        let x: HpFloat = selected[i].lower.plus(&selected[i].upper).over_int(2);
        proof {
            assert(enclosures(selected@)[i as int] == selected@[i as int]@);
            lemma_extend(values@, x, goal);
        }
        values.push(x);
        i = i + 1;
    }
    proof {
        lemma_build_ends(goal);
    }
    SectorEigenvaluesHp {
        route: CcmSectorEigenvalueRoute::Selected,
        complete: false,
        values,
        selected_enclosures: selected,
    }
}

/// Eigenvalues of a complete spectrum.
pub fn complete_sector_eigenvalues(values: Vec<HpFloat>) -> (r: SectorEigenvaluesHp)
    ensures
        r@ == (EigenvaluesView {
            route: CcmSectorEigenvalueRoute::CompleteQr,
            complete: true,
            values: vals(values@),
            enclosures: Seq::<EnclosureView>::empty(),
        }),
{
    let none: Vec<EigenvalueEnclosure> = Vec::new();
    assert(enclosures(none@) =~= Seq::<EnclosureView>::empty());
    SectorEigenvaluesHp {
        route: CcmSectorEigenvalueRoute::CompleteQr,
        complete: true,
        values,
        selected_enclosures: none,
    }
}

/// Whether a value lies outside an enclosure.
pub open spec fn escapes(x: HpValue, lower: HpValue, upper: HpValue) -> bool {
    x.lt(lower) || upper.lt(x)
}

/// Index of the first enclosure, at or after position `from`, that its value escapes.
pub open spec fn first_escape(values: Seq<HpValue>, s: Seq<EnclosureView>, from: int) -> Option<nat>
    decreases s.len() - from,
{
    if from < 0 || from >= s.len() {
        None
    } else if escapes(values[s[from].index as int], s[from].lower, s[from].upper) {
        Some(s[from].index)
    } else {
        first_escape(values, s, from + 1)
    }
}

/// What cross-checking a complete spectrum against enclosures gives.
pub open spec fn cross_checked(values: Seq<HpValue>, s: Seq<EnclosureView>, dimension: int) -> Result<
    EigenvaluesView,
    Seq<char>,
> {
    if values.len() != dimension {
        Err("complete QR sector spectrum has the wrong dimension"@)
    } else if first_escape(values, s, 0) is Some {
        Err(
            "QR eigenvalue "@ + number_text(first_escape(values, s, 0)->0)
                + " escaped its independently selected Sturm enclosure"@,
        )
    } else {
        Ok(
            EigenvaluesView {
                route: CcmSectorEigenvalueRoute::CrossChecked,
                complete: true,
                values,
                enclosures: s,
            },
        )
    }
}

/// Eigenvalues of a complete spectrum that has to agree with independent enclosures.
pub fn cross_checked_sector_eigenvalues(
    values: Vec<HpFloat>,
    selected: Vec<EigenvalueEnclosure>,
    dimension: usize,
) -> (r: Result<SectorEigenvaluesHp, CcmError>)
    requires
        forall|i: int| 0 <= i < selected@.len() ==> (#[trigger] selected@[i]).index < dimension,
    ensures
        match r {
            Ok(v) => cross_checked(vals(values@), enclosures(selected@), dimension as int) == Ok::<
                EigenvaluesView,
                Seq<char>,
            >(v@),
            Err(e) => e is Refused && cross_checked(
                vals(values@),
                enclosures(selected@),
                dimension as int,
            ) == Err::<EigenvaluesView, Seq<char>>(e.text()),
        },
{
    if values.len() != dimension {
        return Err(CcmError::refused("complete QR sector spectrum has the wrong dimension"));
    }
    let ghost v = vals(values@);
    let ghost s = enclosures(selected@);
    let mut i: usize = 0;
    while i < selected.len()
        invariant
            i <= selected.len(),
            values.len() == dimension,
            v == vals(values@),
            s == enclosures(selected@),
            forall|k: int| 0 <= k < selected@.len() ==> (#[trigger] selected@[k]).index < dimension,
            first_escape(v, s, 0) == first_escape(v, s, i as int),
        decreases selected.len() - i,
    {
        assert(s[i as int] == selected@[i as int]@);
        let x: &HpFloat = &values[selected[i].index];
        if x.lt(&selected[i].lower) || selected[i].upper.lt(x) {
            let mut t: String = "QR eigenvalue ".to_owned();
            push_number(&mut t, selected[i].index as u64);
            t.append(" escaped its independently selected Sturm enclosure");
            return Err(CcmError::Refused(t));
        }
        i = i + 1;
    }
    Ok(
        SectorEigenvaluesHp {
            route: CcmSectorEigenvalueRoute::CrossChecked,
            complete: true,
            values,
            selected_enclosures: selected,
        },
    )
}

/// A stored enclosure.
#[derive(Debug)]
pub struct PortableSectorEigenvalueEnclosure {
    pub index: usize,
    pub lower: HpScalar,
    pub upper: HpScalar,
    pub lower_count: usize,
    pub upper_count: usize,
    pub iterations: usize,
}

/// A stored enclosure, as mathematics.
pub struct StoredEnclosure {
    pub index: nat,
    pub lower: ScalarView,
    pub upper: ScalarView,
    pub lower_count: nat,
    pub upper_count: nat,
    pub iterations: nat,
}

impl View for PortableSectorEigenvalueEnclosure {
    type V = StoredEnclosure;

    open spec fn view(&self) -> StoredEnclosure {
        StoredEnclosure {
            index: self.index as nat,
            lower: self.lower@,
            upper: self.upper@,
            lower_count: self.lower_count as nat,
            upper_count: self.upper_count as nat,
            iterations: self.iterations as nat,
        }
    }
}

pub open spec fn stored_enclosures(s: Seq<PortableSectorEigenvalueEnclosure>) -> Seq<StoredEnclosure> {
    Seq::new(s.len(), |i: int| s[i]@)
}

/// Stored eigenvalues of a parity block.
#[derive(Debug)]
pub struct PortableSectorEigenvalues {
    pub schema_version: u32,
    pub lambda_squared: String,
    pub n_modes: usize,
    pub precision_bits: u32,
    pub parity: CcmParity,
    pub dimension: usize,
    pub route: CcmSectorEigenvalueRoute,
    pub complete: bool,
    pub requested_eigenvalues: usize,
    pub eigenvalues: Vec<HpScalar>,
    pub selected_enclosures: Vec<PortableSectorEigenvalueEnclosure>,
}

/// Sturm counts below the two ends of an enclosure, as a replay found them.
#[derive(Debug)]
pub struct SturmReplay {
    pub lower: Result<usize, String>,
    pub upper: Result<usize, String>,
}

/// Replayed counts, as mathematics.
pub struct CountsView {
    pub lower: Result<nat, Seq<char>>,
    pub upper: Result<nat, Seq<char>>,
}

impl View for SturmReplay {
    type V = CountsView;

    open spec fn view(&self) -> CountsView {
        CountsView {
            lower: match self.lower {
                Ok(v) => Ok(v as nat),
                Err(m) => Err(m@),
            },
            upper: match self.upper {
                Ok(v) => Ok(v as nat),
                Err(m) => Err(m@),
            },
        }
    }
}

pub open spec fn replays(s: Seq<SturmReplay>) -> Seq<CountsView> {
    Seq::new(s.len(), |i: int| s[i]@)
}

/// Number of eigenvalues that a route yields.
pub open spec fn value_count(route: CcmSectorEigenvalueRoute, requested: int, dimension: int) -> int {
    if route is Selected {
        requested
    } else {
        dimension
    }
}

/// Number of enclosures that a route yields.
pub open spec fn enclosure_count(route: CcmSectorEigenvalueRoute, requested: int) -> int {
    if route is CompleteQr {
        0
    } else {
        requested
    }
}

/// Whether stored eigenvalues are those that a reader asks for.
pub open spec fn eigenvalues_identity_holds(
    a: PortableSectorEigenvalues,
    params: CcmParams,
    cfg: HighPrecConfig,
    parity: CcmParity,
    dimension: int,
    requested: int,
    route: CcmSectorEigenvalueRoute,
) -> bool {
    &&& a.schema_version == 1
    &&& names_source(a.lambda_squared@, a.n_modes, a.precision_bits, params, cfg)
    &&& a.parity == parity
    &&& a.dimension == dimension
    &&& a.route == route
    &&& a.complete == !(route is Selected)
    &&& a.requested_eigenvalues == requested
    &&& a.eigenvalues@.len() == value_count(route, requested, dimension)
    &&& a.selected_enclosures@.len() == enclosure_count(route, requested)
}

/// First position at or after `from` whose value does not lie below the next.
pub open spec fn first_unseparated(v: Seq<HpValue>, from: int) -> Option<int>
    decreases v.len() - from,
{
    if from < 0 || from >= v.len() - 1 {
        None
    } else if v[from + 1].le(v[from]) {
        Some(from)
    } else {
        first_unseparated(v, from + 1)
    }
}

/// The counts of two neighbouring enclosures, where both are there.
pub open spec fn neighbour_counts_text(s: Seq<StoredEnclosure>, i: int) -> Seq<char> {
    if i + 1 < s.len() {
        "; adjacent Sturm endpoint counts are ["@ + number_text(s[i].lower_count) + ", "@
            + number_text(s[i].upper_count) + "] and ["@ + number_text(s[i + 1].lower_count)
            + ", "@ + number_text(s[i + 1].upper_count) + "]"@
    } else {
        Seq::<char>::empty()
    }
}

/// The words for eigenvalues that the precision cannot tell apart.
pub open spec fn resolution_limit_text(s: Seq<StoredEnclosure>, i: int, p: nat) -> Seq<char> {
    "CCM sector resolution limit: algebraic indices "@ + number_text(i as nat) + " and "@
        + number_text((i + 1) as nat) + " are not strictly separated at "@ + number_text(p)
        + " working bits"@ + neighbour_counts_text(s, i)
        + "; retain the sector matrix and rerun sector analysis at higher precision"@
}

/// The enclosure that a stored one holds for a position, or the words of its rejection.
pub open spec fn enclosure_reading(
    s: StoredEnclosure,
    position: int,
    value: HpValue,
    counts: CountsView,
) -> Result<EnclosureView, Seq<char>> {
    let lower = finite_scalar(s.lower);
    let upper = finite_scalar(s.upper);
    if lower is Err {
        Err(lower->Err_0)
    } else if upper is Err {
        Err(upper->Err_0)
    } else if s.index != position || upper->Ok_0.le(lower->Ok_0) || s.lower_count > position
        || s.upper_count <= position || s.iterations == 0 {
        Err("CCM selected eigenvalue enclosure is invalid"@)
    } else if escapes(value, lower->Ok_0, upper->Ok_0) {
        Err("CCM selected eigenvalue escaped its indexed enclosure"@)
    } else if counts.lower is Err {
        Err(counts.lower->Err_0)
    } else if counts.upper is Err {
        Err(counts.upper->Err_0)
    } else if counts.lower->Ok_0 != s.lower_count || counts.upper->Ok_0 != s.upper_count {
        Err("CCM selected eigenvalue enclosure failed Sturm-count replay"@)
    } else {
        Ok(
            EnclosureView {
                index: s.index,
                lower: lower->Ok_0,
                upper: upper->Ok_0,
                lower_count: s.lower_count,
                upper_count: s.upper_count,
                iterations: s.iterations,
            },
        )
    }
}

/// The first `n` enclosures, or the words of the first rejection.
pub open spec fn enclosures_reading(
    s: Seq<StoredEnclosure>,
    values: Seq<HpValue>,
    counts: Seq<CountsView>,
    n: nat,
) -> Result<Seq<EnclosureView>, Seq<char>>
    decreases n,
{
    if n == 0 {
        Ok(Seq::<EnclosureView>::empty())
    } else {
        match enclosures_reading(s, values, counts, (n - 1) as nat) {
            Err(m) => Err(m),
            Ok(v) => match enclosure_reading(s[n - 1], n - 1, values[n - 1], counts[n - 1]) {
                Err(m) => Err(m),
                Ok(x) => Ok(v.push(x)),
            },
        }
    }
}

/// Whether a complete spectrum keeps the trace and the square sum of its matrix.
pub open spec fn spectrum_keeps_invariants(v: Seq<HpValue>, t: TridiagonalView, p: nat) -> bool {
    close(sum_of(v, p), sum_of(t.diagonal, p), p) && close(
        square_sum(v, p),
        tridiagonal_square_sum(t, p),
        p,
    )
}

/// What reading stored eigenvalues gives.
pub open spec fn eigenvalues_reading(
    a: PortableSectorEigenvalues,
    params: CcmParams,
    cfg: HighPrecConfig,
    parity: CcmParity,
    dimension: int,
    requested: int,
    route: CcmSectorEigenvalueRoute,
    t: TridiagonalView,
    counts: Seq<CountsView>,
) -> Result<EigenvaluesView, Seq<char>> {
    let stored = stored_enclosures(a.selected_enclosures@);
    if !eigenvalues_identity_holds(a, params, cfg, parity, dimension, requested, route) {
        Err("CCM sector eigenvalues do not match their semantic identity"@)
    } else {
        match finite_vector(scalars(a.eigenvalues@), a.eigenvalues@.len()) {
            Err(m) => Err(m),
            Ok(values) => match first_unseparated(values, 0) {
                Some(i) => Err(resolution_limit_text(stored, i, cfg.precision_bits as nat)),
                None => match enclosures_reading(stored, values, counts, stored.len()) {
                    Err(m) => Err(m),
                    Ok(found) => if a.complete && !spectrum_keeps_invariants(
                        values,
                        t,
                        cfg.precision_bits as nat,
                    ) {
                        Err("complete CCM sector eigenvalues failed trace or Frobenius replay"@)
                    } else {
                        Ok(
                            EigenvaluesView {
                                route,
                                complete: a.complete,
                                values,
                                enclosures: found,
                            },
                        )
                    },
                },
            },
        }
    }
}

fn eigenvalues_identity_matches(
    a: &PortableSectorEigenvalues,
    params: &CcmParams,
    cfg: &HighPrecConfig,
    parity: CcmParity,
    dimension: usize,
    requested: usize,
    route: CcmSectorEigenvalueRoute,
) -> (r: bool)
    ensures
        r == eigenvalues_identity_holds(
            *a,
            *params,
            *cfg,
            parity,
            dimension as int,
            requested as int,
            route,
        ),
{
    let expected_values: usize = match route {
        CcmSectorEigenvalueRoute::Selected => requested,
        _ => dimension,
    };
    let expected_enclosures: usize = match route {
        CcmSectorEigenvalueRoute::CompleteQr => 0,
        _ => requested,
    };
    a.schema_version == 1 && source_matches(
        &a.lambda_squared,
        a.n_modes,
        a.precision_bits,
        params,
        cfg,
    ) && a.parity == parity && a.dimension == dimension && a.route == route && a.complete == (route
        != CcmSectorEigenvalueRoute::Selected) && a.requested_eigenvalues == requested
        && a.eigenvalues.len() == expected_values && a.selected_enclosures.len()
        == expected_enclosures
}

/// The first position whose value does not lie below the next.
pub fn find_unseparated(values: &Vec<HpFloat>) -> (r: Option<usize>)
    ensures
        match r {
            None => first_unseparated(vals(values@), 0) is None,
            Some(i) => first_unseparated(vals(values@), 0) == Some(i as int) && i + 1
                < values.len(),
        },
{
    let ghost v = vals(values@);
    if values.len() == 0 {
        return None;
    }
    let mut i: usize = 0;
    while i < values.len() - 1
        invariant
            i <= values.len() - 1,
            values.len() > 0,
            v == vals(values@),
            first_unseparated(v, 0) == first_unseparated(v, i as int),
        decreases values.len() - i,
    {
        if values[i + 1].le(&values[i]) {
            return Some(i);
        }
        i = i + 1;
    }
    None
}

fn resolution_limit(s: &Vec<PortableSectorEigenvalueEnclosure>, i: usize, p: u32) -> (r: CcmError)
    requires
        i < usize::MAX,
    ensures
        r.rejects(resolution_limit_text(stored_enclosures(s@), i as int, p as nat)),
{
    let ghost v = stored_enclosures(s@);
    let mut t: String = "CCM sector resolution limit: algebraic indices ".to_owned();
    push_number(&mut t, i as u64);
    t.append(" and ");
    push_number(&mut t, (i + 1) as u64);
    t.append(" are not strictly separated at ");
    push_number(&mut t, p as u64);
    t.append(" working bits");
    let ghost before = t@;
    if i + 1 < s.len() {
        assert(v[i as int] == s@[i as int]@);
        assert(v[i + 1] == s@[i + 1]@);
        t.append("; adjacent Sturm endpoint counts are [");
        push_number(&mut t, s[i].lower_count as u64);
        t.append(", ");
        push_number(&mut t, s[i].upper_count as u64);
        t.append("] and [");
        push_number(&mut t, s[i + 1].lower_count as u64);
        t.append(", ");
        push_number(&mut t, s[i + 1].upper_count as u64);
        t.append("]");
    }
    assert(t@ =~= before + neighbour_counts_text(v, i as int));
    t.append("; retain the sector matrix and rerun sector analysis at higher precision");
    CcmError::InvalidManifest(t)
}

fn decode_enclosure(
    s: &PortableSectorEigenvalueEnclosure,
    position: usize,
    value: &HpFloat,
    counts: &SturmReplay,
) -> (r: Result<EigenvalueEnclosure, CcmError>)
    ensures
        match r {
            Ok(v) => enclosure_reading(s@, position as int, value@, counts@) == Ok::<
                EnclosureView,
                Seq<char>,
            >(v@),
            Err(e) => e is InvalidManifest && enclosure_reading(
                s@,
                position as int,
                value@,
                counts@,
            ) == Err::<EnclosureView, Seq<char>>(e.text()),
        },
{
    let lower: HpFloat = match parse_hp_scalar(&s.lower) {
        Ok(v) => v,
        Err(e) => {
            return Err(e);
        },
    };
    let upper: HpFloat = match parse_hp_scalar(&s.upper) {
        Ok(v) => v,
        Err(e) => {
            return Err(e);
        },
    };
    if s.index != position || upper.le(&lower) || s.lower_count > position || s.upper_count
        <= position || s.iterations == 0 {
        return Err(CcmError::invalid("CCM selected eigenvalue enclosure is invalid"));
    }
    if value.lt(&lower) || upper.lt(value) {
        return Err(CcmError::invalid("CCM selected eigenvalue escaped its indexed enclosure"));
    }
    let below: usize = match &counts.lower {
        Ok(v) => *v,
        Err(m) => {
            return Err(CcmError::InvalidManifest(m.clone()));
        },
    };
    let above: usize = match &counts.upper {
        Ok(v) => *v,
        Err(m) => {
            return Err(CcmError::InvalidManifest(m.clone()));
        },
    };
    if below != s.lower_count || above != s.upper_count {
        return Err(
            CcmError::invalid("CCM selected eigenvalue enclosure failed Sturm-count replay"),
        );
    }
    Ok(
        EigenvalueEnclosure {
            index: s.index,
            lower,
            upper,
            lower_count: s.lower_count,
            upper_count: s.upper_count,
            iterations: s.iterations,
        },
    )
}

proof fn lemma_enclosures_rejected(
    s: Seq<StoredEnclosure>,
    values: Seq<HpValue>,
    counts: Seq<CountsView>,
    n: nat,
    total: nat,
)
    requires
        n <= total,
        enclosures_reading(s, values, counts, n) is Err,
    ensures
        enclosures_reading(s, values, counts, total) == enclosures_reading(s, values, counts, n),
    decreases total,
{
    if n < total {
        lemma_enclosures_rejected(s, values, counts, n, (total - 1) as nat);
    }
}

fn decode_enclosures(
    s: &Vec<PortableSectorEigenvalueEnclosure>,
    values: &Vec<HpFloat>,
    counts: &Vec<SturmReplay>,
) -> (r: Result<Vec<EigenvalueEnclosure>, CcmError>)
    requires
        s.len() <= values.len(),
        s.len() == counts.len(),
    ensures
        ({
            let goal = enclosures_reading(
                stored_enclosures(s@),
                vals(values@),
                replays(counts@),
                s@.len(),
            );
            match r {
                Ok(v) => goal == Ok::<Seq<EnclosureView>, Seq<char>>(enclosures(v@)),
                Err(e) => e is InvalidManifest && goal == Err::<Seq<EnclosureView>, Seq<char>>(
                    e.text(),
                ),
            }
        }),
{
    let ghost a = stored_enclosures(s@);
    let ghost b = vals(values@);
    let ghost c = replays(counts@);
    let mut out: Vec<EigenvalueEnclosure> = Vec::with_capacity(s.len());
    let mut i: usize = 0;
    assert(enclosures(out@) =~= Seq::<EnclosureView>::empty());
    while i < s.len()
        invariant
            i <= s.len(),
            s.len() <= values.len(),
            s.len() == counts.len(),
            a == stored_enclosures(s@),
            b == vals(values@),
            c == replays(counts@),
            enclosures_reading(a, b, c, i as nat) == Ok::<Seq<EnclosureView>, Seq<char>>(
                enclosures(out@),
            ),
        decreases s.len() - i,
    {
        assert(a[i as int] == s@[i as int]@);
        assert(c[i as int] == counts@[i as int]@);
        match decode_enclosure(&s[i], i, &values[i], &counts[i]) {
            Err(e) => {
                proof {
                    lemma_enclosures_rejected(a, b, c, (i + 1) as nat, s@.len());
                }
                return Err(e);
            },
            Ok(x) => {
                let ghost before = out@;
                out.push(x);
                assert(enclosures(out@) =~= enclosures(before).push(x@));
            },
        }
        i = i + 1;
    }
    Ok(out)
}

fn spectrum_invariants_match(values: &Vec<HpFloat>, t: &SectorTridiagonalHp, p: u32) -> (r: bool)
    requires
        p >= 1,
    ensures
        r == spectrum_keeps_invariants(vals(values@), t@, p as nat),
{
    let values_sum: HpFloat = ordered_sum(values, p);
    let values_squares: HpFloat = ordered_square_sum(HpFloat::zero(p), values);
    let matrix_sum: HpFloat = ordered_sum(&t.diagonal, p);
    let matrix_squares: HpFloat = tridiagonal_squares(t, p);
    hp_invariant_close(&values_sum, &matrix_sum, p) && hp_invariant_close(
        &values_squares,
        &matrix_squares,
        p,
    )
}

/// Reads stored eigenvalues: the identity has to match, the values have to be finite and rise,
/// every enclosure has to hold its value and replay its counts, and a complete spectrum has to
/// keep the trace and the square sum.
///
/// `counts` holds the Sturm counts that a replay found at the ends of each enclosure.
pub fn decode_sector_eigenvalues(
    artifact: &PortableSectorEigenvalues,
    params: &CcmParams,
    cfg: &HighPrecConfig,
    parity: CcmParity,
    dimension: usize,
    requested_eigenvalues: usize,
    route: CcmSectorEigenvalueRoute,
    tridiagonal: &SectorTridiagonalHp,
    counts: &Vec<SturmReplay>,
) -> (r: Result<SectorEigenvaluesHp, CcmError>)
    requires
        cfg.precision_bits >= 1,
        requested_eigenvalues <= dimension,
        counts.len() == artifact.selected_enclosures.len(),
    ensures
        ({
            let goal = eigenvalues_reading(
                *artifact,
                *params,
                *cfg,
                parity,
                dimension as int,
                requested_eigenvalues as int,
                route,
                tridiagonal@,
                replays(counts@),
            );
            match r {
                Ok(v) => goal == Ok::<EigenvaluesView, Seq<char>>(v@),
                Err(e) => e is InvalidManifest && goal == Err::<EigenvaluesView, Seq<char>>(
                    e.text(),
                ),
            }
        }),
{
    if !eigenvalues_identity_matches(
        artifact,
        params,
        cfg,
        parity,
        dimension,
        requested_eigenvalues,
        route,
    ) {
        return Err(
            CcmError::invalid("CCM sector eigenvalues do not match their semantic identity"),
        );
    }
    let values: Vec<HpFloat> = match parse_hp_vector(&artifact.eigenvalues) {
        Ok(v) => v,
        Err(e) => {
            return Err(e);
        },
    };
    match find_unseparated(&values) {
        Some(i) => {
            return Err(resolution_limit(&artifact.selected_enclosures, i, cfg.precision_bits));
        },
        None => {},
    }
    let selected_enclosures: Vec<EigenvalueEnclosure> = match decode_enclosures(
        &artifact.selected_enclosures,
        &values,
        counts,
    ) {
        Ok(v) => v,
        Err(e) => {
            return Err(e);
        },
    };
    if artifact.complete && !spectrum_invariants_match(&values, tridiagonal, cfg.precision_bits) {
        return Err(
            CcmError::invalid("complete CCM sector eigenvalues failed trace or Frobenius replay"),
        );
    }
    Ok(SectorEigenvaluesHp { route, complete: artifact.complete, values, selected_enclosures })
}

/// Accepted eigenvalues rise: none reaches the next.
pub proof fn law_accepted_eigenvalues_rise(v: Seq<HpValue>, from: int)
    requires
        0 <= from,
        first_unseparated(v, from) is None,
    ensures
        forall|i: int| from <= i < v.len() - 1 ==> !(#[trigger] v[i + 1]).le(v[i]),
    decreases v.len() - from,
{
    if from < v.len() - 1 {
        law_accepted_eigenvalues_rise(v, from + 1);
    }
}

/// Every accepted enclosure stands at its own index and holds its value, with a count of at
/// most its index below it and a larger one at its upper end.
pub proof fn law_accepted_enclosures_isolate(
    s: Seq<StoredEnclosure>,
    values: Seq<HpValue>,
    counts: Seq<CountsView>,
    n: nat,
)
    ensures
        enclosures_reading(s, values, counts, n) matches Ok(v) ==> v.len() == n && forall|i: int|
            0 <= i < n ==> {
                &&& (#[trigger] v[i]).index == i
                &&& !escapes(values[i], v[i].lower, v[i].upper)
                &&& v[i].lower_count <= i < v[i].upper_count
            },
    decreases n,
{
    if n > 0 {
        law_accepted_enclosures_isolate(s, values, counts, (n - 1) as nat);
    }
}

} // verus!
