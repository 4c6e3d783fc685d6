//! The course of a run: which step follows which, when an eigenpair is accepted, and how the
//! roots of a window answer the request.

use crate::assembly::{normalize_eigenvector, normalized};
use crate::config::{
    CcmEigenstateSolver, CcmParityPolicy, HighPrecConfig, IndependentRootDomain,
    RootArtifactFormat, RootWindowSemantics,
};
use crate::eigenpair::{PairReading, WeilEigenpair};
use crate::eigvec_cache::{
    relative_residual, relative_residual_norm, residual_holds, residual_ok, CachedXi,
};
use crate::error::CcmError;
use crate::float::HpFloat;
use crate::matrix::{lemma_build_ends, lemma_extend, vals};
use crate::outcome::{
    outcomes, DiagnosticsView, EigenvalueResult, InverseIterationDiagnostics, OutcomeView,
};
use crate::roots::value_at;
use crate::rounding::HpValue;
use crate::text::{number_text, push_number};
use crate::window::{IndependentRootDiscoveryPlan, PlanView};
use vstd::prelude::*;
use vstd::string::*;

verus! {

/// Where a run looks for results and leaves them.
#[derive(Clone, Copy, Debug, PartialEq, Eq, Structural)]
pub enum CacheRoute {
    /// The files of one directory.
    Standalone,
    /// The layers of a managed store.
    Fabric,
}

/// Where a run takes its starting points from.
#[derive(Clone, Copy, Debug, PartialEq, Eq, Structural)]
pub enum Acquisition {
    /// No roots are asked for.
    SourceOnly,
    /// The secular source itself.
    Independent,
    /// Reference seeds, this many.
    ReferenceSeeded { count: usize },
}

/// What decides the course of a run before it starts.
#[derive(Clone, Copy, Debug, PartialEq, Eq, Structural)]
pub struct RunPlan {
    pub route: CacheRoute,
    pub solver: CcmEigenstateSolver,
    pub policy: CcmParityPolicy,
    pub warm_start: bool,
    pub acquisition: Acquisition,
}

/// A step of a run.
#[derive(Clone, Copy, Debug, PartialEq, Eq, Structural)]
pub enum RunStep {
    /// Compute or reuse the form, then make it exactly symmetric.
    BuildForm,
    /// Look for a stored eigenpair among the files.
    LoadPair,
    /// Look for a stored vector of nearby precision.
    SeekWarmStart,
    /// Iterate on the even block and expand the vector.
    SolveEvenSector,
    /// Iterate on the whole form.
    SolveFull { project: bool, warm: bool },
    /// Normalize the vector, measure its residual and store the pair.
    SavePair,
    /// Find or compute the eigenpair through the store.
    ResolvePair,
    /// Hold the eigenpair to the residual that the precision allows.
    CheckPair,
    /// Discover starting points from the secular source.
    DiscoverStarts,
    /// Find or record the secular source through the store.
    ResolveSecularSource,
    /// Find or compute the root window through the store.
    ResolveWindow,
    /// Compute the root window.
    ComputeWindow,
    /// Record the evidence of the run.
    RecordEvidence,
    /// The run is complete.
    Finish,
    /// The eigenpair was refused.
    Refuse,
}

/// What a step found.
#[derive(Clone, Copy, Debug, PartialEq, Eq, Structural)]
pub enum RunEvent {
    Done,
    /// Whether a stored eigenpair was found and accepted.
    PairAccepted(bool),
    /// Whether a stored vector of nearby precision was found.
    WarmStartFound(bool),
    /// Whether the eigenpair holds.
    PairHolds(bool),
    /// How many starting points were discovered.
    StartsFound(usize),
    /// Whether the window is a part of a larger stored one.
    WindowResolved { projected: bool },
}

/// How far a run has come.
#[derive(Clone, Copy, Debug, PartialEq, Eq, Structural)]
pub struct RunState {
    pub step: RunStep,
    /// Starting points known so far.
    pub starts: usize,
}

/// The refusal of a plan; `None` where the run may start.
pub open spec fn plan_refusal(plan: RunPlan) -> Option<Seq<char>> {
    if plan.solver is ShiftInvertKrylov && plan.route is Standalone {
        Some(
            "CCM shift-invert Krylov requires a managed cache context so its retained LU dependency and route-specific artifact identity are explicit"@,
        )
    } else {
        None
    }
}

/// Starting points that a plan knows of.
pub open spec fn known_starts(acquisition: Acquisition) -> usize {
    match acquisition {
        Acquisition::ReferenceSeeded { count } => count,
        _ => 0,
    }
}

/// The first state of a run.
pub open spec fn run_start(plan: RunPlan) -> RunState {
    RunState { step: RunStep::BuildForm, starts: known_starts(plan.acquisition) }
}

/// Starts a run, or refuses its plan.
pub fn start_run(plan: &RunPlan) -> (r: Result<RunState, CcmError>)
    ensures
        match r {
            Ok(s) => plan_refusal(*plan) is None && s == run_start(*plan),
            Err(e) => e is Refused && plan_refusal(*plan) == Some(e.text()),
        },
{
    if plan.solver == CcmEigenstateSolver::ShiftInvertKrylov && plan.route
        == CacheRoute::Standalone {
        return Err(
            CcmError::refused(
                "CCM shift-invert Krylov requires a managed cache context so its retained LU dependency and route-specific artifact identity are explicit",
            ),
        );
    }
    let starts: usize = match plan.acquisition {
        Acquisition::ReferenceSeeded { count } => count,
        _ => 0,
    };
    Ok(RunState { step: RunStep::BuildForm, starts })
}

/// The solve of a run without a stored eigenpair.
pub open spec fn solve_step(plan: RunPlan, warm: bool) -> RunStep {
    if plan.policy is EvenSector {
        RunStep::SolveEvenSector
    } else {
        RunStep::SolveFull { project: plan.policy is AdaptiveEven, warm }
    }
}

/// The step after the starting points are known.
pub open spec fn window_step(plan: RunPlan, starts: usize) -> RunStep {
    if starts == 0 {
        RunStep::Finish
    } else if plan.route is Fabric {
        RunStep::ResolveWindow
    } else {
        RunStep::ComputeWindow
    }
}

/// The step that the eigenpair's acceptance leads to.
pub open spec fn source_step(plan: RunPlan, starts: usize) -> RunStep {
    if plan.route is Fabric {
        RunStep::ResolveSecularSource
    } else {
        window_step(plan, starts)
    }
}

/// The step after a step, given what it found.
pub open spec fn step_after(plan: RunPlan, state: RunState, event: RunEvent) -> RunState {
    let to = |step: RunStep| RunState { step, starts: state.starts };
    match state.step {
        RunStep::BuildForm => to(
            if plan.route is Fabric {
                RunStep::ResolvePair
            } else {
                RunStep::LoadPair
            },
        ),
        RunStep::LoadPair => to(
            if event == RunEvent::PairAccepted(true) {
                RunStep::CheckPair
            } else if plan.warm_start && !(plan.policy is EvenSector) {
                RunStep::SeekWarmStart
            } else {
                solve_step(plan, false)
            },
        ),
        RunStep::SeekWarmStart => to(solve_step(plan, event == RunEvent::WarmStartFound(true))),
        RunStep::SolveEvenSector => to(RunStep::SavePair),
        RunStep::SolveFull { .. } => to(RunStep::SavePair),
        RunStep::SavePair => to(RunStep::CheckPair),
        RunStep::ResolvePair => to(RunStep::CheckPair),
        RunStep::CheckPair => to(
            if event != RunEvent::PairHolds(true) {
                RunStep::Refuse
            } else if plan.acquisition is Independent {
                RunStep::DiscoverStarts
            } else {
                source_step(plan, state.starts)
            },
        ),
        RunStep::DiscoverStarts => {
            let found = match event {
                RunEvent::StartsFound(n) => n,
                _ => 0,
            };
            RunState { step: source_step(plan, found), starts: found }
        },
        RunStep::ResolveSecularSource => to(window_step(plan, state.starts)),
        RunStep::ResolveWindow => to(
            if event == (RunEvent::WindowResolved { projected: true }) {
                RunStep::Finish
            } else {
                RunStep::RecordEvidence
            },
        ),
        RunStep::ComputeWindow => to(RunStep::Finish),
        RunStep::RecordEvidence => to(RunStep::Finish),
        RunStep::Finish => state,
        RunStep::Refuse => state,
    }
}

fn window_step_of(plan: &RunPlan, starts: usize) -> (r: RunStep)
    ensures
        r == window_step(*plan, starts),
{
    if starts == 0 {
        RunStep::Finish
    } else {
        match plan.route {
            CacheRoute::Fabric => RunStep::ResolveWindow,
            CacheRoute::Standalone => RunStep::ComputeWindow,
        }
    }
}

fn source_step_of(plan: &RunPlan, starts: usize) -> (r: RunStep)
    ensures
        r == source_step(*plan, starts),
{
    match plan.route {
        CacheRoute::Fabric => RunStep::ResolveSecularSource,
        CacheRoute::Standalone => window_step_of(plan, starts),
    }
}

fn solve_step_of(plan: &RunPlan, warm: bool) -> (r: RunStep)
    ensures
        r == solve_step(*plan, warm),
{
    match plan.policy {
        CcmParityPolicy::EvenSector => RunStep::SolveEvenSector,
        CcmParityPolicy::AdaptiveEven => RunStep::SolveFull { project: true, warm },
        CcmParityPolicy::Natural => RunStep::SolveFull { project: false, warm },
    }
}

/// The step after a step, given what it found.
pub fn next_step(plan: &RunPlan, state: &RunState, event: RunEvent) -> (r: RunState)
    ensures
        r == step_after(*plan, *state, event),
{
    let starts: usize = state.starts;
    match state.step {
        RunStep::BuildForm => RunState {
            step: match plan.route {
                CacheRoute::Fabric => RunStep::ResolvePair,
                CacheRoute::Standalone => RunStep::LoadPair,
            },
            starts,
        },
        RunStep::LoadPair => RunState {
            step: if event == RunEvent::PairAccepted(true) {
                RunStep::CheckPair
            } else if plan.warm_start && plan.policy != CcmParityPolicy::EvenSector {
                RunStep::SeekWarmStart
            } else {
                solve_step_of(plan, false)
            },
            starts,
        },
        RunStep::SeekWarmStart => RunState {
            step: solve_step_of(plan, event == RunEvent::WarmStartFound(true)),
            starts,
        },
        RunStep::SolveEvenSector => RunState { step: RunStep::SavePair, starts },
        RunStep::SolveFull { .. } => RunState { step: RunStep::SavePair, starts },
        RunStep::SavePair => RunState { step: RunStep::CheckPair, starts },
        RunStep::ResolvePair => RunState { step: RunStep::CheckPair, starts },
        RunStep::CheckPair => RunState {
            step: if event != RunEvent::PairHolds(true) {
                RunStep::Refuse
            } else if plan.acquisition == Acquisition::Independent {
                RunStep::DiscoverStarts
            } else {
                source_step_of(plan, starts)
            },
            starts,
        },
        RunStep::DiscoverStarts => {
            let found: usize = match event {
                RunEvent::StartsFound(n) => n,
                _ => 0,
            };
            RunState { step: source_step_of(plan, found), starts: found }
        },
        RunStep::ResolveSecularSource => RunState { step: window_step_of(plan, starts), starts },
        RunStep::ResolveWindow => RunState {
            step: if event == (RunEvent::WindowResolved { projected: true }) {
                RunStep::Finish
            } else {
                RunStep::RecordEvidence
            },
            starts,
        },
        RunStep::ComputeWindow => RunState { step: RunStep::Finish, starts },
        RunStep::RecordEvidence => RunState { step: RunStep::Finish, starts },
        RunStep::Finish => *state,
        RunStep::Refuse => *state,
    }
}

/// What the steps of a run will find.
pub struct RunAnswers {
    pub pair_accepted: bool,
    pub warm_start_found: bool,
    pub pair_holds: bool,
    pub starts_found: usize,
    pub projected: bool,
}

/// What a step finds, given all answers.
pub open spec fn found_by(step: RunStep, answers: RunAnswers) -> RunEvent {
    match step {
        RunStep::LoadPair => RunEvent::PairAccepted(answers.pair_accepted),
        RunStep::SeekWarmStart => RunEvent::WarmStartFound(answers.warm_start_found),
        RunStep::CheckPair => RunEvent::PairHolds(answers.pair_holds),
        RunStep::DiscoverStarts => RunEvent::StartsFound(answers.starts_found),
        RunStep::ResolveWindow => RunEvent::WindowResolved { projected: answers.projected },
        _ => RunEvent::Done,
    }
}

/// Steps that a run can still take.
pub open spec fn steps_left(step: RunStep) -> nat {
    match step {
        RunStep::BuildForm => 10,
        RunStep::LoadPair => 9,
        RunStep::SeekWarmStart => 8,
        RunStep::SolveEvenSector => 7,
        RunStep::SolveFull { .. } => 7,
        RunStep::SavePair => 6,
        RunStep::ResolvePair => 6,
        RunStep::CheckPair => 5,
        RunStep::DiscoverStarts => 4,
        RunStep::ResolveSecularSource => 3,
        RunStep::ResolveWindow => 2,
        RunStep::ComputeWindow => 2,
        RunStep::RecordEvidence => 1,
        RunStep::Finish => 0,
        RunStep::Refuse => 0,
    }
}

/// The steps that a run takes from a state on, with its last state included.
pub open spec fn course(plan: RunPlan, answers: RunAnswers, state: RunState) -> Seq<RunStep>
    decreases steps_left(state.step),
{
    if state.step is Finish || state.step is Refuse {
        seq![state.step]
    } else {
        seq![state.step] + course(
            plan,
            answers,
            step_after(plan, state, found_by(state.step, answers)),
        )
    }
}

/// The starting points of a run.
pub open spec fn run_starts(plan: RunPlan, answers: RunAnswers) -> usize {
    if plan.acquisition is Independent {
        answers.starts_found
    } else {
        known_starts(plan.acquisition)
    }
}

/// The steps up to the check of the eigenpair.
pub open spec fn eigenpair_steps(plan: RunPlan, answers: RunAnswers) -> Seq<RunStep> {
    if plan.route is Fabric {
        seq![RunStep::BuildForm, RunStep::ResolvePair, RunStep::CheckPair]
    } else if answers.pair_accepted {
        seq![RunStep::BuildForm, RunStep::LoadPair, RunStep::CheckPair]
    } else if plan.warm_start && !(plan.policy is EvenSector) {
        seq![
            RunStep::BuildForm,
            RunStep::LoadPair,
            RunStep::SeekWarmStart,
            solve_step(plan, answers.warm_start_found),
            RunStep::SavePair,
            RunStep::CheckPair,
        ]
    } else {
        seq![
            RunStep::BuildForm,
            RunStep::LoadPair,
            solve_step(plan, false),
            RunStep::SavePair,
            RunStep::CheckPair,
        ]
    }
}

/// The steps that discover starting points.
pub open spec fn discovery_steps(plan: RunPlan) -> Seq<RunStep> {
    if plan.acquisition is Independent {
        seq![RunStep::DiscoverStarts]
    } else {
        seq![]
    }
}

/// The steps from the starting points to the end.
pub open spec fn window_steps(plan: RunPlan, starts: usize, projected: bool) -> Seq<RunStep> {
    if plan.route is Fabric {
        if starts == 0 {
            seq![RunStep::ResolveSecularSource, RunStep::Finish]
        } else if projected {
            seq![RunStep::ResolveSecularSource, RunStep::ResolveWindow, RunStep::Finish]
        } else {
            seq![
                RunStep::ResolveSecularSource,
                RunStep::ResolveWindow,
                RunStep::RecordEvidence,
                RunStep::Finish,
            ]
        }
    } else if starts == 0 {
        seq![RunStep::Finish]
    } else {
        seq![RunStep::ComputeWindow, RunStep::Finish]
    }
}

proof fn lemma_course_from_source(plan: RunPlan, answers: RunAnswers, state: RunState)
    requires
        state.step == source_step(plan, state.starts),
    ensures
        course(plan, answers, state) == window_steps(plan, state.starts, answers.projected),
{
    reveal_with_fuel(course, 5);
    assert(course(plan, answers, state) =~= window_steps(plan, state.starts, answers.projected));
}

proof fn lemma_course_from_check(plan: RunPlan, answers: RunAnswers, state: RunState)
    requires
        state.step is CheckPair,
        state.starts == known_starts(plan.acquisition),
    ensures
        course(plan, answers, state) == if answers.pair_holds {
            seq![RunStep::CheckPair] + discovery_steps(plan) + window_steps(
                plan,
                run_starts(plan, answers),
                answers.projected,
            )
        } else {
            seq![RunStep::CheckPair, RunStep::Refuse]
        },
{
    reveal_with_fuel(course, 3);
    let next = step_after(plan, state, found_by(state.step, answers));
    if answers.pair_holds {
        if plan.acquisition is Independent {
            let after = step_after(plan, next, found_by(next.step, answers));
            lemma_course_from_source(plan, answers, after);
        } else {
            lemma_course_from_source(plan, answers, next);
        }
    }
    assert(course(plan, answers, state) =~= if answers.pair_holds {
        seq![RunStep::CheckPair] + discovery_steps(plan) + window_steps(
            plan,
            run_starts(plan, answers),
            answers.projected,
        )
    } else {
        seq![RunStep::CheckPair, RunStep::Refuse]
    });
}

/// A run takes exactly these steps: those of its eigenpair; then, where the eigenpair holds,
/// discovery where roots are discovered, the secular source where there is a store, and a window
/// where there are starting points, with evidence where the window is the run's own. Where the
/// eigenpair does not hold, nothing follows.
pub proof fn law_course_of_a_run(plan: RunPlan, answers: RunAnswers)
    ensures
        course(plan, answers, run_start(plan)) == eigenpair_steps(plan, answers) + (
        if answers.pair_holds {
            discovery_steps(plan) + window_steps(
                plan,
                run_starts(plan, answers),
                answers.projected,
            )
        } else {
            seq![RunStep::Refuse]
        }),
{
    reveal_with_fuel(course, 6);
    let start = run_start(plan);
    let check = RunState { step: RunStep::CheckPair, starts: start.starts };
    lemma_course_from_check(plan, answers, check);
    let tail = course(plan, answers, check);
    assert(tail =~= seq![RunStep::CheckPair] + (if answers.pair_holds {
        discovery_steps(plan) + window_steps(plan, run_starts(plan, answers), answers.projected)
    } else {
        seq![RunStep::Refuse]
    }));
    let s1 = step_after(plan, start, found_by(start.step, answers));
    let s2 = step_after(plan, s1, found_by(s1.step, answers));
    let s3 = step_after(plan, s2, found_by(s2.step, answers));
    let s4 = step_after(plan, s3, found_by(s3.step, answers));
    let s5 = step_after(plan, s4, found_by(s4.step, answers));
    if plan.route is Fabric {
        assert(s2 == check);
        assert(course(plan, answers, start) =~= seq![start.step, s1.step] + tail);
    } else if answers.pair_accepted {
        assert(s2 == check);
        assert(course(plan, answers, start) =~= seq![start.step, s1.step] + tail);
    } else if plan.warm_start && !(plan.policy is EvenSector) {
        assert(s5 == check);
        assert(course(plan, answers, start) =~= seq![
            start.step,
            s1.step,
            s2.step,
            s3.step,
            s4.step,
        ] + tail);
    } else {
        assert(s4 == check);
        assert(course(plan, answers, start) =~= seq![start.step, s1.step, s2.step, s3.step] + tail);
    }
    assert(course(plan, answers, start) =~= eigenpair_steps(plan, answers) + (
    if answers.pair_holds {
        discovery_steps(plan) + window_steps(plan, run_starts(plan, answers), answers.projected)
    } else {
        seq![RunStep::Refuse]
    }));
}

/// Whether a stored eigenpair is taken as it is: its evidence is of the configured limit, its
/// residual replays, and it holds.
pub open spec fn stored_pair_holds(
    tau: Seq<HpValue>,
    dim: int,
    eigenvalue: HpValue,
    xi: Seq<HpValue>,
    diagnostics: DiagnosticsView,
    cfg: HighPrecConfig,
) -> bool {
    let p = cfg.precision_bits as nat;
    &&& diagnostics.configured_step_limit == cfg.inverse_iter_steps
    &&& relative_residual(tau, dim, xi, eigenvalue, p) is Some
    &&& relative_residual(tau, dim, xi, eigenvalue, p)->0.eqv(diagnostics.residual)
    &&& residual_holds(tau, dim, xi, eigenvalue, p)
}

/// Whether a stored eigenpair is taken as it is.
pub fn accepts_stored_pair(tau: &Vec<HpFloat>, dim: usize, pair: &CachedXi, cfg: &HighPrecConfig) -> (r:
    bool)
    requires
        cfg.precision_bits >= 1,
    ensures
        r == stored_pair_holds(
            vals(tau@),
            dim as int,
            pair.eps_n@,
            vals(pair.xi@),
            pair.diagnostics@,
            *cfg,
        ),
{
    let replays: bool = match relative_residual_norm(
        tau,
        dim,
        &pair.xi,
        &pair.eps_n,
        cfg.precision_bits,
    ) {
        None => false,
        Some(v) => v.eqv(&pair.diagnostics.final_relative_residual_norm),
    };
    pair.diagnostics.configured_step_limit == cfg.inverse_iter_steps && replays && residual_ok(
        tau,
        dim,
        &pair.xi,
        &pair.eps_n,
        cfg.precision_bits,
    )
}

/// A solved eigenpair: the vector normalized, and the residual of the full form in its evidence.
pub open spec fn finished_pair(
    tau: Seq<HpValue>,
    dim: int,
    eigenvalue: HpValue,
    raw: Seq<HpValue>,
    diagnostics: DiagnosticsView,
    l: HpValue,
    p: nat,
) -> Option<PairReading> {
    let xi = normalized(raw, l, p);
    match relative_residual(tau, dim, xi, eigenvalue, p) {
        None => None,
        Some(residual) => Some(
            PairReading {
                eigenvalue,
                eigenvector: xi,
                diagnostics: DiagnosticsView { residual, ..diagnostics },
            },
        ),
    }
}

/// Normalizes a solved vector and measures its residual on the full form.
pub fn finish_pair(
    tau: &Vec<HpFloat>,
    dim: usize,
    eigenvalue: HpFloat,
    raw: &Vec<HpFloat>,
    diagnostics: InverseIterationDiagnostics,
    l: &HpFloat,
    prec: u32,
) -> (r: Result<WeilEigenpair, CcmError>)
    requires
        prec >= 1,
    ensures
        ({
            let goal = finished_pair(
                vals(tau@),
                dim as int,
                eigenvalue@,
                vals(raw@),
                diagnostics@,
                l@,
                prec as nat,
            );
            match r {
                Ok(pair) => goal == Some(pair@),
                Err(e) => goal is None && e.refuses(
                    "CCM inverse iteration produced an invalid eigenvector"@,
                ),
            }
        }),
{
    let xi: Vec<HpFloat> = normalize_eigenvector(raw, l, prec);
    match relative_residual_norm(tau, dim, &xi, &eigenvalue, prec) {
        None => Err(CcmError::refused("CCM inverse iteration produced an invalid eigenvector")),
        Some(residual) => Ok(
            WeilEigenpair {
                eigenvalue,
                eigenvector: xi,
                diagnostics: InverseIterationDiagnostics {
                    configured_step_limit: diagnostics.configured_step_limit,
                    unshifted_steps: diagnostics.unshifted_steps,
                    unshifted_converged: diagnostics.unshifted_converged,
                    final_relative_rayleigh_change: diagnostics.final_relative_rayleigh_change,
                    shifted_refinement: diagnostics.shifted_refinement,
                    final_relative_residual_norm: residual,
                },
            },
        ),
    }
}

/// Holds an eigenpair to the residual that the precision allows.
pub fn check_pair(tau: &Vec<HpFloat>, dim: usize, pair: &WeilEigenpair, cfg: &HighPrecConfig) -> (r:
    Result<(), CcmError>)
    requires
        cfg.precision_bits >= 1,
    ensures
        ({
            let holds = residual_holds(
                vals(tau@),
                dim as int,
                pair@.eigenvector,
                pair@.eigenvalue,
                cfg.precision_bits as nat,
            );
            match r {
                Ok(_) => holds,
                Err(e) => !holds && e.refuses(
                    "CCM inverse iteration did not meet the working-precision tau-residual acceptance floor after "@
                        + number_text(cfg.inverse_iter_steps as nat) + " steps"@,
                ),
            }
        }),
{
    if !residual_ok(tau, dim, &pair.eigenvector, &pair.eigenvalue, cfg.precision_bits) {
        let mut t: String =
            "CCM inverse iteration did not meet the working-precision tau-residual acceptance floor after ".to_owned();
        push_number(&mut t, cfg.inverse_iter_steps as u64);
        t.append(" steps");
        return Err(CcmError::Refused(t));
    }
    Ok(())
}

/// A stored eigenpair that is taken as it is holds.
pub proof fn law_stored_pair_is_checked(
    tau: Seq<HpValue>,
    dim: int,
    eigenvalue: HpValue,
    xi: Seq<HpValue>,
    diagnostics: DiagnosticsView,
    cfg: HighPrecConfig,
)
    requires
        stored_pair_holds(tau, dim, eigenvalue, xi, diagnostics, cfg),
    ensures
        residual_holds(tau, dim, xi, eigenvalue, cfg.precision_bits as nat),
{
}

/// How an iteration that did not converge on its own ended; `None` where it converged.
pub fn termination_of(diagnostics: &InverseIterationDiagnostics) -> (r: Option<&'static str>)
    ensures
        r is None == diagnostics.unshifted_converged,
        r matches Some(t) ==> t@ == (if diagnostics.unshifted_steps
            < diagnostics.configured_step_limit {
            "early residual-verified shifted rescue"@
        } else {
            "unshifted limit reached"@
        }),
{
    if diagnostics.unshifted_converged {
        None
    } else if diagnostics.unshifted_steps < diagnostics.configured_step_limit {
        Some("early residual-verified shifted rescue")
    } else {
        Some("unshifted limit reached")
    }
}

/// The plan of a run that asks for no roots.
pub fn source_only_window() -> (r: IndependentRootDiscoveryPlan)
    ensures
        r.artifact_first_root_index == 1,
        r.artifact_seeds@.len() == 0,
        r.selected_positions@.len() == 0,
        r.result_first_root_index == 1,
        r.request_semantics == (RootWindowSemantics {
            domain: IndependentRootDomain::Positive,
            requested_count: 0,
            allow_incomplete: false,
            artifact_format: RootArtifactFormat::LegacyV6,
        }),
{
    IndependentRootDiscoveryPlan {
        artifact_first_root_index: 1,
        artifact_seeds: Vec::new(),
        selected_positions: Vec::new(),
        result_first_root_index: 1,
        request_semantics: RootWindowSemantics::strict_positive(0),
    }
}

/// The plan of a run from reference seeds: the seeds at the working precision, all of them.
pub open spec fn seeded_plan(first: nat, seeds: Seq<HpValue>, p: nat) -> PlanView {
    PlanView {
        artifact_first: first,
        seeds: Seq::new(seeds.len(), |i: int| seeds[i].at(p)),
        positions: Seq::new(seeds.len(), |i: int| i as usize),
        result_first: first,
        semantics: RootWindowSemantics {
            domain: IndependentRootDomain::Positive,
            requested_count: seeds.len() as usize,
            allow_incomplete: false,
            artifact_format: RootArtifactFormat::LegacyV6,
        },
    }
}

/// The plan of a run from reference seeds.
pub fn seeded_window(first_root_index: usize, seeds: &Vec<HpFloat>, prec: u32) -> (r:
    IndependentRootDiscoveryPlan)
    requires
        prec >= 1,
    ensures
        r@ == seeded_plan(first_root_index as nat, vals(seeds@), prec as nat),
{
    let ghost plan = seeded_plan(first_root_index as nat, vals(seeds@), prec as nat);
    let mut artifact_seeds: Vec<HpFloat> = Vec::with_capacity(seeds.len());
    let mut selected_positions: Vec<usize> = Vec::with_capacity(seeds.len());
    let mut i: usize = 0;
    proof {
        lemma_build_ends(plan.seeds);
    }
    while i < seeds.len()
        invariant
            i <= seeds.len(),
            prec >= 1,
            plan == seeded_plan(first_root_index as nat, vals(seeds@), prec as nat),
            artifact_seeds.len() == i,
            vals(artifact_seeds@) == plan.seeds.take(i as int),
            selected_positions@ == plan.positions.take(i as int),
        decreases seeds.len() - i,
    {
        let x: HpFloat = seeds[i].at(prec);
        proof {
            lemma_extend(artifact_seeds@, x, plan.seeds);
        }
        artifact_seeds.push(x);
        selected_positions.push(i);
        i = i + 1;
        assert(selected_positions@ =~= plan.positions.take(i as int));
    }
    proof {
        lemma_build_ends(plan.seeds);
        assert(selected_positions@ =~= plan.positions);
    }
    IndependentRootDiscoveryPlan {
        artifact_first_root_index: first_root_index,
        artifact_seeds,
        selected_positions,
        result_first_root_index: first_root_index,
        request_semantics: RootWindowSemantics::strict_positive(seeds.len()),
    }
}

/// The first position that lies outside a window; `None` where all lie inside.
pub open spec fn first_outside(positions: Seq<usize>, len: nat, from: int) -> Option<usize>
    decreases positions.len() - from,
{
    if from < 0 || from >= positions.len() {
        None
    } else if positions[from] >= len {
        Some(positions[from])
    } else {
        first_outside(positions, len, from + 1)
    }
}

/// The words of a projection that leaves its window.
pub open spec fn outside_words(what: Seq<char>, position: usize, len: nat) -> Seq<char> {
    "advanced CCM "@ + what + " projection ordinal "@ + number_text((position + 1) as nat)
        + " lies outside the canonical window of "@ + number_text(len) + " roots"@
}

fn outside_window(what: &str, position: usize, len: usize) -> (r: CcmError)
    requires
        position < usize::MAX,
    ensures
        r.refuses(outside_words(what@, position, len as nat)),
{
    let mut t: String = "advanced CCM ".to_owned();
    t.append(what);
    t.append(" projection ordinal ");
    push_number(&mut t, position as u64 + 1);
    t.append(" lies outside the canonical window of ");
    push_number(&mut t, len as u64);
    t.append(" roots");
    CcmError::Refused(t)
}

/// The members of a window at the selected positions.
pub open spec fn projected<T>(window: Seq<T>, positions: Seq<usize>) -> Seq<T> {
    Seq::new(positions.len(), |i: int| window[positions[i] as int])
}

proof fn lemma_first_outside(positions: Seq<usize>, len: nat, from: int, at: int)
    requires
        0 <= from <= at < positions.len(),
        positions[at] >= len,
        forall|k: int| from <= k < at ==> (#[trigger] positions[k]) < len,
    ensures
        first_outside(positions, len, from) == Some(positions[at]),
    decreases at - from,
{
    if from < at {
        lemma_first_outside(positions, len, from + 1, at);
    }
}

proof fn lemma_none_outside(positions: Seq<usize>, len: nat, from: int)
    requires
        0 <= from <= positions.len(),
        forall|k: int| from <= k < positions.len() ==> (#[trigger] positions[k]) < len,
    ensures
        first_outside(positions, len, from) is None,
    decreases positions.len() - from,
{
    if from < positions.len() {
        lemma_none_outside(positions, len, from + 1);
    }
}

/// The outcomes of a window at the selected positions.
pub fn project_roots(window: &Vec<EigenvalueResult>, positions: &Vec<usize>) -> (r: Result<
    Vec<EigenvalueResult>,
    CcmError,
>)
    requires
        forall|i: int| 0 <= i < positions@.len() ==> (#[trigger] positions@[i]) < usize::MAX,
    ensures
        match r {
            Ok(v) => first_outside(positions@, window@.len(), 0) is None && outcomes(v@)
                == projected(outcomes(window@), positions@),
            Err(e) => first_outside(positions@, window@.len(), 0) is Some && e.refuses(
                outside_words(
                    "root"@,
                    first_outside(positions@, window@.len(), 0)->0,
                    window@.len(),
                ),
            ),
        },
{
    let ghost s = outcomes(window@);
    let mut out: Vec<EigenvalueResult> = Vec::with_capacity(positions.len());
    let mut i: usize = 0;
    while i < positions.len()
        invariant
            i <= positions.len(),
            s == outcomes(window@),
            out.len() == i,
            forall|k: int| 0 <= k < positions@.len() ==> (#[trigger] positions@[k]) < usize::MAX,
            forall|k: int| 0 <= k < i ==> (#[trigger] positions@[k]) < window@.len(),
            forall|k: int| 0 <= k < i ==> (#[trigger] out@[k]@) == s[positions@[k] as int],
        decreases positions.len() - i,
    {
        let at: usize = positions[i];
        if at >= window.len() {
            proof {
                lemma_first_outside(positions@, window@.len(), 0, i as int);
            }
            return Err(outside_window("root", at, window.len()));
        }
        assert(s[at as int] == window@[at as int]@);
        out.push(window[at].copied());
        i = i + 1;
    }
    proof {
        lemma_none_outside(positions@, window@.len(), 0);
    }
    assert(outcomes(out@) =~= projected(s, positions@));
    Ok(out)
}

/// The seeds of a window at the selected positions.
pub fn project_seeds(window: &Vec<HpFloat>, positions: &Vec<usize>) -> (r: Result<
    Vec<HpFloat>,
    CcmError,
>)
    requires
        forall|i: int| 0 <= i < positions@.len() ==> (#[trigger] positions@[i]) < usize::MAX,
    ensures
        match r {
            Ok(v) => first_outside(positions@, window@.len(), 0) is None && vals(v@) == projected(
                vals(window@),
                positions@,
            ),
            Err(e) => first_outside(positions@, window@.len(), 0) is Some && e.refuses(
                outside_words(
                    "seed"@,
                    first_outside(positions@, window@.len(), 0)->0,
                    window@.len(),
                ),
            ),
        },
{
    let mut out: Vec<HpFloat> = Vec::with_capacity(positions.len());
    let mut i: usize = 0;
    while i < positions.len()
        invariant
            i <= positions.len(),
            out.len() == i,
            forall|k: int| 0 <= k < positions@.len() ==> (#[trigger] positions@[k]) < usize::MAX,
            forall|k: int| 0 <= k < i ==> (#[trigger] positions@[k]) < window@.len(),
            forall|k: int| 0 <= k < i ==> (#[trigger] out@[k]@) == window@[positions@[k] as int]@,
        decreases positions.len() - i,
    {
        let at: usize = positions[i];
        if at >= window.len() {
            proof {
                lemma_first_outside(positions@, window@.len(), 0, i as int);
            }
            return Err(outside_window("seed", at, window.len()));
        }
        out.push(window[at].clone());
        i = i + 1;
    }
    proof {
        lemma_none_outside(positions@, window@.len(), 0);
    }
    assert(vals(out@) =~= projected(vals(window@), positions@));
    Ok(out)
}

/// The one-based ordinals of positions.
pub fn ordinals_of(positions: &Vec<usize>) -> (r: Vec<usize>)
    requires
        forall|i: int| 0 <= i < positions@.len() ==> (#[trigger] positions@[i]) < usize::MAX,
    ensures
        r@ == Seq::new(positions@.len(), |i: int| (positions@[i] + 1) as usize),
{
    let mut out: Vec<usize> = Vec::with_capacity(positions.len());
    let mut i: usize = 0;
    while i < positions.len()
        invariant
            i <= positions.len(),
            out.len() == i,
            forall|k: int| 0 <= k < positions@.len() ==> (#[trigger] positions@[k]) < usize::MAX,
            forall|k: int| 0 <= k < i ==> (#[trigger] out@[k]) == positions@[k] + 1,
        decreases positions.len() - i,
    {
        out.push(positions[i] + 1);
        i = i + 1;
    }
    assert(out@ =~= Seq::new(positions@.len(), |k: int| (positions@[k] + 1) as usize));
    out
}

/// Whether a value lies nearer to another seed than to its own.
pub open spec fn lies_nearer(value: HpValue, seeds: Seq<HpValue>, own: int, other: int) -> bool {
    other != own && value.minus(seeds[other]).abs().lt(value.minus(seeds[own]).abs())
}

/// The first seed at or after `from` to which a value lies nearer than to its own.
pub open spec fn crossed_seed(value: HpValue, seeds: Seq<HpValue>, own: int, from: int) -> Option<int>
    decreases seeds.len() - from,
{
    if from < 0 || from >= seeds.len() {
        None
    } else if lies_nearer(value, seeds, own, from) {
        Some(from)
    } else {
        crossed_seed(value, seeds, own, from + 1)
    }
}

/// The seed that the root at a position crossed to, where it has a value and a seed.
pub open spec fn crossing_at(s: Seq<OutcomeView>, seeds: Seq<HpValue>, k: int) -> Option<int> {
    match value_at(s, k) {
        Some(value) => if k < seeds.len() {
            crossed_seed(value, seeds, k, 0)
        } else {
            None
        },
        None => None,
    }
}

/// The crossings among the leading `n` roots: position of the root, position of the seed.
pub open spec fn crossings(s: Seq<OutcomeView>, seeds: Seq<HpValue>, n: nat) -> Seq<(usize, usize)>
    decreases n,
{
    if n == 0 {
        Seq::empty()
    } else {
        let before = crossings(s, seeds, (n - 1) as nat);
        match crossing_at(s, seeds, n - 1) {
            Some(j) => before.push(((n - 1) as usize, j as usize)),
            None => before,
        }
    }
}

fn find_crossed_seed(value: &HpFloat, seeds: &Vec<HpFloat>, own: usize) -> (r: Option<usize>)
    requires
        own < seeds.len(),
    ensures
        match r {
            Some(j) => crossed_seed(value@, vals(seeds@), own as int, 0) == Some(j as int),
            None => crossed_seed(value@, vals(seeds@), own as int, 0) is None,
        },
{
    let ghost s = vals(seeds@);
    let distance: HpFloat = value.minus(&seeds[own]).abs();
    let mut j: usize = 0;
    while j < seeds.len()
        invariant
            j <= seeds.len(),
            own < seeds.len(),
            s == vals(seeds@),
            distance@ == value@.minus(s[own as int]).abs(),
            crossed_seed(value@, s, own as int, 0) == crossed_seed(value@, s, own as int, j as int),
        decreases seeds.len() - j,
    {
        if j != own && value.minus(&seeds[j]).abs().lt(&distance) {
            return Some(j);
        }
        j = j + 1;
    }
    None
}

/// The roots that lie nearer to another seed than to their own, each with the first such seed.
pub fn find_crossings(roots: &Vec<EigenvalueResult>, seeds: &Vec<HpFloat>) -> (r: Vec<
    (usize, usize),
>)
    ensures
        r@ == crossings(outcomes(roots@), vals(seeds@), roots@.len()),
{
    let ghost s = outcomes(roots@);
    let mut out: Vec<(usize, usize)> = Vec::new();
    let mut k: usize = 0;
    while k < roots.len()
        invariant
            k <= roots.len(),
            s == outcomes(roots@),
            out@ == crossings(s, vals(seeds@), k as nat),
        decreases roots.len() - k,
    {
        assert(s[k as int] == roots@[k as int]@);
        match roots[k].value() {
            Some(value) => {
                if k < seeds.len() {
                    match find_crossed_seed(value, seeds, k) {
                        Some(j) => {
                            out.push((k, j));
                        },
                        None => {},
                    }
                }
            },
            None => {},
        }
        k = k + 1;
    }
    out
}

} // verus!
