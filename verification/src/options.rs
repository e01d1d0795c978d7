//! Configuration, limits, statistics and the ways a run can end.

use vstd::prelude::*;

use crate::oracle::OracleError;

verus! {

/// The part of the search in which something happens.
#[derive(Clone, Copy, PartialEq, Eq, Structural, Debug)]
pub enum Phase {
    /// The search for a starting point, without assumptions.
    OuterLoop,
    /// The descent from a candidate to a point that nothing dominates.
    Minimization,
    /// The search for more solutions at a point of the front.
    Enumeration,
}

/// When a heuristic improvement is applied.
#[derive(Clone, Copy, PartialEq, Eq, Structural, Debug)]
pub enum HeurImprWhen {
    Never,
    Always,
    /// Only on candidates of the outer loop.
    OuterLoop,
}

impl HeurImprWhen {
    pub open spec fn spec_wanted(self, phase: Phase) -> bool {
        match self {
            HeurImprWhen::Never => false,
            HeurImprWhen::Always => true,
            HeurImprWhen::OuterLoop => phase == Phase::OuterLoop,
        }
    }

    /// Whether the improvement is applied in `phase`.
    pub fn wanted(&self, phase: Phase) -> (b: bool)
        ensures
            b == self.spec_wanted(phase),
    {
        match self {
            HeurImprWhen::Never => false,
            HeurImprWhen::Always => true,
            HeurImprWhen::OuterLoop => phase == Phase::OuterLoop,
        }
    }
}

/// Which heuristic improvements of candidates are made, and when.
#[derive(Clone, Copy, PartialEq, Eq, Structural, Debug)]
pub struct HeurImprOptions {
    /// When to flip objective literals that a witness allows to flip.
    pub solution_tightening: HeurImprWhen,
    /// When to learn the clause that a flip witness gives.
    pub tightening_clauses: HeurImprWhen,
}

impl HeurImprOptions {
    pub open spec fn spec_must_store_clauses(self) -> bool {
        self.solution_tightening != HeurImprWhen::Never || self.tightening_clauses
            != HeurImprWhen::Never
    }

    /// Whether the clauses that hold objective literals have to be kept.
    pub fn must_store_clauses(&self) -> (b: bool)
        ensures
            b == self.spec_must_store_clauses(),
    {
        self.solution_tightening != HeurImprWhen::Never || self.tightening_clauses
            != HeurImprWhen::Never
    }

    pub fn none() -> (o: HeurImprOptions)
        ensures
            o.solution_tightening == HeurImprWhen::Never,
            o.tightening_clauses == HeurImprWhen::Never,
    {
        HeurImprOptions {
            solution_tightening: HeurImprWhen::Never,
            tightening_clauses: HeurImprWhen::Never,
        }
    }
}

/// What is enumerated at each point of the front, with an optional bound on
/// the number of solutions per point.
#[derive(Clone, Copy, PartialEq, Eq, Structural, Debug)]
pub enum EnumOptions {
    /// One solution per point.
    NoEnum,
    /// All solutions, each blocked by the blocking clause generator.
    Solutions(Option<usize>),
    /// All Pareto-MCSs: each solution blocks the objective literals it makes
    /// true.
    PMCSs(Option<usize>),
}

impl EnumOptions {
    pub open spec fn spec_reached(self, n_sols: nat) -> bool {
        match self {
            EnumOptions::NoEnum => true,
            EnumOptions::Solutions(Some(limit)) => n_sols >= limit,
            EnumOptions::PMCSs(Some(limit)) => n_sols >= limit,
            _ => false,
        }
    }

    /// Whether a point with `n_sols` solutions takes no more.
    pub fn reached(&self, n_sols: usize) -> (b: bool)
        ensures
            b == self.spec_reached(n_sols as nat),
    {
        match self {
            EnumOptions::NoEnum => true,
            EnumOptions::Solutions(Some(limit)) => n_sols >= *limit,
            EnumOptions::PMCSs(Some(limit)) => n_sols >= *limit,
            _ => false,
        }
    }
}

/// The configuration of a solver.
#[derive(Clone, Copy, PartialEq, Eq, Structural, Debug)]
pub struct Options {
    pub enumeration: EnumOptions,
    pub heuristic_improvements: HeurImprOptions,
    /// Whether the encoders reserve all their variables when they are built.
    pub reserve_enc_vars: bool,
    /// Whether the oracle is to try the values of the last candidate first.
    /// The oracle that the solver is built on cannot be told so: the option
    /// is there for drivers of oracles that can, and changes nothing in
    /// what this solver does.
    pub solution_guided_search: bool,
}

impl Options {
    pub open spec fn spec_default() -> Options {
        Options {
            enumeration: EnumOptions::NoEnum,
            heuristic_improvements: HeurImprOptions {
                solution_tightening: HeurImprWhen::Never,
                tightening_clauses: HeurImprWhen::Never,
            },
            reserve_enc_vars: false,
            solution_guided_search: false,
        }
    }

    /// No enumeration, no heuristic improvement, nothing reserved, no
    /// solution-guided search.
    pub fn default() -> (o: Options)
        ensures
            o == Options::spec_default(),
    {
        Options {
            enumeration: EnumOptions::NoEnum,
            heuristic_improvements: HeurImprOptions::none(),
            reserve_enc_vars: false,
            solution_guided_search: false,
        }
    }
}

/// What is left of a limit after one more event: one less, and nothing where
/// nothing was left.
pub open spec fn spent(limit: Option<usize>) -> Option<usize> {
    match limit {
        Some(n) => Some(
            if n > 0 {
                (n - 1) as usize
            } else {
                0
            },
        ),
        None => None,
    }
}

/// Nothing is left of the limit.
pub open spec fn exhausted(limit: Option<usize>) -> bool {
    limit == Some(0usize)
}

/// At most as much is left of the limit `now` as of the limit `before`.
pub open spec fn limit_le(now: Option<usize>, before: Option<usize>) -> bool {
    match (now, before) {
        (Some(n), Some(b)) => n <= b,
        (None, None) => true,
        _ => false,
    }
}

/// Counts one event against the limit and tells whether it is used up.
pub fn spend(limit: &mut Option<usize>) -> (hit: bool)
    ensures
        *final(limit) == spent(*old(limit)),
        hit == exhausted(*final(limit)),
{
    match *limit {
        Some(n) => {
            let left: usize = if n > 0 {
                n - 1
            } else {
                0
            };
            *limit = Some(left);
            left == 0
        },
        None => false,
    }
}

/// Bounds on a run. A run ends when one of them is used up.
#[derive(Clone, Copy, PartialEq, Eq, Structural, Debug)]
pub struct Limits {
    /// The number of points of the front.
    pub pps: Option<usize>,
    /// The number of solutions.
    pub sols: Option<usize>,
    /// The number of candidates.
    pub candidates: Option<usize>,
    /// The number of calls of the oracle.
    pub oracle_calls: Option<usize>,
}

impl Limits {
    pub open spec fn spec_none() -> Limits {
        Limits { pps: None, sols: None, candidates: None, oracle_calls: None }
    }

    /// At most as much is left of each limit as in `before`.
    pub open spec fn le(self, before: Limits) -> bool {
        &&& limit_le(self.pps, before.pps)
        &&& limit_le(self.sols, before.sols)
        &&& limit_le(self.candidates, before.candidates)
        &&& limit_le(self.oracle_calls, before.oracle_calls)
    }

    /// No bound at all.
    pub fn none() -> (l: Limits)
        ensures
            l == Limits::spec_none(),
    {
        Limits { pps: None, sols: None, candidates: None, oracle_calls: None }
    }
}

/// Counters of a solver, over all its runs.
#[derive(Clone, Copy, PartialEq, Eq, Structural, Debug)]
pub struct Stats {
    pub n_solve_calls: usize,
    pub n_solutions: usize,
    pub n_pareto_points: usize,
    pub n_candidates: usize,
    pub n_oracle_calls: usize,
    pub n_objs: usize,
    pub n_orig_clauses: usize,
}

impl Stats {
    pub open spec fn spec_default() -> Stats {
        Stats {
            n_solve_calls: 0,
            n_solutions: 0,
            n_pareto_points: 0,
            n_candidates: 0,
            n_oracle_calls: 0,
            n_objs: 0,
            n_orig_clauses: 0,
        }
    }

    pub fn default() -> (s: Stats)
        ensures
            s == Stats::spec_default(),
    {
        Stats {
            n_solve_calls: 0,
            n_solutions: 0,
            n_pareto_points: 0,
            n_candidates: 0,
            n_oracle_calls: 0,
            n_objs: 0,
            n_orig_clauses: 0,
        }
    }
}

/// An error that a logger reported, with its message.
#[derive(Clone, PartialEq, Eq, Debug)]
pub struct LoggerError {
    pub message: String,
}

/// What went wrong in an upper-bound encoder.
#[derive(Clone, Copy, PartialEq, Eq, Structural, Debug)]
pub enum EncodingError {
    /// The encoder ran out of memory.
    OutOfMemory,
    /// The bound was not encoded before it was enforced.
    NotEncoded,
    /// No assignment can meet the bound.
    Unsat,
    /// The encoder needs more variables than there are.
    OutOfVariables,
}

/// Why a run ended before the whole front was found.
#[derive(Clone, PartialEq, Eq, Debug)]
pub enum Termination {
    /// The limit on points of the front was reached.
    PPLimit,
    /// The limit on solutions was reached.
    SolsLimit,
    /// The limit on candidates was reached.
    CandidatesLimit,
    /// The limit on oracle calls was reached.
    OracleCallsLimit,
    /// A logger failed.
    LoggerError(LoggerError),
    /// The termination callback or the oracle asked to stop.
    Callback,
    /// The oracle failed.
    OracleError(OracleError),
    /// The oracle handed out values that contradict what it was asked for.
    OracleInconsistent,
    /// An encoder failed.
    EncodingError(EncodingError),
}

/// What a termination callback answers.
#[derive(Clone, Copy, PartialEq, Eq, Structural, Debug)]
pub enum ControlSignal {
    Continue,
    Terminate,
}

} // verus!
