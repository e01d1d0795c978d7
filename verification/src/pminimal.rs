//! The solver: P-minimisation with enumeration at each point of the front.

use vstd::prelude::*;

use crate::encodings::{pb_inputs, ObjEncoding, VarManager};
use crate::front::{
    admits, dominates, lemma_front_minimal, same_point, NonDomPoint, ParetoFront,
};
use crate::index::{index_complete, BlitTable, ObjIndex};
use crate::init::clause_below;
use crate::logging::{
    none_attached, same_slots_taken, told_all_or_failed, BlockingClauseGen, DefaultBlocking,
    LogEvent, Loggers, NeverTerminate, NoLog, Terminator, WriteSolverLog,
};
use crate::objective::{lemma_external_cost_is_sum, total_weight, weighted_cost, Objective};
use crate::options::{
    exhausted, spend, spent, ControlSignal, EncodingError, Limits, LoggerError, Options, Phase,
    Stats,
    Termination,
};
use crate::oracle::{Oracle, OracleStats, SolverResult};
use crate::tightening::index_links_in_range;
use crate::types::{
    clause_sat, lemma_truncated_keeps, lit_true, truncated, Lit, TernaryVal, Var,
};

verus! {

/// Every solution of the point has the point's costs, the point has a
/// solution, and it has one cost for each objective.
pub open spec fn point_ok(objs: Seq<Objective>, p: NonDomPoint) -> bool {
    &&& p.costs@.len() == objs.len()
    &&& p.sols@.len() > 0
    &&& forall|k: int, i: int|
        0 <= k < p.sols@.len() && 0 <= i < objs.len() ==> p.costs@[i]
            == #[trigger] objs[i].external_cost(p.sols@[k]@)
}

/// What was counted and what is left of a limit add up: `now` is left of
/// the limit `start` after `counted` events. One event more may be counted
/// than was taken off the limit: the one whose logging failed, and the one
/// that a limit of nothing lets pass. Either ends the run.
pub open spec fn accounted(start: Option<usize>, now: Option<usize>, counted: int) -> bool {
    match (start, now) {
        (Some(x), Some(y)) => counted + y == x || (counted + y == x + 1 && (y > 0 || x == 0)),
        (None, None) => counted >= 0,
        _ => false,
    }
}

/// What was counted was taken off the limit, and one more event can be
/// counted: something is left of the limit, or nothing was counted yet.
pub open spec fn open_for(start: Option<usize>, now: Option<usize>, counted: int) -> bool {
    match (start, now) {
        (Some(x), Some(y)) => counted + y == x && (y > 0 || counted == 0),
        (None, None) => counted >= 0,
        _ => false,
    }
}

/// No more events are counted than the limit admits, but for the one that a
/// limit of nothing lets pass.
pub proof fn lemma_accounted_bound(start: Option<usize>, now: Option<usize>, counted: int)
    requires
        accounted(start, now, counted),
    ensures
        start matches Some(x) ==> counted <= x || (x == 0 && counted == 1),
{
}

/// The values make every one of the clauses true.
pub open spec fn sats_all(a: Seq<TernaryVal>, cs: Seq<Seq<Lit>>) -> bool {
    forall|i: int| 0 <= i < cs.len() ==> clause_sat(a, #[trigger] cs[i])
}

/// Every solution of the point makes every one of the clauses true.
pub open spec fn point_sound(p: NonDomPoint, cs: Seq<Seq<Lit>>) -> bool {
    forall|j: int| 0 <= j < p.sols@.len() ==> sats_all((#[trigger] p.sols@[j])@, cs)
}

/// Values that make a clause over the variables below `n` true still do so
/// when they are cut down to these variables.
pub proof fn lemma_truncated_sat(a: Seq<TernaryVal>, n: int, c: Seq<Lit>)
    requires
        n > 0,
        clause_below(c, n),
        clause_sat(a, c),
    ensures
        clause_sat(truncated(a, n - 1), c),
{
    let i = choose|i: int| 0 <= i < c.len() && lit_true(a, #[trigger] c[i]);
    lemma_truncated_keeps(a, n - 1, c[i]);
    assert(lit_true(truncated(a, n - 1), c[i]));
}

/// No solution of the point speaks of a variable from `n` on.
pub open spec fn cut_off(p: NonDomPoint, n: int) -> bool {
    forall|j: int| 0 <= j < p.sols@.len() ==> (#[trigger] p.sols@[j])@.len() <= n
}

/// The encoder has the shape of the objective, starts its scale at zero,
/// and has the literals of the objective for its input: with their weights
/// where the objective is weighted, and each once for each time that the
/// objective holds it where it is not.
pub open spec fn encodes(enc: ObjEncoding, obj: Objective) -> bool {
    &&& enc.spec_offset() == 0
    &&& (obj is Weighted) == (enc is Weighted)
    &&& (obj is Unweighted) == (enc is Unweighted)
    &&& (obj is Constant) == (enc is Constant)
    &&& obj matches Objective::Weighted { lits, .. } ==> enc.sums(lits@)
    &&& obj matches Objective::Unweighted { lits, .. } ==> enc.counts(lits@)
}

/// A bound on the variables that the encoder of the objective takes over
/// its life: for each literal one for each value of the sum where the
/// objective is weighted, and one for each bit of a `usize` where it is
/// not.
pub open spec fn need_of(obj: Objective) -> nat {
    match obj {
        Objective::Weighted { lits, .. } => lits@.len() * total_weight(lits@),
        Objective::Unweighted { lits, .. } => 64 * lits@.len(),
        Objective::Constant { .. } => 0,
    }
}

/// The encoder of the objective can still take no more than the bound for
/// the objective says, less what it has taken while encoding, and nothing
/// where `reserved` is set: then it holds all its variables.
pub open spec fn budgeted(enc: ObjEncoding, obj: Objective, reserved: bool) -> bool {
    &&& enc.spec_left() + enc.spec_n_vars() <= need_of(obj)
    &&& reserved ==> enc.holds_all()
}

/// An encoder that goes with an objective is well formed, has the highest
/// internal cost of the objective for the highest value of its sum, and
/// can take the variables that the objective says.
pub proof fn lemma_encodes_size(enc: ObjEncoding, obj: Objective)
    requires
        encodes(enc, obj),
        obj.wf(),
    ensures
        enc.spec_size() == obj.max_internal(),
        enc.spec_need() == need_of(obj),
        enc.wf(),
{
    match (obj, enc) {
        (Objective::Unweighted { lits, .. }, _) => {
            lits@.to_multiset_ensures();
        },
        (Objective::Weighted { lits, .. }, ObjEncoding::Weighted(e, _)) => {
            lits@.to_multiset_ensures();
            assert forall|p: (Lit, usize)| pb_inputs(e).count(p) > 0 implies p.1 > 0 by {
                assert(lits@.contains(p));
                let j = choose|j: int| 0 <= j < lits@.len() && lits@[j] == p;
                assert(lits@[j].1 != 0);
            }
        },
        _ => {},
    }
}

/// An encoder that kept its input literals still goes with the objective.
pub proof fn lemma_encodes_kept(after: ObjEncoding, before: ObjEncoding, obj: Objective)
    requires
        encodes(before, obj),
        after.same_inputs(before),
    ensures
        encodes(after, obj),
{
}

/// What there is to say of the encoder of one objective.
#[derive(Clone, Copy, PartialEq, Eq, Structural, Debug)]
pub struct EncodingStats {
    /// The number of clauses that the encoder has emitted.
    pub n_clauses: usize,
    /// The number of variables that the encoder has taken.
    pub n_vars: u32,
    /// The offset of the objective.
    pub offset: isize,
    /// The weight of each literal, where the objective is unweighted.
    pub unit_weight: Option<usize>,
}

/// The solver. It owns the oracle, the encoders of the objectives, the
/// index of the objective literals and the front found so far.
pub struct PMinimal<BCG = DefaultBlocking, L = NoLog, T = NeverTerminate> {
    /// The SAT solver.
    pub oracle: Oracle,
    /// The source of fresh variables.
    pub var_manager: VarManager,
    /// The objectives.
    pub objs: Vec<Objective>,
    /// An encoder for each objective.
    pub obj_encs: Vec<ObjEncoding>,
    /// The objective literals, with the clauses kept for tightening.
    pub index: ObjIndex,
    /// The blocking literals of the relaxed soft clauses.
    pub blits: BlitTable,
    /// The highest variable of the instance after the soft clauses were
    /// relaxed.
    pub max_orig_var: Option<Var>,
    /// The generator of blocking clauses.
    pub block_clause_gen: BCG,
    /// The front found so far.
    pub pareto_front: ParetoFront,
    /// The configuration.
    pub opts: Options,
    /// The counters.
    pub stats: Stats,
    /// What is left of the limits of the current run.
    pub lims: Limits,
    /// The loggers.
    pub loggers: Loggers<L>,
    /// The termination callback.
    pub term_cb: Option<T>,
    /// The hard clauses of the instance. They are kept for what is said of
    /// the solutions, and take no room when the solver runs.
    pub hard: Ghost<Seq<Seq<Lit>>>,
}

impl<BCG: BlockingClauseGen, L: WriteSolverLog, T: Terminator> PMinimal<BCG, L, T> {
    /// The solver's parts fit together, and every point of the front is a
    /// point that nothing else in the front dominates, with solutions that
    /// have its costs.
    pub open spec fn wf(self) -> bool {
        &&& self.objs@.len() == self.stats.n_objs
        &&& self.obj_encs@.len() == self.stats.n_objs
        &&& forall|i: int| 0 <= i < self.objs@.len() ==> (#[trigger] self.objs@[i]).wf()
        &&& forall|i: int|
            0 <= i < self.objs@.len() ==> encodes(#[trigger] self.obj_encs@[i], self.objs@[i])
                && budgeted(self.obj_encs@[i], self.objs@[i], self.opts.reserve_enc_vars)
        &&& self.var_manager.wf()
        &&& self.max_orig_var matches Some(v) ==> v.idx < self.var_manager.next_var
        &&& self.max_orig_var.is_none() ==> forall|i: int|
            0 <= i < self.objs@.len() ==> (#[trigger] self.objs@[i]).spec_iter().len() == 0
        &&& self.index.wf()
        &&& self.blits.wf()
        &&& index_links_in_range(self.index)
        &&& forall|i: int, j: int|
            0 <= i < self.objs@.len() && 0 <= j < self.objs@[i].spec_iter().len() ==> {
                &&& self.index@.contains_key((#[trigger] self.objs@[i].spec_iter()[j]).0)
                &&& self.max_orig_var matches Some(v) && self.objs@[i].spec_iter()[j].0.spec_vidx()
                    <= v.idx
            }
        &&& self.pareto_front.wf()
        &&& forall|k: int|
            0 <= k < self.pareto_front.ndoms@.len() ==> point_ok(
                self.objs@,
                #[trigger] self.pareto_front.ndoms@[k],
            ) && cut_off(self.pareto_front.ndoms@[k], self.orig_len())
    }

    /// The solver keeps to the hard clauses of the instance: they speak of
    /// original variables alone and are clauses of the oracle, the index is
    /// complete for them where clauses are stored, and every solution of
    /// the front makes each of them true.
    pub open spec fn sound(self) -> bool {
        &&& forall|i: int|
            0 <= i < self.hard@.len() ==> clause_below(
                #[trigger] self.hard@[i],
                self.orig_len(),
            ) && self.oracle.clauses().contains(self.hard@[i])
        &&& self.opts.heuristic_improvements.spec_must_store_clauses() ==> index_complete(
            self.index,
            self.blits@,
            self.hard@,
        )
        &&& forall|k: int|
            0 <= k < self.pareto_front.ndoms@.len() ==> point_sound(
                #[trigger] self.pareto_front.ndoms@[k],
                self.hard@,
            )
    }

    /// The oracle holds every clause that the encoders have emitted.
    pub open spec fn fed(self) -> bool {
        forall|i: int, k: int|
            0 <= i < self.obj_encs@.len() && 0 <= k < self.obj_encs@[i].spec_clauses().len()
                ==> self.oracle.clauses().contains(#[trigger] self.obj_encs@[i].spec_clauses()[k])
    }

    /// The number of variables that the solutions of the solver speak of:
    /// those up to the highest original variable.
    pub open spec fn orig_len(self) -> int {
        match self.max_orig_var {
            Some(v) => v.idx + 1,
            None => 0,
        }
    }

    /// `self` is a later state of the solver `before`: it works on the same
    /// problem, its front, its formula and its counters have only grown.
    pub open spec fn extends(self, before: Self) -> bool {
        &&& self.objs == before.objs
        &&& self.index == before.index
        &&& self.blits == before.blits
        &&& self.max_orig_var == before.max_orig_var
        &&& self.opts == before.opts
        &&& self.hard == before.hard
        &&& self.stats.n_objs == before.stats.n_objs
        &&& self.stats.n_orig_clauses == before.stats.n_orig_clauses
        &&& self.stats.n_solve_calls == before.stats.n_solve_calls
        &&& before.stats.n_solutions <= self.stats.n_solutions
        &&& before.stats.n_pareto_points <= self.stats.n_pareto_points
        &&& before.stats.n_candidates <= self.stats.n_candidates
        &&& before.stats.n_oracle_calls <= self.stats.n_oracle_calls
        &&& before.var_manager.next_var <= self.var_manager.next_var
        &&& before.pareto_front.ndoms@.is_prefix_of(self.pareto_front.ndoms@)
        &&& before.oracle.clauses().is_prefix_of(self.oracle.clauses())
        &&& before.oracle.answers().0 <= self.oracle.answers().0
        &&& before.oracle.answers().1 <= self.oracle.answers().1
        &&& before.oracle.answers().2 <= self.oracle.answers().2
        &&& same_slots_taken(before.loggers.slots@, self.loggers.slots@)
        &&& before.term_cb.is_some() == self.term_cb.is_some()
        &&& self.lims.le(before.lims)
    }

    /// The termination `t` has its reason in the state of the solver: a
    /// limit is named only where nothing is left of it or its counter is
    /// full, and a logger's error only where a logger is attached. An
    /// encoder fails only for want of memory or of variables, and the
    /// oracle only where a solution is asked of it and it holds no model.
    pub open spec fn stopped_by(self, t: Termination) -> bool {
        match t {
            Termination::PPLimit => exhausted(self.lims.pps) || self.stats.n_pareto_points
                == usize::MAX,
            Termination::SolsLimit => exhausted(self.lims.sols) || self.stats.n_solutions
                == usize::MAX,
            Termination::CandidatesLimit => exhausted(self.lims.candidates)
                || self.stats.n_candidates == usize::MAX,
            Termination::OracleCallsLimit => exhausted(self.lims.oracle_calls)
                || self.stats.n_oracle_calls == usize::MAX,
            Termination::LoggerError(_) => !none_attached(self.loggers.slots@),
            Termination::EncodingError(e) => e == EncodingError::OutOfMemory || e
                == EncodingError::OutOfVariables,
            Termination::OracleError(_) => !self.oracle.has_model(),
            _ => true,
        }
    }

    /// The counters have grown since the state `base` by what was taken off
    /// the limits: no limit was overrun.
    pub open spec fn within(self, base: Self) -> bool {
        &&& accounted(
            base.lims.sols,
            self.lims.sols,
            self.stats.n_solutions - base.stats.n_solutions,
        )
        &&& accounted(
            base.lims.pps,
            self.lims.pps,
            self.stats.n_pareto_points - base.stats.n_pareto_points,
        )
        &&& accounted(
            base.lims.candidates,
            self.lims.candidates,
            self.stats.n_candidates - base.stats.n_candidates,
        )
        &&& accounted(
            base.lims.oracle_calls,
            self.lims.oracle_calls,
            self.stats.n_oracle_calls - base.stats.n_oracle_calls,
        )
    }

    /// The run that began in the state `base` can go on: no limit is used
    /// up.
    pub open spec fn open(self, base: Self) -> bool {
        &&& open_for(
            base.lims.sols,
            self.lims.sols,
            self.stats.n_solutions - base.stats.n_solutions,
        )
        &&& open_for(
            base.lims.pps,
            self.lims.pps,
            self.stats.n_pareto_points - base.stats.n_pareto_points,
        )
        &&& open_for(
            base.lims.candidates,
            self.lims.candidates,
            self.stats.n_candidates - base.stats.n_candidates,
        )
        &&& open_for(
            base.lims.oracle_calls,
            self.lims.oracle_calls,
            self.stats.n_oracle_calls - base.stats.n_oracle_calls,
        )
    }

    /// The termination `t` of a call that began in the state `before` has
    /// its reason: what `stopped_by` says, and for a termination by the
    /// callback that a callback is attached or that the oracle has given up
    /// since. The oracle is asked for a solution only where it holds a
    /// model, so its error ends no such call.
    pub open spec fn ended_by(self, before: Self, t: Termination) -> bool {
        &&& self.stopped_by(t)
        &&& !(t is OracleError)
        &&& t == Termination::Callback ==> self.term_cb.is_some() || self.oracle.answers().2
            > before.oracle.answers().2
    }

    /// A copy of the front found so far.
    pub fn pareto_front(&self) -> (f: ParetoFront)
        ensures
            f.ndoms@.len() == self.pareto_front.ndoms@.len(),
            forall|i: int|
                0 <= i < f.ndoms@.len() ==> same_point(
                    #[trigger] f.ndoms@[i],
                    self.pareto_front.ndoms@[i],
                ),
            self.wf() ==> f.wf(),
    {
        self.pareto_front.duplicate()
    }

    /// The counters.
    pub fn stats(&self) -> (s: Stats)
        ensures
            s == self.stats,
    {
        self.stats
    }

    /// The counters of the oracle: how often it has answered `Sat`, `Unsat`
    /// and `Interrupted`, and what it says of its clauses and variables.
    pub fn oracle_stats(&self) -> (s: OracleStats)
        ensures
            (s.n_sat as nat, s.n_unsat as nat, s.n_terminated as nat) == self.oracle.answers(),
    {
        self.oracle.stats()
    }

    /// For each objective, the offset and the unit weight, and how many
    /// clauses and variables its encoder has used.
    pub fn encoding_stats(&self) -> (v: Vec<EncodingStats>)
        requires
            self.wf(),
        ensures
            v@.len() == self.objs@.len(),
            forall|i: int|
                0 <= i < v@.len() ==> {
                    &&& (#[trigger] v@[i]).offset == self.objs@[i].spec_offset()
                    &&& v@[i].unit_weight == match self.objs@[i] {
                        Objective::Unweighted { unit_weight, .. } => Some(unit_weight),
                        _ => None,
                    }
                    &&& self.objs@[i] is Constant ==> v@[i].n_clauses == 0 && v@[i].n_vars == 0
                    &&& v@[i].n_clauses == self.obj_encs@[i].spec_n_clauses()
                    &&& v@[i].n_vars == self.obj_encs@[i].spec_n_vars()
                },
    {
        let mut v: Vec<EncodingStats> = Vec::new();
        let mut i: usize = 0;
        while i < self.objs.len()
            invariant
                i <= self.objs@.len(),
                self.wf(),
                v@.len() == i,
                forall|k: int|
                    0 <= k < i ==> {
                        &&& (#[trigger] v@[k]).offset == self.objs@[k].spec_offset()
                        &&& v@[k].unit_weight == match self.objs@[k] {
                            Objective::Unweighted { unit_weight, .. } => Some(unit_weight),
                            _ => None,
                        }
                        &&& self.objs@[k] is Constant ==> v@[k].n_clauses == 0 && v@[k].n_vars == 0
                        &&& v@[k].n_clauses == self.obj_encs@[k].spec_n_clauses()
                        &&& v@[k].n_vars == self.obj_encs@[k].spec_n_vars()
                    },
            decreases self.objs.len() - i,
        {
            assert(encodes(self.obj_encs@[i as int], self.objs@[i as int]));
            let unit_weight = match &self.objs[i] {
                Objective::Unweighted { unit_weight, .. } => Some(*unit_weight),
                _ => None,
            };
            v.push(
                EncodingStats {
                    n_clauses: self.obj_encs[i].n_clauses(),
                    n_vars: self.obj_encs[i].n_vars(),
                    offset: self.objs[i].offset(),
                    unit_weight,
                },
            );
            i += 1;
        }
        v
    }

    /// Attaches a logger and returns the slot that names it.
    pub fn attach_logger(&mut self, logger: L) -> (id: usize)
        requires
            old(self).wf(),
        ensures
            final(self).wf(),
            id == crate::logging::first_free(old(self).loggers.slots@),
            id < old(self).loggers.slots@.len() ==>
                final(self).loggers.slots@ ==
                    old(self).loggers.slots@.update(id as int, Some(logger)),
            id == old(self).loggers.slots@.len() ==>
                final(self).loggers.slots@ == old(self).loggers.slots@.push(Some(logger)),
            final(self).pareto_front == old(self).pareto_front,
            final(self).stats == old(self).stats,
    {
        self.loggers.attach(logger)
    }

    /// Detaches the logger in slot `id`, if there is one, and returns it.
    pub fn detach_logger(&mut self, id: usize) -> (r: Option<L>)
        requires
            old(self).wf(),
        ensures
            final(self).wf(),
            id >= old(self).loggers.slots@.len() ==>
                r.is_none() && final(self).loggers.slots@ == old(self).loggers.slots@,
            id < old(self).loggers.slots@.len() ==>
                r == old(self).loggers.slots@[id as int] &&
                    final(self).loggers.slots@ == old(self).loggers.slots@.update(id as int, None),
            final(self).pareto_front == old(self).pareto_front,
            final(self).stats == old(self).stats,
    {
        self.loggers.detach(id)
    }

    /// Sets the termination callback, in place of the one there was.
    pub fn attach_terminator(&mut self, term_cb: T)
        requires
            old(self).wf(),
        ensures
            final(self).wf(),
            final(self).term_cb == Some(term_cb),
            final(self).pareto_front == old(self).pareto_front,
            final(self).stats == old(self).stats,
    {
        self.term_cb = Some(term_cb);
    }

    /// Removes the termination callback.
    pub fn detach_terminator(&mut self)
        requires
            old(self).wf(),
        ensures
            final(self).wf(),
            final(self).term_cb.is_none(),
            final(self).pareto_front == old(self).pareto_front,
            final(self).stats == old(self).stats,
    {
        self.term_cb = None;
    }

    /// Asks the termination callback, if there is one, and ends the run
    /// where it says so.
    pub fn check_terminator(&mut self) -> (r: Result<(), Termination>)
        requires
            old(self).wf(),
        ensures
            final(self).wf(),
            final(self).extends(*old(self)),
            final(self).obj_encs@ == old(self).obj_encs@,
            r matches Err(t) ==> final(self).stopped_by(t),
            final(self).stats == old(self).stats,
            final(self).lims == old(self).lims,
            final(self).pareto_front == old(self).pareto_front,
            final(self).oracle == old(self).oracle,
            final(self).var_manager == old(self).var_manager,
            old(self).term_cb.is_none() ==> r is Ok,
            r matches Err(t) ==> t == Termination::Callback,
            asked(old(self).term_cb, final(self).term_cb, r is Err),
    {
        let stop = match &mut self.term_cb {
            Some(cb) => cb.poll() == ControlSignal::Terminate,
            None => false,
        };
        if stop {
            Err(Termination::Callback)
        } else {
            Ok(())
        }
    }

    /// Counts a candidate and tells the loggers of it. The run ends where a
    /// logger fails, where this was the last candidate that the limit
    /// admits, and where the counter is full.
    pub fn log_candidate(&mut self, costs: &Vec<usize>, phase: Phase) -> (r: Result<
        (),
        Termination,
    >)
        requires
            old(self).wf(),
        ensures
            final(self).wf(),
            final(self).extends(*old(self)),
            final(self).obj_encs@ == old(self).obj_encs@,
            final(self).within(*old(self)),
            r is Ok ==> final(self).open(*old(self)),
            r matches Err(t) ==> final(self).stopped_by(t),
            final(self).pareto_front == old(self).pareto_front,
            final(self).oracle == old(self).oracle,
            final(self).var_manager == old(self).var_manager,
            final(self).lims ==
                (Limits { candidates: final(self).lims.candidates, ..old(self).lims }),
            final(self).stats ==
                (Stats { n_candidates: final(self).stats.n_candidates, ..old(self).stats }),
            final(self).stats.n_oracle_calls == old(self).stats.n_oracle_calls,
            old(self).stats.n_candidates == usize::MAX ==>
                (r matches Err(Termination::CandidatesLimit)) &&
                    final(self).stats == old(self).stats,
            old(self).stats.n_candidates < usize::MAX ==>
                final(self).stats.n_candidates == old(self).stats.n_candidates + 1,
            r is Ok ==>
                final(self).lims.candidates == spent(old(self).lims.candidates) && !exhausted(
                final(self).lims.candidates,
            ),
            r matches Err(t) ==> t == Termination::CandidatesLimit || t is LoggerError,
            old(self).stats.n_candidates == usize::MAX ==> final(self).loggers == old(self).loggers,
            old(self).stats.n_candidates < usize::MAX ==> told_all_or_failed(
                old(self).loggers.slots@,
                final(self).loggers.slots@,
                (LogEvent::Candidate { costs: costs@, phase }),
                logger_answer(r),
            ),
            none_attached(old(self).loggers.slots@) && old(self).stats.n_candidates < usize::MAX ==>
                {
                &&& final(self).lims.candidates == spent(old(self).lims.candidates)
                &&& r is Ok <==> !exhausted(final(self).lims.candidates)
                &&& r is Err ==> (r matches Err(Termination::CandidatesLimit))
            },
    {
        if self.stats.n_candidates == usize::MAX {
            return Err(Termination::CandidatesLimit);
        }
        self.stats.n_candidates = self.stats.n_candidates + 1;
        match self.loggers.log_candidate(costs, phase) {
            Ok(()) => {},
            Err(e) => {
                return Err(Termination::LoggerError(e));
            },
        }
        if spend(&mut self.lims.candidates) {
            return Err(Termination::CandidatesLimit);
        }
        Ok(())
    }

    /// Counts a call of the oracle and tells the loggers of it. The run
    /// ends where a logger fails, where this was the last call that the
    /// limit admits, and where the counter is full.
    pub fn log_oracle_call(&mut self, result: SolverResult, phase: Phase) -> (r: Result<
        (),
        Termination,
    >)
        requires
            old(self).wf(),
        ensures
            final(self).wf(),
            final(self).extends(*old(self)),
            final(self).obj_encs@ == old(self).obj_encs@,
            final(self).within(*old(self)),
            r is Ok ==> final(self).open(*old(self)),
            r matches Err(t) ==> final(self).stopped_by(t),
            final(self).pareto_front == old(self).pareto_front,
            final(self).oracle == old(self).oracle,
            final(self).var_manager == old(self).var_manager,
            final(self).lims ==
                (Limits { oracle_calls: final(self).lims.oracle_calls, ..old(self).lims }),
            final(self).stats ==
                (Stats { n_oracle_calls: final(self).stats.n_oracle_calls, ..old(self).stats }),
            old(self).stats.n_oracle_calls == usize::MAX ==>
                (r matches Err(Termination::OracleCallsLimit)) &&
                    final(self).stats == old(self).stats,
            old(self).stats.n_oracle_calls < usize::MAX ==>
                final(self).stats.n_oracle_calls == old(self).stats.n_oracle_calls + 1,
            r is Ok ==> final(self).lims.oracle_calls == spent(old(self).lims.oracle_calls)
                && !exhausted(final(self).lims.oracle_calls),
            r matches Err(t) ==> t == Termination::OracleCallsLimit || t is LoggerError,
            old(self).stats.n_oracle_calls == usize::MAX ==> final(self).loggers
                == old(self).loggers,
            old(self).stats.n_oracle_calls < usize::MAX ==> told_all_or_failed(
                old(self).loggers.slots@,
                final(self).loggers.slots@,
                (LogEvent::OracleCall { result, phase }),
                logger_answer(r),
            ),
            none_attached(old(self).loggers.slots@) &&
                old(self).stats.n_oracle_calls < usize::MAX ==> {
                &&& final(self).lims.oracle_calls == spent(old(self).lims.oracle_calls)
                &&& r is Ok <==> !exhausted(final(self).lims.oracle_calls)
                &&& r is Err ==> (r matches Err(Termination::OracleCallsLimit))
            },
    {
        if self.stats.n_oracle_calls == usize::MAX {
            return Err(Termination::OracleCallsLimit);
        }
        self.stats.n_oracle_calls = self.stats.n_oracle_calls + 1;
        match self.loggers.log_oracle_call(result, phase) {
            Ok(()) => {},
            Err(e) => {
                return Err(Termination::LoggerError(e));
            },
        }
        if spend(&mut self.lims.oracle_calls) {
            return Err(Termination::OracleCallsLimit);
        }
        Ok(())
    }

    /// Counts a solution and tells the loggers of it. The run ends where a
    /// logger fails, where this was the last solution that the limit
    /// admits, and where the counter is full.
    pub fn log_solution(&mut self) -> (r: Result<(), Termination>)
        requires
            old(self).wf(),
        ensures
            final(self).wf(),
            final(self).extends(*old(self)),
            final(self).obj_encs@ == old(self).obj_encs@,
            final(self).within(*old(self)),
            r is Ok ==> final(self).open(*old(self)),
            r matches Err(t) ==> final(self).stopped_by(t),
            final(self).pareto_front == old(self).pareto_front,
            final(self).oracle == old(self).oracle,
            final(self).var_manager == old(self).var_manager,
            final(self).lims == (Limits { sols: final(self).lims.sols, ..old(self).lims }),
            final(self).stats ==
                (Stats { n_solutions: final(self).stats.n_solutions, ..old(self).stats }),
            final(self).stats.n_oracle_calls == old(self).stats.n_oracle_calls,
            old(self).stats.n_solutions == usize::MAX ==> (r matches Err(Termination::SolsLimit))
                && final(self).stats == old(self).stats,
            old(self).stats.n_solutions < usize::MAX ==>
                final(self).stats.n_solutions == old(self).stats.n_solutions + 1,
            r is Ok ==> final(self).lims.sols == spent(old(self).lims.sols) && !exhausted(
                final(self).lims.sols,
            ),
            r matches Err(t) ==> t == Termination::SolsLimit || t is LoggerError,
            old(self).stats.n_solutions == usize::MAX ==> final(self).loggers == old(self).loggers,
            old(self).stats.n_solutions < usize::MAX ==> told_all_or_failed(
                old(self).loggers.slots@,
                final(self).loggers.slots@,
                LogEvent::Solution,
                logger_answer(r),
            ),
            none_attached(old(self).loggers.slots@) && old(self).stats.n_solutions < usize::MAX ==>
                {
                &&& final(self).lims.sols == spent(old(self).lims.sols)
                &&& r is Ok <==> !exhausted(final(self).lims.sols)
                &&& r is Err ==> (r matches Err(Termination::SolsLimit))
            },
    {
        if self.stats.n_solutions == usize::MAX {
            return Err(Termination::SolsLimit);
        }
        self.stats.n_solutions = self.stats.n_solutions + 1;
        match self.loggers.log_solution() {
            Ok(()) => {},
            Err(e) => {
                return Err(Termination::LoggerError(e));
            },
        }
        if spend(&mut self.lims.sols) {
            return Err(Termination::SolsLimit);
        }
        Ok(())
    }

    /// Counts a point of the front and tells the loggers of it. The run
    /// ends where a logger fails, where this was the last point that the
    /// limit admits, and where the counter is full.
    pub fn log_pareto_point(&mut self, pareto_point: &NonDomPoint) -> (r: Result<(), Termination>)
        requires
            old(self).wf(),
        ensures
            final(self).wf(),
            final(self).extends(*old(self)),
            final(self).obj_encs@ == old(self).obj_encs@,
            final(self).within(*old(self)),
            r is Ok ==> final(self).open(*old(self)),
            r matches Err(t) ==> final(self).stopped_by(t),
            final(self).pareto_front == old(self).pareto_front,
            final(self).oracle == old(self).oracle,
            final(self).var_manager == old(self).var_manager,
            final(self).lims == (Limits { pps: final(self).lims.pps, ..old(self).lims }),
            final(self).stats ==
                (Stats { n_pareto_points: final(self).stats.n_pareto_points, ..old(self).stats }),
            final(self).stats.n_oracle_calls == old(self).stats.n_oracle_calls,
            old(self).stats.n_pareto_points == usize::MAX ==> (r matches Err(Termination::PPLimit))
                && final(self).stats == old(self).stats,
            old(self).stats.n_pareto_points < usize::MAX ==>
                final(self).stats.n_pareto_points == old(self).stats.n_pareto_points + 1,
            r is Ok ==> final(self).lims.pps == spent(old(self).lims.pps) && !exhausted(
                final(self).lims.pps,
            ),
            r matches Err(t) ==> t == Termination::PPLimit || t is LoggerError,
            old(self).stats.n_pareto_points == usize::MAX ==> final(self).loggers
                == old(self).loggers,
            old(self).stats.n_pareto_points < usize::MAX ==> told_all_or_failed(
                old(self).loggers.slots@,
                final(self).loggers.slots@,
                (LogEvent::ParetoPoint { point: *pareto_point }),
                logger_answer(r),
            ),
            none_attached(old(self).loggers.slots@) &&
                old(self).stats.n_pareto_points < usize::MAX ==> {
                &&& final(self).lims.pps == spent(old(self).lims.pps)
                &&& r is Ok <==> !exhausted(final(self).lims.pps)
                &&& r is Err ==> (r matches Err(Termination::PPLimit))
            },
    {
        if self.stats.n_pareto_points == usize::MAX {
            return Err(Termination::PPLimit);
        }
        self.stats.n_pareto_points = self.stats.n_pareto_points + 1;
        match self.loggers.log_pareto_point(pareto_point) {
            Ok(()) => {},
            Err(e) => {
                return Err(Termination::LoggerError(e));
            },
        }
        if spend(&mut self.lims.pps) {
            return Err(Termination::PPLimit);
        }
        Ok(())
    }

    /// Tells the loggers that a candidate was improved for one objective.
    /// The run ends where a logger fails.
    pub fn log_heuristic_obj_improvement(
        &mut self,
        obj_idx: usize,
        apparent_cost: usize,
        improved_cost: usize,
        learned_clauses: usize,
    ) -> (r: Result<(), Termination>)
        requires
            old(self).wf(),
        ensures
            final(self).wf(),
            final(self).extends(*old(self)),
            final(self).obj_encs@ == old(self).obj_encs@,
            r matches Err(t) ==> final(self).stopped_by(t),
            final(self).pareto_front == old(self).pareto_front,
            final(self).oracle == old(self).oracle,
            final(self).var_manager == old(self).var_manager,
            final(self).stats == old(self).stats,
            final(self).lims == old(self).lims,
            none_attached(old(self).loggers.slots@) ==> r is Ok,
            r matches Err(t) ==> t is LoggerError,
            told_all_or_failed(
                old(self).loggers.slots@,
                final(self).loggers.slots@,
                (LogEvent::Improvement { obj_idx, apparent_cost, improved_cost, learned_clauses }),
                logger_answer(r),
            ),
    {
        match self.loggers.log_heuristic_obj_improvement(
            obj_idx,
            apparent_cost,
            improved_cost,
            learned_clauses,
        ) {
            Ok(()) => Ok(()),
            Err(e) => Err(Termination::LoggerError(e)),
        }
    }
}

/// The termination callback, if there is one, was asked once and answered
/// that the run should stop, if `stop` is set, and that it should go on
/// otherwise. Without a callback nothing stops the run.
pub open spec fn asked<T: Terminator>(before: Option<T>, after: Option<T>, stop: bool) -> bool {
    match (before, after) {
        (Some(a), Some(b)) => T::polled(
            &a,
            &b,
            if stop {
                ControlSignal::Terminate
            } else {
                ControlSignal::Continue
            },
        ),
        (None, None) => !stop,
        _ => false,
    }
}

/// What the loggers answered where telling them ended with `r`: the error
/// of the logger that failed, and `Ok` otherwise.
pub open spec fn logger_answer(r: Result<(), Termination>) -> Result<(), LoggerError> {
    match r {
        Err(Termination::LoggerError(e)) => Err(e),
        _ => Ok(()),
    }
}

/// Under values that make the clauses of a formula and some literals true,
/// the clauses of a formula that is part of it and a part of the literals
/// are true.
pub proof fn lemma_models_part(
    m: Seq<TernaryVal>,
    formula: Seq<Seq<Lit>>,
    lits: Seq<Lit>,
    part: Seq<Seq<Lit>>,
    some: Seq<Lit>,
)
    requires
        crate::oracle::models(m, formula, lits),
        forall|k: int| 0 <= k < part.len() ==> formula.contains(#[trigger] part[k]),
        forall|k: int| 0 <= k < some.len() ==> lits.contains(#[trigger] some[k]),
    ensures
        crate::oracle::models(m, part, some),
{
    assert forall|k: int| 0 <= k < part.len() implies clause_sat(m, #[trigger] part[k]) by {
        let j = choose|j: int| 0 <= j < formula.len() && formula[j] == part[k];
        assert(clause_sat(m, formula[j]));
    }
    assert forall|k: int| 0 <= k < some.len() implies lit_true(m, #[trigger] some[k]) by {
        let j = choose|j: int| 0 <= j < lits.len() && lits[j] == some[k];
        assert(lit_true(m, lits[j]));
    }
}

/// A later state of a solver whose oracle holds the clauses of the
/// encoders holds them too, where the encoders are as they were.
pub proof fn lemma_fed_kept<BCG: BlockingClauseGen, L: WriteSolverLog, T: Terminator>(
    after: PMinimal<BCG, L, T>,
    before: PMinimal<BCG, L, T>,
)
    requires
        before.fed(),
        before.oracle.clauses().is_prefix_of(after.oracle.clauses()),
        after.obj_encs@ == before.obj_encs@,
    ensures
        after.fed(),
{
    assert forall|i: int, k: int|
        0 <= i < after.obj_encs@.len() && 0 <= k < after.obj_encs@[i].spec_clauses().len()
            implies after.oracle.clauses().contains(
        #[trigger] after.obj_encs@[i].spec_clauses()[k],
    ) by {
        let c = before.obj_encs@[i].spec_clauses()[k];
        assert(before.oracle.clauses().contains(c));
        let j = choose|j: int| 0 <= j < before.oracle.clauses().len() && before.oracle.clauses()[j]
            == c;
        assert(after.oracle.clauses()[j] == c);
    }
}

/// A later state of a solver that keeps to the hard clauses keeps to them
/// too, where the front is the same.
pub proof fn lemma_sound_kept<BCG: BlockingClauseGen, L: WriteSolverLog, T: Terminator>(
    after: PMinimal<BCG, L, T>,
    before: PMinimal<BCG, L, T>,
)
    requires
        before.sound(),
        after.extends(before),
        after.pareto_front == before.pareto_front,
    ensures
        after.sound(),
{
    assert forall|i: int| 0 <= i < after.hard@.len() implies clause_below(
        #[trigger] after.hard@[i],
        after.orig_len(),
    ) && after.oracle.clauses().contains(after.hard@[i]) by {
        let c = before.hard@[i];
        assert(before.oracle.clauses().contains(c));
        let j = choose|j: int| 0 <= j < before.oracle.clauses().len() && before.oracle.clauses()[j]
            == c;
        assert(after.oracle.clauses()[j] == c);
    }
}

/// Every solution of the front of a solver that keeps to the hard clauses
/// makes every hard clause of the instance true.
pub proof fn lemma_solutions_satisfy<BCG: BlockingClauseGen, L: WriteSolverLog, T: Terminator>(
    solver: PMinimal<BCG, L, T>,
    k: int,
    j: int,
    i: int,
)
    requires
        solver.sound(),
        0 <= k < solver.pareto_front.ndoms@.len(),
        0 <= j < solver.pareto_front.ndoms@[k].sols@.len(),
        0 <= i < solver.hard@.len(),
    ensures
        clause_sat(solver.pareto_front.ndoms@[k].sols@[j]@, solver.hard@[i]),
{
    assert(point_sound(solver.pareto_front.ndoms@[k], solver.hard@));
    assert(sats_all(solver.pareto_front.ndoms@[k].sols@[j]@, solver.hard@));
}

/// No solution of the front of a solver speaks of a variable above the
/// highest original variable: the variables of the encoders and of the
/// blocks are cut off.
pub proof fn lemma_solutions_cut_off<BCG: BlockingClauseGen, L: WriteSolverLog, T: Terminator>(
    solver: PMinimal<BCG, L, T>,
    k: int,
    j: int,
)
    requires
        solver.wf(),
        0 <= k < solver.pareto_front.ndoms@.len(),
        0 <= j < solver.pareto_front.ndoms@[k].sols@.len(),
    ensures
        solver.pareto_front.ndoms@[k].sols@[j]@.len() <= solver.orig_len(),
        solver.pareto_front.ndoms@[k].sols@.len() >= 1,
{
    assert(cut_off(solver.pareto_front.ndoms@[k], solver.orig_len()));
    assert(point_ok(solver.objs@, solver.pareto_front.ndoms@[k]));
}

/// No point of the front of a solver dominates another, and no two have
/// the same costs.
pub proof fn lemma_front_non_dominated<BCG: BlockingClauseGen, L: WriteSolverLog, T: Terminator>(
    solver: PMinimal<BCG, L, T>,
    i: int,
    j: int,
)
    requires
        solver.wf(),
        0 <= i < solver.pareto_front.ndoms@.len(),
        0 <= j < solver.pareto_front.ndoms@.len(),
        i != j,
    ensures
        !dominates(solver.pareto_front.ndoms@[i].costs@, solver.pareto_front.ndoms@[j].costs@),
        !dominates(solver.pareto_front.ndoms@[j].costs@, solver.pareto_front.ndoms@[i].costs@),
        solver.pareto_front.ndoms@[i].costs@ != solver.pareto_front.ndoms@[j].costs@,
{
    lemma_front_minimal(solver.pareto_front, i, j);
}

/// Every solution in the front of a solver has the costs of its point: in
/// each objective the offset plus the weights of the literals that the
/// solution makes true.
pub proof fn lemma_reported_costs<BCG: BlockingClauseGen, L: WriteSolverLog, T: Terminator>(
    solver: PMinimal<BCG, L, T>,
    k: int,
    q: int,
    i: int,
)
    requires
        solver.wf(),
        0 <= k < solver.pareto_front.ndoms@.len(),
        0 <= q < solver.pareto_front.ndoms@[k].sols@.len(),
        0 <= i < solver.objs@.len(),
    ensures
        solver.pareto_front.ndoms@[k].costs@.len() == solver.objs@.len(),
        solver.pareto_front.ndoms@[k].costs@[i] == solver.objs@[i].spec_offset() + weighted_cost(
            solver.objs@[i].spec_weighted(),
            solver.pareto_front.ndoms@[k].sols@[q]@,
        ),
{
    let p = solver.pareto_front.ndoms@[k];
    assert(point_ok(solver.objs@, p));
    assert(p.costs@[i] == solver.objs@[i].external_cost(p.sols@[q]@));
    lemma_external_cost_is_sum(solver.objs@[i], p.sols@[q]@);
}

} // verus!
