//! The search: candidates from the oracle, their descent to points that
//! nothing dominates, and the enumeration of solutions at those points.

use vstd::prelude::*;

use crate::dominance::lemma_extends_trans;
use crate::front::{admits, NonDomPoint};
use crate::logging::{
    none_attached, told_all_or_failed, BlockingClauseGen, LogEvent, Terminator, WriteSolverLog,
};
use crate::objective::{lemma_cost_agree, Objective};
use crate::options::{exhausted, spent, EnumOptions, Limits, Phase, Stats, Termination};
use crate::oracle::{model_upto, models_below, satisfiable, SolverResult};
use crate::pminimal::{
    accounted, cut_off, lemma_sound_kept, lemma_truncated_sat, point_ok, point_sound, sats_all,
    PMinimal,
};
use crate::tightening::{
    improve, improve_all, improve_objective, lemma_improve_all_costs,
    lemma_improve_all_keeps_clauses, lemma_improve_all_without_tightening, lemma_improve_bounded,
    lits_indexed,
};
use crate::dominance::{
    all_assumps, blocked_at, blocks_dominated, improvable_at, pareto_mcs_lits,
};
use crate::encodings::ObjEncoding;
use crate::options::EncodingError;
use crate::oracle::counted;
use crate::init::clause_below;
use crate::types::{
    clause_sat, lemma_truncated_keeps, lit_true, lit_value, strictly_sorted, truncated,
    Assignment, Clause, Lit, TernaryVal,
};

verus! {

/// `costs` holds the internal cost of `sol` for each objective.
pub open spec fn costs_match(
    objs: Seq<Objective>,
    costs: Seq<usize>,
    sol: Seq<TernaryVal>,
) -> bool {
    &&& costs.len() == objs.len()
    &&& forall|i: int| 0 <= i < objs.len() ==> costs[i] == (#[trigger] objs[i]).internal_cost(sol)
}

/// The internal costs `costs` as the user sees them, objective by
/// objective.
pub open spec fn external_costs(objs: Seq<Objective>, costs: Seq<usize>) -> Seq<isize> {
    Seq::new(costs.len(), |i: int| objs[i].externalized(costs[i] as int) as isize)
}

/// The internal cost of `sol` for each objective.
pub open spec fn costs_of_sol(objs: Seq<Objective>, sol: Seq<TernaryVal>) -> Seq<usize> {
    Seq::new(objs.len(), |i: int| objs[i].internal_cost(sol) as usize)
}

/// `a` is at most `b` in every place, and less in some.
pub open spec fn costs_below(a: Seq<usize>, b: Seq<usize>) -> bool {
    &&& a.len() == b.len()
    &&& forall|i: int| 0 <= i < a.len() ==> a[i] <= b[i]
    &&& a != b
}

/// `a` is at most `b` in every place.
pub open spec fn costs_at_most(a: Seq<usize>, b: Seq<usize>) -> bool {
    &&& a.len() == b.len()
    &&& forall|i: int| 0 <= i < a.len() ==> a[i] <= b[i]
}

/// Whether the costs `a` are at most the costs `b` in every objective and
/// less in some.
fn check_costs_below(a: &Vec<usize>, b: &Vec<usize>) -> (r: bool)
    ensures
        r == costs_below(a@, b@),
{
    if a.len() != b.len() {
        return false;
    }
    let mut less = false;
    let mut i: usize = 0;
    while i < a.len()
        invariant
            i <= a@.len(),
            a@.len() == b@.len(),
            forall|j: int| 0 <= j < i ==> a@[j] <= b@[j],
            less == exists|j: int| 0 <= j < i && a@[j] < b@[j],
        decreases a.len() - i,
    {
        if a[i] > b[i] {
            return false;
        }
        if a[i] < b[i] {
            less = true;
        }
        i += 1;
    }
    proof {
        if !less {
            assert(a@ =~= b@);
        }
    }
    less
}

/// The question for a solution that costs at most `costs`: the
/// assumptions with which the encoders `encs` enforce the bounds, and
/// behind them the switch of the block, where there is one.
pub open spec fn question(encs: Seq<ObjEncoding>, costs: Seq<usize>, switch: Option<Lit>) -> Seq<
    Lit,
> {
    all_assumps(encs, costs, costs.len() as int) + match switch {
        Some(l) => seq![l],
        None => Seq::empty(),
    }
}

/// The formula cannot be satisfied under the question for a solution that
/// costs at most `costs`, as encoders that can enforce these bounds put it.
pub open spec fn refuted_below(
    formula: Seq<Seq<Lit>>,
    costs: Seq<usize>,
    switch: Option<Lit>,
) -> bool {
    exists|encs: Seq<ObjEncoding>|
        encs.len() == costs.len() && (forall|i: int|
            0 <= i < encs.len() ==> (#[trigger] encs[i]).can_enforce(costs[i])) && !satisfiable(
            formula,
            #[trigger] question(encs, costs, switch),
        )
}

/// A solution that the oracle finds under the question for a solution
/// below `costs` costs less: no more than `costs` says in any objective,
/// and less in some. The formula holds the clauses of the encoders, the
/// assumptions are those that bound the costs and behind them the switch,
/// and the last clause of the formula is the block, which holds only where
/// some objective costs less.
pub proof fn lemma_found_below(
    formula: Seq<Seq<Lit>>,
    bounded: Seq<Seq<Lit>>,
    assumps: Seq<Lit>,
    bound_lits: Seq<Lit>,
    switch: Option<Lit>,
    objs: Seq<Objective>,
    costs: Seq<usize>,
    m: Seq<TernaryVal>,
)
    requires
        crate::oracle::models(m, formula, assumps),
        bounded.is_prefix_of(formula),
        crate::dominance::bound_costs(bounded, bound_lits, objs, costs, costs.len() as int),
        costs.len() == objs.len(),
        assumps == bound_lits + match switch {
            Some(l) => seq![l],
            None => Seq::empty(),
        },
        formula.len() > 0,
        switch matches Some(l) ==> formula.last().len() > 0 && formula.last().last()
            == l.spec_not(),
        crate::dominance::blocks_only_dominated(
            formula,
            if switch is Some {
                formula.last().drop_last()
            } else {
                formula.last()
            },
            objs,
            costs,
        ),
    ensures
        costs_below(costs_of_sol(objs, m), costs),
{
    // the bounds
    assert forall|k: int| 0 <= k < bounded.len() implies formula.contains(
        #[trigger] bounded[k],
    ) by {
        assert(formula[k] == bounded[k]);
    }
    assert forall|k: int| 0 <= k < bound_lits.len() implies assumps.contains(
        #[trigger] bound_lits[k],
    ) by {
        assert(assumps[k] == bound_lits[k]);
    }
    crate::pminimal::lemma_models_part(m, formula, assumps, bounded, bound_lits);
    assert(crate::dominance::costs_bounded(objs, m, costs, costs.len() as int));
    // the block
    let block = if switch is Some {
        formula.last().drop_last()
    } else {
        formula.last()
    };
    assert(clause_sat(m, formula[formula.len() - 1]));
    let x = choose|x: int|
        0 <= x < formula.last().len() && lit_true(m, #[trigger] formula.last()[x]);
    if switch is Some {
        let sw = switch->Some_0;
        assert(assumps[assumps.len() - 1] == sw);
        assert(lit_true(m, assumps[assumps.len() - 1]));
        crate::types::lemma_not_involutive(sw);
        if x == formula.last().len() - 1 {
            assert(lit_value(m, sw.spec_not()) == lit_value(m, sw).spec_flip());
        }
        assert(block[x] == formula.last()[x]);
    }
    assert(clause_sat(m, block));
    assert(crate::oracle::models(m, formula, Seq::<Lit>::empty()));
    crate::dominance::lemma_block_means(formula, block, objs, costs, m);
    let i = choose|i: int| 0 <= i < objs.len() && (#[trigger] objs[i]).internal_cost(m) < costs[i];
    assert(costs_of_sol(objs, m)[i] != costs[i]);
    assert forall|k: int| 0 <= k < costs.len() implies costs_of_sol(objs, m)[k] <= costs[k] by {
        assert(objs[k].internal_cost(m) <= costs[k]);
    }
}

/// Whether the run cannot go on after the termination: the oracle or an
/// encoder failed.
pub open spec fn spec_fatal(t: Termination) -> bool {
    t is OracleError || t is EncodingError || t is OracleInconsistent
}

/// Whether the run cannot go on after the termination.
fn fatal(t: &Termination) -> (b: bool)
    ensures
        b == spec_fatal(*t),
{
    match t {
        Termination::OracleError(_) => true,
        Termination::EncodingError(_) => true,
        Termination::OracleInconsistent => true,
        _ => false,
    }
}

impl<BCG: BlockingClauseGen, L: WriteSolverLog, T: Terminator> PMinimal<BCG, L, T> {
    /// Neither the counters nor the limits keep the solver from counting
    /// one more solution and one more point.
    pub open spec fn counts_a_point(self) -> bool {
        &&& self.stats.n_solutions < usize::MAX
        &&& !exhausted(spent(self.lims.sols))
        &&& self.stats.n_pareto_points < usize::MAX
        &&& !exhausted(spent(self.lims.pps))
    }

    /// Improves the candidate `sol` for objective `obj_idx` and returns the
    /// internal cost of the candidate as it is left, which is at most its
    /// cost before. The candidate changes only where a literal of the
    /// objective that was true is made false, and it still satisfies the
    /// clauses that it satisfied where the index is complete for them. The
    /// loggers are told of the cost before and after where an improvement
    /// was wanted, and the clauses learned go to the oracle.
    pub fn get_cost_with_heuristic_improvements(
        &mut self,
        obj_idx: usize,
        sol: &mut Assignment,
        tightening: bool,
        learning: bool,
    ) -> (r: Result<usize, Termination>)
        requires
            old(self).wf(),
            obj_idx < old(self).objs@.len(),
        ensures
            final(self).wf(),
            final(self).extends(*old(self)),
            final(self).obj_encs@ == old(self).obj_encs@,
            r matches Err(t) ==> final(self).stopped_by(t),
            final(self).stats == old(self).stats,
            final(self).lims == old(self).lims,
            final(self).pareto_front == old(self).pareto_front,
            final(sol)@ == improve(
                old(self).index,
                old(self).objs@[obj_idx as int].spec_iter(),
                old(sol)@,
                tightening,
                learning,
            ).sol,
            r matches Ok(cost) ==> {
                &&& cost == old(self).objs@[obj_idx as int].internal_cost(final(sol)@)
                &&& cost <= old(self).objs@[obj_idx as int].internal_cost(old(sol)@)
                &&& final(self).oracle.clauses() == old(self).oracle.clauses() + improve(
                    old(self).index,
                    old(self).objs@[obj_idx as int].spec_iter(),
                    old(sol)@,
                    tightening,
                    learning,
                ).learned
            },
            r matches Err(t) ==> t is LoggerError,
            !tightening && !learning ==> r is Ok,
            none_attached(old(self).loggers.slots@) ==> r is Ok,
            !learning ==> final(self).oracle.clauses() == old(self).oracle.clauses(),
            crate::index::index_complete(old(self).index, old(self).blits@, old(self).hard@)
                ==> crate::tightening::keeps_clauses(
                old(self).blits@,
                old(self).hard@,
                old(sol)@,
                final(sol)@,
            ),
            crate::tightening::only_flips(
                old(self).objs@[obj_idx as int].spec_iter(),
                old(sol)@,
                final(sol)@,
            ),
            !(tightening || learning) ==> final(self).loggers == old(self).loggers,
            tightening || learning ==> told_all_or_failed(
                old(self).loggers.slots@,
                final(self).loggers.slots@,
                (LogEvent::Improvement {
                    obj_idx,
                    apparent_cost: old(self).objs@[obj_idx as int].internal_cost(
                        old(sol)@,
                    ) as usize,
                    improved_cost: old(self).objs@[obj_idx as int].internal_cost(
                        final(sol)@,
                    ) as usize,
                    learned_clauses: improve(
                        old(self).index,
                        old(self).objs@[obj_idx as int].spec_iter(),
                        old(sol)@,
                        tightening,
                        learning,
                    ).learned.len() as usize,
                }),
                match r {
                    Err(Termination::LoggerError(e)) => Err(e),
                    _ => Ok(()),
                },
            ),
    {
        proof {
            assert(self.objs@[obj_idx as int].wf());
            crate::tightening::lemma_improve_only_flips(
                self.index,
                self.objs@[obj_idx as int].spec_iter(),
                sol@,
                tightening,
                learning,
            );
            if crate::index::index_complete(self.index, self.blits@, self.hard@) {
                crate::tightening::lemma_improve_keeps_clauses(
                    self.index,
                    self.blits@,
                    self.hard@,
                    self.objs@[obj_idx as int].spec_iter(),
                    sol@,
                    tightening,
                    learning,
                );
            }
            lemma_improve_bounded(
                self.index,
                self.objs@[obj_idx as int].spec_iter(),
                sol@,
                tightening,
                learning,
            );
            crate::tightening::lemma_max_internal(self.objs@[obj_idx as int]);
        }
        let apparent = self.objs[obj_idx].eval_internal(sol);
        let (_, _, learned) = improve_objective(
            &self.index,
            &self.objs[obj_idx],
            sol,
            tightening,
            learning,
        );
        // A literal that stands twice may have been counted before a flip made it false
        let cost = self.objs[obj_idx].eval_internal(sol);
        proof {
            let obj = self.objs@[obj_idx as int];
            crate::tightening::lemma_improve_no_new_true(
                self.index,
                obj.spec_iter(),
                old(sol)@,
                tightening,
                learning,
            );
            crate::objective::lemma_weighted_cost_mono(obj.spec_iter(), old(sol)@, sol@);
            crate::objective::lemma_internal_cost_is_weighted(obj, old(sol)@);
            crate::objective::lemma_internal_cost_is_weighted(obj, sol@);
        }
        if tightening || learning {
            match self.log_heuristic_obj_improvement(obj_idx, apparent, cost, learned.len()) {
                Ok(()) => {},
                Err(e) => {
                    return Err(e);
                },
            }
        }
        match self.oracle.add_cnf(&learned) {
            Ok(()) => {},
            Err(e) => {
                return Err(Termination::OracleError(e));
            },
        }
        Ok(cost)
    }

    /// Improves the candidate `sol` for every objective in turn, as the
    /// options ask for in `phase`, and returns it with its internal costs.
    pub fn improve_candidate(&mut self, sol: Assignment, phase: Phase) -> (r: Result<
        (Vec<usize>, Assignment),
        Termination,
    >)
        requires
            old(self).wf(),
        ensures
            final(self).wf(),
            final(self).extends(*old(self)),
            final(self).obj_encs@ == old(self).obj_encs@,
            r matches Err(t) ==> final(self).stopped_by(t),
            final(self).stats == old(self).stats,
            final(self).lims == old(self).lims,
            final(self).pareto_front == old(self).pareto_front,
            r matches Ok(out) ==> {
                &&& out.1@ == improve_all(
                    old(self).index,
                    old(self).objs@,
                    sol@,
                    old(self).opts.heuristic_improvements.solution_tightening.spec_wanted(phase),
                    old(self).opts.heuristic_improvements.tightening_clauses.spec_wanted(phase),
                )
                &&& costs_match(old(self).objs@, out.0@, out.1@)
                &&& forall|i: int|
                    0 <= i < old(self).objs@.len() ==> out.0@[i] <= (
                    #[trigger] old(self).objs@[i]).internal_cost(sol@)
            },
            r matches Err(t) ==> t is LoggerError,
            !old(self).opts.heuristic_improvements.solution_tightening.spec_wanted(phase)
                && !old(self).opts.heuristic_improvements.tightening_clauses.spec_wanted(phase)
                ==> r is Ok,
            none_attached(old(self).loggers.slots@) ==> r is Ok,
            !old(self).opts.heuristic_improvements.tightening_clauses.spec_wanted(phase)
                ==> final(self).oracle.clauses() == old(self).oracle.clauses(),
    {
        let ghost given = sol@;
        let mut sol = sol;
        let tightening = self.opts.heuristic_improvements.solution_tightening.wanted(phase);
        let learning = self.opts.heuristic_improvements.tightening_clauses.wanted(phase);
        let mut idx: usize = 0;
        while idx < self.objs.len()
            invariant
                idx <= self.objs@.len(),
                self.wf(),
                self.extends(*old(self)),
                self.obj_encs@ == old(self).obj_encs@,
                self.stats == old(self).stats,
                self.lims == old(self).lims,
                self.pareto_front == old(self).pareto_front,
                none_attached(old(self).loggers.slots@) ==> none_attached(self.loggers.slots@),
                sol@ == improve_all(
                    self.index,
                    self.objs@.subrange(0, idx as int),
                    given,
                    tightening,
                    learning,
                ),
                tightening ==
                    self.opts.heuristic_improvements.solution_tightening.spec_wanted(phase),
                learning == self.opts.heuristic_improvements.tightening_clauses.spec_wanted(phase),
                !learning ==> self.oracle.clauses() == old(self).oracle.clauses(),
            decreases self.objs.len() - idx,
        {
            let ghost before = *self;
            proof {
                assert(self.objs@.subrange(0, idx + 1).drop_last() =~= self.objs@.subrange(
                    0,
                    idx as int,
                ));
                assert(self.objs@.subrange(0, idx + 1).last() == self.objs@[idx as int]);
            }
            let res = self.get_cost_with_heuristic_improvements(
                idx,
                &mut sol,
                tightening,
                learning,
            );
            proof {
                lemma_extends_trans(*self, before, *old(self));
                if none_attached(before.loggers.slots@) {
                    assert forall|i: int| 0 <= i < self.loggers.slots@.len() implies (
                    #[trigger] self.loggers.slots@[i]).is_none() by {
                        assert(before.loggers.slots@[i].is_none());
                    }
                }
            }
            match res {
                Ok(_) => {},
                Err(e) => {
                    return Err(e);
                },
            }
            idx += 1;
        }
        proof {
            assert(self.objs@.subrange(0, self.objs@.len() as int) =~= self.objs@);
        }
        let costs = self.internal_costs(&sol);
        proof {
            assert(lits_indexed(self.index, self.objs@));
            lemma_improve_all_costs(self.index, self.objs@, given, tightening, learning);
        }
        Ok((costs, sol))
    }

    /// The internal cost of `sol` for each objective.
    pub fn internal_costs(&self, sol: &Assignment) -> (costs: Vec<usize>)
        requires
            self.wf(),
        ensures
            costs_match(self.objs@, costs@, sol@),
            forall|i: int|
                0 <= i < self.objs@.len() ==>
                    costs@[i] <= (#[trigger] self.objs@[i]).max_internal(),
    {
        let mut costs: Vec<usize> = Vec::new();
        let mut i: usize = 0;
        while i < self.objs.len()
            invariant
                i <= self.objs@.len(),
                self.wf(),
                costs@.len() == i,
                forall|k: int|
                    0 <= k < i ==> costs@[k] == (#[trigger] self.objs@[k]).internal_cost(sol@)
                        && costs@[k] <= self.objs@[k].max_internal(),
            decreases self.objs.len() - i,
        {
            assert(self.objs@[i as int].wf());
            costs.push(self.objs[i].eval_internal(sol));
            i += 1;
        }
        costs
    }

    /// Whether `sol` has the internal costs `costs`.
    fn has_costs(&self, sol: &Assignment, costs: &Vec<usize>) -> (b: bool)
        requires
            self.wf(),
        ensures
            b == costs_match(self.objs@, costs@, sol@),
    {
        if costs.len() != self.objs.len() {
            return false;
        }
        let mut i: usize = 0;
        while i < self.objs.len()
            invariant
                i <= self.objs@.len(),
                self.wf(),
                costs@.len() == self.objs@.len(),
                forall|k: int|
                    0 <= k < i ==> costs@[k] == (#[trigger] self.objs@[k]).internal_cost(sol@),
            decreases self.objs.len() - i,
        {
            assert(self.objs@[i as int].wf());
            if self.objs[i].eval_internal(sol) != costs[i] {
                return false;
            }
            i += 1;
        }
        true
    }

    /// Takes the oracle's last solution as a candidate, improves it as the
    /// options ask for in `phase`, and returns it with its internal costs.
    pub fn get_solution_and_internal_costs(&mut self, phase: Phase) -> (r: Result<
        (Vec<usize>, Assignment),
        Termination,
    >)
        requires
            old(self).wf(),
            old(self).max_orig_var.is_some(),
        ensures
            final(self).wf(),
            final(self).extends(*old(self)),
            final(self).obj_encs@ == old(self).obj_encs@,
            r matches Err(t) ==> final(self).stopped_by(t),
            final(self).stats == old(self).stats,
            final(self).lims == old(self).lims,
            final(self).pareto_front == old(self).pareto_front,
            r matches Ok(out) ==> costs_match(old(self).objs@, out.0@, out.1@),
            r matches Err(t) ==> t is LoggerError || t is OracleError,
            (r matches Err(Termination::OracleError(_))) <==> !old(self).oracle.has_model(),
            old(self).sound() ==> final(self).sound(),
            old(self).sound() ==> (r matches Ok(out) ==> sats_all(out.1@, old(self).hard@)),
            r matches Ok(out) ==> out.1@ == old(self).candidate(phase),
            r matches Ok(out) ==> costs_at_most(
                out.0@,
                costs_of_sol(old(self).objs@, old(self).oracle.model()),
            ),
            none_attached(old(self).loggers.slots@) && old(self).oracle.has_model() ==> r is Ok,
    {
        let max_var = self.var_manager.max_var().unwrap();
        let sol = match self.oracle.solution(max_var) {
            Ok(sol) => sol,
            Err(e) => {
                return Err(Termination::OracleError(e));
            },
        };
        let ghost found = sol@;
        let r = self.improve_candidate(sol, phase);
        proof {
            if r is Ok {
                let out = r->Ok_0;
                let model = old(self).oracle.model();
                assert forall|i: int| 0 <= i < out.0@.len() implies out.0@[i] <= costs_of_sol(
                    old(self).objs@,
                    model,
                )[i] by {
                    let obj = old(self).objs@[i];
                    assert forall|j: int| 0 <= j < obj.spec_iter().len() implies lit_true(
                        found,
                        (#[trigger] obj.spec_iter()[j]).0,
                    ) == lit_true(model, obj.spec_iter()[j].0) by {
                        assert(obj.spec_iter()[j].0.spec_vidx() < old(self).var_manager.next_var);
                    }
                    lemma_cost_agree(obj, found, model);
                    lemma_internal_le_max(obj, model);
                    crate::tightening::lemma_max_internal(obj);
                }
            }
        }
        proof {
            if old(self).sound() {
                lemma_sound_kept(*self, *old(self));
                let hard = old(self).hard@;
                let formula = old(self).oracle.clauses();
                assert forall|i: int| 0 <= i < hard.len() implies clause_sat(
                    found,
                    #[trigger] hard[i],
                ) by {
                    let j = choose|j: int| 0 <= j < formula.len() && formula[j] == hard[i];
                    assert(clause_below(formula[j], max_var.idx + 1));
                }
                let opts = old(self).opts.heuristic_improvements;
                let tightening = opts.solution_tightening.spec_wanted(phase);
                let learning = opts.tightening_clauses.spec_wanted(phase);
                if opts.spec_must_store_clauses() {
                    lemma_improve_all_keeps_clauses(
                        old(self).index,
                        old(self).blits@,
                        hard,
                        old(self).objs@,
                        found,
                        tightening,
                        learning,
                    );
                } else {
                    lemma_improve_all_without_tightening(
                        old(self).index,
                        old(self).objs@,
                        found,
                        learning,
                    );
                }
            }
        }
        r
    }

    /// Descends from a candidate to a point that nothing dominates: as long
    /// as the oracle finds a solution that costs no more in any objective
    /// and that the block of the current costs admits, that solution is the
    /// next candidate. Returns the last candidate with its costs and, where
    /// solutions are enumerated, the literal that makes the last block
    /// permanent. A solution of the oracle that does not cost less than the
    /// candidate in some objective, or costs more in one, is no candidate:
    /// the oracle is inconsistent. That does not happen where the oracle
    /// holds the clauses of the encoders.
    pub fn p_minimization(&mut self, costs: Vec<usize>, solution: Assignment) -> (r: Result<
        (Vec<usize>, Assignment, Option<Lit>),
        Termination,
    >)
        requires
            old(self).wf(),
            old(self).max_orig_var.is_some(),
            costs_match(old(self).objs@, costs@, solution@),
        ensures
            final(self).wf(),
            final(self).extends(*old(self)),
            final(self).within(*old(self)),
            r is Ok ==> final(self).open(*old(self)),
            r matches Err(t) ==> final(self).ended_by(*old(self), t),
            final(self).pareto_front == old(self).pareto_front,
            r matches Ok(out) ==> {
                &&& costs_match(old(self).objs@, out.0@, out.1@)
                &&& costs_at_most(out.0@, costs@)
                &&& (old(self).opts.enumeration == EnumOptions::NoEnum) == out.2.is_none()
                &&& final(self).stats.n_oracle_calls > old(self).stats.n_oracle_calls
                &&& final(self).oracle.answers().1 > old(self).oracle.answers().1
                &&& !final(self).oracle.has_model()
                &&& old(self).sound() && sats_all(solution@, old(self).hard@) ==> sats_all(
                    out.1@,
                    old(self).hard@,
                )
                &&& out.2 matches Some(switch) ==> {
                    &&& switch.spec_is_neg()
                    &&& old(self).var_manager.next_var <= switch.spec_vidx()
                        < final(self).var_manager.next_var
                    &&& final(self).oracle.clauses().len() > 0
                    &&& final(self).oracle.clauses().last().last() == switch.spec_not()
                }
                &&& refuted_below(final(self).oracle.clauses(), out.0@, out.2)
            },
            old(self).fed() && r is Ok ==> final(self).fed(),
            old(self).fed() ==> !(r matches Err(Termination::OracleInconsistent)),
    {
        let mut cur_costs = costs;
        let mut cur_solution = solution;
        let mut block_switch: Option<Lit> = None;
        loop
            invariant
                self.wf(),
                self.max_orig_var.is_some(),
                self.extends(*old(self)),
                self.within(*old(self)),
                self.open(*old(self)),
                self.pareto_front == old(self).pareto_front,
                costs_match(self.objs@, cur_costs@, cur_solution@),
                costs_at_most(cur_costs@, costs@),
                block_switch.is_some() ==> self.opts.enumeration != EnumOptions::NoEnum,
                self.term_cb.is_some() == old(self).term_cb.is_some(),
                old(self).fed() ==> self.fed(),
                old(self).sound() && sats_all(solution@, old(self).hard@) ==> sats_all(
                    cur_solution@,
                    old(self).hard@,
                ),
            decreases usize::MAX - self.stats.n_oracle_calls,
        {
            let ghost top = *self;
            let asked = self.ask_below(&cur_costs, block_switch);
            proof {
                lemma_extends_trans(*self, top, *old(self));
            }
            let res = match asked {
                Ok((res, switch)) => {
                    block_switch = switch;
                    res
                },
                Err(e) => {
                    return Err(e);
                },
            };
            let ghost s3 = *self;
            proof {
                if old(self).sound() {
                    lemma_sound_kept(s3, *old(self));
                }
            }
            let step = self.descend_from(res, &cur_costs);
            proof {
                lemma_extends_trans(*self, s3, *old(self));
                if old(self).fed() {
                    crate::pminimal::lemma_fed_kept(*self, s3);
                }
            }
            match step {
                Ok(Some((c, s))) => {
                    cur_costs = c;
                    cur_solution = s;
                },
                Ok(None) => {
                    return Ok((cur_costs, cur_solution, block_switch));
                },
                Err(e) => {
                    return Err(e);
                },
            }
        }
    }

    /// Asks the oracle for a solution that dominates the candidate with the
    /// costs `costs`. First the encoders are made to encode the bounds, the
    /// block of the candidate before, whose switch is `earlier`, is made
    /// permanent by the unit clause of its switch, and what the candidate
    /// dominates is blocked by the last clause that the oracle is given:
    /// for good where nothing is enumerated, and else under a fresh switch,
    /// which is returned. Then the oracle is asked under the assumptions
    /// that bound the costs and, where there is one, the switch.
    pub fn ask_below(&mut self, costs: &Vec<usize>, earlier: Option<Lit>) -> (r: Result<
        (SolverResult, Option<Lit>),
        Termination,
    >)
        requires
            old(self).wf(),
            costs@.len() == old(self).objs@.len(),
        ensures
            final(self).wf(),
            final(self).extends(*old(self)),
            final(self).stats == old(self).stats,
            final(self).lims == old(self).lims,
            final(self).pareto_front == old(self).pareto_front,
            r matches Err(t) ==> (t matches Termination::EncodingError(e) && (e
                == EncodingError::OutOfMemory || e == EncodingError::OutOfVariables))
                && final(self).oracle.answers() == old(self).oracle.answers(),
            r matches Ok(out) ==> {
                let formula = final(self).oracle.clauses();
                &&& out.1.is_none() == (old(self).opts.enumeration == EnumOptions::NoEnum)
                &&& final(self).oracle.has_model() == (out.0 == SolverResult::Sat)
                &&& final(self).oracle.answers() == counted(old(self).oracle.answers(), out.0)
                &&& formula.len() > 0
                &&& old(self).opts.enumeration != EnumOptions::NoEnum ==> (earlier matches Some(
                    l,
                ) ==> formula.contains(seq![l]))
                &&& blocks_dominated(
                    old(self).objs@,
                    final(self).obj_encs@,
                    costs@,
                    if out.1 is Some {
                        formula.last().drop_last()
                    } else {
                        formula.last()
                    },
                    old(self).var_manager.next_var,
                    final(self).var_manager.next_var,
                    costs@.len() as int,
                )
                &&& out.1 matches Some(switch) ==> {
                    &&& switch.spec_is_neg()
                    &&& old(self).var_manager.next_var <= switch.spec_vidx()
                        < final(self).var_manager.next_var
                    &&& formula.last().last() == switch.spec_not()
                }
                &&& out.0 == SolverResult::Unsat ==> refuted_below(formula, costs@, out.1)
            },
            old(self).fed() && r is Ok ==> final(self).fed(),
            old(self).fed() ==> (r matches Ok(out) ==> out.0 == SolverResult::Sat ==> costs_below(
                costs_of_sol(old(self).objs@, final(self).oracle.model()),
                costs@,
            )),
    {
        // Force the next solution to dominate the current one
        let ghost s0 = *self;
        let mut assumps = match self.enforce_dominating(costs) {
            Ok(a) => a,
            Err(e) => {
                return Err(e);
            },
        };
        let ghost bounds = self.obj_encs@;
        let ghost bound_lits = assumps@;
        let ghost s1 = *self;
        let ghost mut before_block = *self;
        let mut switch: Option<Lit> = None;
        // Block the solutions that the current one dominates
        if self.opts.enumeration == EnumOptions::NoEnum {
            let blocked = self.block_dominated(costs);
            proof {
                lemma_extends_trans(*self, s1, s0);
            }
            match blocked {
                Ok(()) => {},
                Err(e) => {
                    return Err(e);
                },
            }
        } else {
            if let Some(block_lit) = earlier {
                let _ = self.oracle.add_unit(block_lit);
            }
            let ghost s2 = *self;
            proof {
                before_block = s2;
                if s0.fed() {
                    crate::pminimal::lemma_fed_kept(s2, s1);
                }
            }
            let block_lit = match self.tmp_block_dominated(costs) {
                Ok(l) => l,
                Err(e) => {
                    proof {
                        lemma_extends_trans(*self, s2, s0);
                    }
                    return Err(e);
                },
            };
            proof {
                lemma_extends_trans(*self, s2, s0);
                if let Some(l) = earlier {
                    let at = s2.oracle.clauses().len() - 1;
                    assert(s2.oracle.clauses()[at] == seq![l]);
                    assert(self.oracle.clauses()[at] == seq![l]);
                }
            }
            switch = Some(block_lit);
            assumps.push(block_lit);
        }
        // Ask for a dominating solution
        let ghost s3 = *self;
        let res = match self.oracle.solve_assumps(&assumps) {
            Ok(res) => res,
            Err(e) => {
                return Err(Termination::OracleError(e));
            },
        };
        proof {
            if s0.fed() {
                crate::pminimal::lemma_fed_kept(*self, s3);
                if res == SolverResult::Sat {
                    assert(s1.oracle.clauses().is_prefix_of(s3.oracle.clauses()));
                    assert(assumps@ =~= bound_lits + match switch {
                        Some(l) => seq![l],
                        None => Seq::empty(),
                    });
                    lemma_found_below(
                        self.oracle.clauses(),
                        s1.oracle.clauses(),
                        assumps@,
                        bound_lits,
                        switch,
                        s0.objs@,
                        costs@,
                        self.oracle.model(),
                    );
                }
            }
            let formula = self.oracle.clauses();
            let clause = if switch is Some {
                formula.last().drop_last()
            } else {
                formula.last()
            };
            assert forall|i: int|
                0 <= i < costs@.len() && improvable_at(
                    s0.objs@,
                    costs@,
                    i,
                ) implies #[trigger] blocked_at(
                s0.objs@,
                self.obj_encs@,
                costs@,
                clause,
                s0.var_manager.next_var,
                self.var_manager.next_var,
                i,
            ) by {
                assert(blocked_at(
                    s0.objs@,
                    self.obj_encs@,
                    costs@,
                    clause,
                    s1.var_manager.next_var,
                    self.var_manager.next_var,
                    i,
                ) || blocked_at(
                    s0.objs@,
                    self.obj_encs@,
                    costs@,
                    clause,
                    before_block.var_manager.next_var,
                    self.var_manager.next_var,
                    i,
                ));
            }
            assert(assumps@ =~= question(bounds, costs@, switch));
            if res == SolverResult::Unsat {
                assert(!satisfiable(self.oracle.clauses(), question(bounds, costs@, switch)));
            }
        }
        Ok((res, switch))
    }

    /// What the descent does with the oracle's answer `res` to the question
    /// for a solution that dominates the candidate with the costs `costs`.
    /// Where the oracle gave up the run ends as by the callback. Else the
    /// call of the oracle is counted and logged. Where nothing dominates the
    /// candidate the answer is `None`. Where the oracle holds a solution,
    /// the solution is improved as the options ask and is the next
    /// candidate, which is counted and logged, unless it does not cost less
    /// than the candidate in some objective and no more in any: then the
    /// oracle is inconsistent.
    pub fn descend_from(&mut self, res: SolverResult, costs: &Vec<usize>) -> (r: Result<
        Option<(Vec<usize>, Assignment)>,
        Termination,
    >)
        requires
            old(self).wf(),
            old(self).max_orig_var.is_some(),
            res == SolverResult::Sat ==> old(self).oracle.has_model(),
        ensures
            final(self).wf(),
            final(self).extends(*old(self)),
            final(self).obj_encs@ == old(self).obj_encs@,
            final(self).within(*old(self)),
            r is Ok ==> final(self).open(*old(self)),
            r matches Err(t) ==> final(self).stopped_by(t) && !(t is OracleError),
            r matches Err(Termination::Callback) ==> res == SolverResult::Interrupted
                || final(self).term_cb.is_some(),
            final(self).pareto_front == old(self).pareto_front,
            res != SolverResult::Sat ==> final(self).oracle == old(self).oracle
                && final(self).var_manager == old(self).var_manager,
            res == SolverResult::Interrupted ==> r == Err::<
                Option<(Vec<usize>, Assignment)>,
                Termination,
            >(Termination::Callback) && final(self).stats == old(self).stats && final(self).lims
                == old(self).lims,
            r matches Ok(next) ==> next.is_none() == (res == SolverResult::Unsat),
            r is Ok ==> final(self).stats.n_oracle_calls > old(self).stats.n_oracle_calls,
            r matches Ok(Some(out)) ==> costs_match(old(self).objs@, out.0@, out.1@) && costs_below(
                out.0@,
                costs@,
            ),
            old(self).sound() ==> (r matches Ok(Some(out)) ==> sats_all(
                out.1@,
                old(self).hard@,
            )),
            r matches Ok(Some(out)) ==> out.1@ == old(self).candidate(Phase::Minimization),
            r matches Err(Termination::OracleInconsistent) ==> res == SolverResult::Sat
                && !costs_below(
                costs_of_sol(old(self).objs@, old(self).candidate(Phase::Minimization)),
                costs@,
            ),
            costs_below(costs_of_sol(old(self).objs@, old(self).oracle.model()), costs@) ==> !(
            r matches Err(Termination::OracleInconsistent)),
            res == SolverResult::Sat && old(self).quiet() && old(self).stats.n_candidates
                < usize::MAX && !exhausted(spent(old(self).lims.candidates)) ==> (r is Ok
                <==> costs_below(
                costs_of_sol(old(self).objs@, old(self).candidate(Phase::Minimization)),
                costs@,
            )),
            res == SolverResult::Sat && old(self).quiet() && old(self).stats.n_candidates
                < usize::MAX && !exhausted(spent(old(self).lims.candidates)) ==> (r matches Err(
                t,
            ) ==> t == Termination::OracleInconsistent),
            res == SolverResult::Unsat && none_attached(old(self).loggers.slots@)
                && old(self).stats.n_oracle_calls < usize::MAX && !exhausted(
                spent(old(self).lims.oracle_calls),
            ) ==> r is Ok,
    {
        if res == SolverResult::Interrupted {
            return Err(Termination::Callback);
        }
        let logged = self.log_oracle_call(res, Phase::Minimization);
        match logged {
            Ok(()) => {},
            Err(e) => {
                return Err(e);
            },
        }
        if res == SolverResult::Unsat {
            return Ok(None);
        }
        let ghost s4 = *self;
        let polled = self.check_terminator();
        proof {
            lemma_extends_trans(*self, s4, *old(self));
        }
        match polled {
            Ok(()) => {},
            Err(e) => {
                return Err(e);
            },
        }
        let ghost s5 = *self;
        proof {
            if old(self).sound() {
                lemma_sound_kept(s5, *old(self));
            }
            if none_attached(old(self).loggers.slots@) {
                crate::logging::lemma_none_attached_kept(
                    old(self).loggers.slots@,
                    s5.loggers.slots@,
                );
            }
        }
        let found = self.get_solution_and_internal_costs(Phase::Minimization);
        proof {
            lemma_extends_trans(*self, s5, *old(self));
        }
        proof {
            assert(s5.candidate(Phase::Minimization) == old(self).candidate(Phase::Minimization));
            if found is Ok {
                assert(found->Ok_0.0@ =~= costs_of_sol(self.objs@, found->Ok_0.1@));
                let below = costs_of_sol(old(self).objs@, old(self).oracle.model());
                if costs_below(below, costs@) {
                    let c = found->Ok_0.0@;
                    assert(s5.oracle == old(self).oracle);
                    if c == costs@ {
                        assert(below =~= costs@);
                    }
                    assert(costs_below(c, costs@));
                }
            }
        }
        let (next_costs, next_solution) = match found {
            Ok((c, s)) => {
                if !check_costs_below(&c, costs) {
                    return Err(Termination::OracleInconsistent);
                }
                (c, s)
            },
            Err(e) => {
                return Err(e);
            },
        };
        let ghost s6 = *self;
        proof {
            if none_attached(old(self).loggers.slots@) {
                assert forall|i: int| 0 <= i < s6.loggers.slots@.len() implies (
                #[trigger] s6.loggers.slots@[i]).is_none() by {
                    assert(old(self).loggers.slots@[i].is_none());
                }
            }
        }
        let logged = self.log_candidate(&next_costs, Phase::Minimization);
        proof {
            lemma_extends_trans(*self, s6, *old(self));
        }
        match logged {
            Ok(()) => {},
            Err(e) => {
                return Err(e);
            },
        }
        let ghost s7 = *self;
        let polled = self.check_terminator();
        proof {
            lemma_extends_trans(*self, s7, *old(self));
        }
        match polled {
            Ok(()) => {},
            Err(e) => {
                return Err(e);
            },
        }
        Ok(Some((next_costs, next_solution)))
    }

    /// Finds the solutions at the point with the internal costs `costs`,
    /// starting with `solution`, and adds them to `pareto_point`.
    ///
    /// Each solution is counted and then blocked in the oracle, by the
    /// blocking clause generator or, for Pareto-MCSs, by the negations of
    /// the objective literals that it makes true; then the oracle is asked
    /// for another under `assumps`. The search ends when the oracle finds
    /// no more, when the point has as many solutions as the options admit,
    /// and with the termination that a limit, a logger, the callback or the
    /// oracle brings about. A solution of the oracle that does not have the
    /// costs of the point is not taken up: the oracle is inconsistent.
    pub fn enumerate_solutions(
        &mut self,
        pareto_point: &mut NonDomPoint,
        costs: &Vec<usize>,
        assumps: &Vec<Lit>,
        solution: Assignment,
    ) -> (r: Result<(), Termination>)
        requires
            old(self).wf(),
            old(self).max_orig_var.is_some(),
            old(pareto_point).sols@.len() == 0,
            old(pareto_point).costs@.len() == old(self).objs@.len(),
            forall|i: int|
                0 <= i < old(self).objs@.len() ==> old(pareto_point).costs@[i] == (
                #[trigger] old(self).objs@[i]).externalized(costs@[i] as int),
            costs_match(old(self).objs@, costs@, solution@),
        ensures
            final(self).wf(),
            final(self).extends(*old(self)),
            final(self).within(*old(self)),
            final(self).var_manager == old(self).var_manager,
            final(self).lims.pps == old(self).lims.pps,
            final(self).stats.n_pareto_points == old(self).stats.n_pareto_points,
            r is Ok ==> final(self).open(*old(self)),
            r matches Err(t) ==> final(self).ended_by(*old(self), t),
            final(self).pareto_front == old(self).pareto_front,
            final(pareto_point).costs@ == old(pareto_point).costs@,
            point_ok(old(self).objs@, *final(pareto_point)),
            final(pareto_point).sols@[0]@ == solution@,
            old(self).opts.enumeration == EnumOptions::NoEnum && r is Ok ==>
                final(pareto_point).sols@.len() == 1,
            final(pareto_point).sols@.len() == 1 || !old(self).opts.enumeration.spec_reached(
                (final(pareto_point).sols@.len() - 1) as nat,
            ),
            solution@.len() <= old(self).orig_len() ==> cut_off(
                *final(pareto_point),
                old(self).orig_len(),
            ),
            old(self).sound() && sats_all(solution@, old(self).hard@) ==> point_sound(
                *final(pareto_point),
                old(self).hard@,
            ),
            old(self).opts.enumeration == EnumOptions::NoEnum ==> final(self).oracle
                == old(self).oracle,
            old(self).first_is_last() ==> r is Err && final(pareto_point).sols@.len() == 1
                && final(self).oracle == old(self).oracle,
            old(self).first_is_last() && none_attached(old(self).loggers.slots@) ==> r == Err::<
                (),
                Termination,
            >(Termination::SolsLimit),
            old(self).opts.enumeration == EnumOptions::NoEnum && none_attached(
                old(self).loggers.slots@,
            ) && !old(self).first_is_last() ==> r is Ok,
            r is Ok ==> old(self).opts.enumeration.spec_reached(final(pareto_point).sols@.len())
                || (final(self).oracle.answers().1 > old(self).oracle.answers().1
                && !final(self).oracle.has_model()),
    {
        let mut current = solution;
        let max_orig = self.max_orig_var.unwrap();
        loop
            invariant
                self.wf(),
                self.max_orig_var == Some(max_orig),
                self.extends(*old(self)),
                self.within(*old(self)),
                self.var_manager == old(self).var_manager,
                self.lims.pps == old(self).lims.pps,
                self.stats.n_pareto_points == old(self).stats.n_pareto_points,
                self.open(*old(self)),
                self.pareto_front == old(self).pareto_front,
                pareto_point.costs@ == old(pareto_point).costs@,
                pareto_point.costs@.len() == self.objs@.len(),
                forall|i: int|
                    0 <= i < self.objs@.len() ==> pareto_point.costs@[i] == (
                    #[trigger] self.objs@[i]).externalized(costs@[i] as int),
                forall|k: int, i: int|
                    0 <= k < pareto_point.sols@.len() && 0 <= i < self.objs@.len()
                        ==> pareto_point.costs@[i] == #[trigger] self.objs@[i].external_cost(
                        pareto_point.sols@[k]@,
                    ),
                costs_match(self.objs@, costs@, current@),
                pareto_point.sols@.len() > 0 ==> pareto_point.sols@[0]@ == solution@,
                pareto_point.sols@.len() == 0 ==> current@ == solution@,
                solution@.len() <= self.orig_len() ==> current@.len() <= self.orig_len() && cut_off(
                    *pareto_point,
                    self.orig_len(),
                ),
                old(self).sound() && sats_all(solution@, old(self).hard@) ==> sats_all(
                    current@,
                    old(self).hard@,
                ) && point_sound(*pareto_point, old(self).hard@),
                self.opts.enumeration == EnumOptions::NoEnum ==> pareto_point.sols@.len() == 0,
                self.opts == old(self).opts,
                pareto_point.sols@.len() > 0 ==> !self.opts.enumeration.spec_reached(
                    pareto_point.sols@.len(),
                ),
                pareto_point.sols@.len() == 0 ==> self.oracle == old(self).oracle && self.stats
                    == old(self).stats && self.lims == old(self).lims && self.loggers == old(
                    self,
                ).loggers,
                pareto_point.sols@.len() > 0 ==> !old(self).first_is_last(),
            decreases usize::MAX - self.stats.n_oracle_calls,
        {
            let copy = current.duplicate();
            let ghost sols_before = pareto_point.sols@;
            pareto_point.add_sol(copy);
            proof {
                if sols_before.len() == 0 {
                    assert(pareto_point.sols@[0] == copy);
                } else {
                    assert(pareto_point.sols@[0] == sols_before[0]);
                }
                assert forall|k: int, i: int|
                    0 <= k < pareto_point.sols@.len() && 0 <= i < self.objs@.len()
                        implies pareto_point.costs@[i] == #[trigger] self.objs@[i].external_cost(
                    pareto_point.sols@[k]@,
                ) by {
                    if k < sols_before.len() {
                        assert(pareto_point.sols@[k] == sols_before[k]);
                    } else {
                        assert(pareto_point.sols@[k]@ == current@);
                        assert(costs@[i] == self.objs@[i].internal_cost(current@));
                    }
                }
            }
            let ghost s0 = *self;
            let logged = self.log_solution();
            proof {
                lemma_extends_trans(*self, s0, *old(self));
            }
            match logged {
                Ok(()) => {},
                Err(e) => {
                    return Err(e);
                },
            }
            if self.opts.enumeration.reached(pareto_point.n_sols()) {
                return Ok(());
            }
            let ghost s1 = *self;
            let polled = self.check_terminator();
            proof {
                lemma_extends_trans(*self, s1, *old(self));
            }
            match polled {
                Ok(()) => {},
                Err(e) => {
                    return Err(e);
                },
            }
            // Block the last solution
            let ghost s15 = *self;
            if !self.block_solution(current) {
                return Ok(());
            }
            proof {
                lemma_extends_trans(*self, s15, *old(self));
            }
            // Ask for the next solution
            let res = match self.oracle.solve_assumps(assumps) {
                Ok(res) => res,
                Err(e) => {
                    return Err(Termination::OracleError(e));
                },
            };
            let ghost s2 = *self;
            let next = self.next_at_point(res, costs);
            proof {
                lemma_extends_trans(*self, s2, *old(self));
                if old(self).sound() {
                    lemma_sound_kept(*self, *old(self));
                    if next is Ok && next->Ok_0 is Some {
                        let found = next->Ok_0->Some_0@;
                        let hard = old(self).hard@;
                        let formula = self.oracle.clauses();
                        assert forall|i: int| 0 <= i < hard.len() implies clause_sat(
                            found,
                            #[trigger] hard[i],
                        ) by {
                            let j = choose|j: int| 0 <= j < formula.len() && formula[j] == hard[i];
                            assert(clause_below(formula[j], self.orig_len()));
                        }
                    }
                }
            }
            current = match next {
                Ok(Some(sol)) => sol,
                Ok(None) => {
                    return Ok(());
                },
                Err(e) => {
                    return Err(e);
                },
            };
        }
    }

    /// Keeps the oracle from finding `sol` again, as the options say: by
    /// the clause of the blocking clause generator where solutions are
    /// enumerated, and by the negations of the objective literals that
    /// `sol` makes true where Pareto-MCSs are. The clause is the one clause
    /// that the oracle is given. Where nothing is enumerated nothing is
    /// blocked, and the answer is `false`.
    pub fn block_solution(&mut self, sol: Assignment) -> (blocked: bool)
        requires
            old(self).wf(),
        ensures
            final(self).wf(),
            final(self).extends(*old(self)),
            final(self).obj_encs@ == old(self).obj_encs@,
            final(self).stats == old(self).stats,
            final(self).lims == old(self).lims,
            final(self).pareto_front == old(self).pareto_front,
            final(self).var_manager == old(self).var_manager,
            final(self).term_cb == old(self).term_cb,
            final(self).loggers == old(self).loggers,
            blocked == (old(self).opts.enumeration != EnumOptions::NoEnum),
            !blocked ==> final(self).oracle == old(self).oracle,
            blocked ==> final(self).oracle.clauses().len() == old(self).oracle.clauses().len() + 1
                && final(self).oracle.clauses().drop_last() == old(self).oracle.clauses(),
            old(self).opts.enumeration is PMCSs ==> strictly_sorted(
                final(self).oracle.clauses().last(),
            ) && forall|l: Lit|
                final(self).oracle.clauses().last().contains(l) <==> pareto_mcs_lits(
                    old(self).objs@,
                    sol@,
                ).contains(l),
            old(self).opts.enumeration is Solutions ==> exists|c: Clause|
                final(self).oracle.clauses().last() == c@ && #[trigger] BCG::made(
                    &old(self).block_clause_gen,
                    &final(self).block_clause_gen,
                    sol,
                    c,
                ),
    {
        let block_clause = match self.opts.enumeration {
            EnumOptions::Solutions(_) => self.block_clause_gen.blocking_clause(sol),
            EnumOptions::PMCSs(_) => self.block_pareto_mcs(&sol),
            EnumOptions::NoEnum => {
                return false;
            },
        };
        let ghost before = self.oracle.clauses();
        let _ = self.oracle.add_clause(&block_clause);
        proof {
            assert(self.oracle.clauses().drop_last() =~= before);
            if old(self).opts.enumeration is Solutions {
                assert(self.oracle.clauses().last() == block_clause@);
                assert(BCG::made(
                    &old(self).block_clause_gen,
                    &self.block_clause_gen,
                    sol,
                    block_clause,
                ));
            }
        }
        true
    }

    /// What the enumeration at a point does with the oracle's answer `res`
    /// to the question for one more solution. Where the oracle gave up the
    /// run ends as by the callback. Else the call of the oracle is counted
    /// and logged. Where there is no more solution the answer is `None`.
    /// Where the oracle holds one, it is cut down to the variables of the
    /// instance and is the answer, unless it does not have the costs
    /// `costs` of the point: then the oracle is inconsistent.
    pub fn next_at_point(&mut self, res: SolverResult, costs: &Vec<usize>) -> (r: Result<
        Option<Assignment>,
        Termination,
    >)
        requires
            old(self).wf(),
            old(self).max_orig_var.is_some(),
            res == SolverResult::Sat ==> old(self).oracle.has_model(),
        ensures
            final(self).wf(),
            final(self).extends(*old(self)),
            final(self).obj_encs@ == old(self).obj_encs@,
            final(self).within(*old(self)),
            final(self).lims.pps == old(self).lims.pps,
            final(self).stats.n_pareto_points == old(self).stats.n_pareto_points,
            r is Ok ==> final(self).open(*old(self)),
            r matches Err(t) ==> final(self).stopped_by(t) && !(t is OracleError),
            r matches Err(Termination::Callback) ==> res == SolverResult::Interrupted
                || final(self).term_cb.is_some(),
            final(self).oracle == old(self).oracle,
            final(self).pareto_front == old(self).pareto_front,
            final(self).var_manager == old(self).var_manager,
            res == SolverResult::Interrupted ==> r == Err::<Option<Assignment>, Termination>(
                Termination::Callback,
            ) && final(self).stats == old(self).stats && final(self).lims == old(self).lims,
            r matches Ok(next) ==> next.is_none() == (res == SolverResult::Unsat),
            r is Ok ==> final(self).stats.n_oracle_calls > old(self).stats.n_oracle_calls,
            r matches Ok(Some(sol)) ==> sol@ == model_upto(
                old(self).oracle.model(),
                old(self).orig_len(),
            ),
            r matches Err(Termination::OracleInconsistent) ==> res == SolverResult::Sat
                && !costs_match(
                old(self).objs@,
                costs@,
                model_upto(old(self).oracle.model(), old(self).orig_len()),
            ),
            res == SolverResult::Sat && old(self).quiet() ==> (r is Ok <==> costs_match(
                old(self).objs@,
                costs@,
                model_upto(old(self).oracle.model(), old(self).orig_len()),
            )),
            res == SolverResult::Sat && old(self).quiet() ==> (r matches Err(t) ==> t
                == Termination::OracleInconsistent),
            r matches Ok(Some(sol)) ==> costs_match(old(self).objs@, costs@, sol@) && sol@.len()
                == old(self).orig_len() && models_below(
                sol@,
                final(self).oracle.clauses(),
                old(self).orig_len(),
            ),
            res == SolverResult::Unsat && none_attached(old(self).loggers.slots@)
                && old(self).stats.n_oracle_calls < usize::MAX && !exhausted(
                spent(old(self).lims.oracle_calls),
            ) ==> r is Ok,
    {
        if res == SolverResult::Interrupted {
            return Err(Termination::Callback);
        }
        let logged = self.log_oracle_call(res, Phase::Enumeration);
        match logged {
            Ok(()) => {},
            Err(e) => {
                return Err(e);
            },
        }
        if res == SolverResult::Unsat {
            return Ok(None);
        }
        let ghost s3 = *self;
        let polled = self.check_terminator();
        proof {
            lemma_extends_trans(*self, s3, *old(self));
        }
        match polled {
            Ok(()) => {},
            Err(e) => {
                return Err(e);
            },
        }
        let max_orig = self.max_orig_var.unwrap();
        let sol = match self.oracle.solution(max_orig) {
            Ok(sol) => sol,
            Err(e) => {
                return Err(Termination::OracleError(e));
            },
        };
        if !self.has_costs(&sol, costs) {
            return Err(Termination::OracleInconsistent);
        }
        Ok(Some(sol))
    }

    /// Completes the point with the internal costs `costs`, which nothing
    /// dominates, and adds it to the front: the solutions at the point are
    /// enumerated as the options say, starting with `solution` cut down to
    /// the variables of the instance.
    ///
    /// Where nothing is enumerated, the encoders have encoded the bounds
    /// and the front admits the point, the call succeeds unless a logger, a
    /// counter or a limit is in the way, and the oracle is left as it is.
    ///
    /// The enumeration is through when the point has as many solutions as
    /// the options admit, and when the oracle finds no more. The point is
    /// added with the solutions found when the enumeration is through, and
    /// also when a limit, a logger or the callback ends it. It
    /// is not added where the oracle or an encoder fails, nor where the
    /// front holds a point that is comparable with it: that the oracle
    /// should not have allowed.
    pub fn enumerate_at_pareto_point(&mut self, costs: Vec<usize>, solution: Assignment) -> (r:
        Result<(), Termination>)
        requires
            old(self).wf(),
            old(self).max_orig_var.is_some(),
            costs_match(old(self).objs@, costs@, solution@),
        ensures
            final(self).wf(),
            final(self).extends(*old(self)),
            final(self).within(*old(self)),
            r is Ok ==> final(self).open(*old(self)),
            r matches Err(t) ==> final(self).ended_by(*old(self), t),
            final(self).pareto_front.ndoms@.len() <= old(self).pareto_front.ndoms@.len() + 1,
            final(self).pareto_front.ndoms@.len() == old(self).pareto_front.ndoms@.len() + 1 ==> {
                let p = final(self).pareto_front.ndoms@.last();
                &&& forall|i: int|
                    0 <= i < old(self).objs@.len() ==> p.costs@[i] == (
                    #[trigger] old(self).objs@[i]).externalized(costs@[i] as int)
                &&& p.sols@[0]@ == truncated(solution@, old(self).max_orig_var.unwrap().idx as int)
                &&& old(self).opts.enumeration == EnumOptions::NoEnum && r is Ok ==>
                    p.sols@.len() == 1
                &&& p.sols@.len() == 1 || !old(self).opts.enumeration.spec_reached(
                    (p.sols@.len() - 1) as nat,
                )
            },
            r matches Err(t) && !spec_fatal(t) ==>
                final(self).pareto_front.ndoms@.len() == old(self).pareto_front.ndoms@.len() + 1,
            r is Ok ==> old(self).opts.enumeration.spec_reached(
                final(self).pareto_front.ndoms@.last().sols@.len(),
            ) || final(self).oracle.answers().1 > old(self).oracle.answers().1,
            old(self).opts.enumeration == EnumOptions::NoEnum || old(self).first_is_last()
                ==> final(self).oracle.answers() == old(self).oracle.answers(),
            final(self).pareto_front.ndoms@.len() == old(self).pareto_front.ndoms@.len() + 1
                ==> final(self).stats.n_pareto_points == old(self).stats.n_pareto_points + 1
                || old(self).stats.n_pareto_points == usize::MAX,
            old(self).opts.enumeration == EnumOptions::NoEnum && crate::dominance::bounds_settled(
                old(self).obj_encs@,
                costs@,
            ) && old(self).rooms(costs@) && admits(
                old(self).pareto_front.costs(),
                external_costs(old(self).objs@, costs@),
            ) && none_attached(old(self).loggers.slots@) && old(self).counts_a_point() ==> r is Ok
                && final(self).oracle == old(self).oracle && final(self).var_manager == old(
                self,
            ).var_manager,
            old(self).first_is_last() ==> r is Err,
            old(self).first_is_last() && final(self).pareto_front.ndoms@.len() == old(
                self,
            ).pareto_front.ndoms@.len() + 1 ==> final(self).pareto_front.ndoms@.last().sols@.len()
                == 1,
            r matches Err(t) ==> old(self).first_is_last() && none_attached(
                old(self).loggers.slots@,
            ) && !spec_fatal(t) ==> t == Termination::SolsLimit || t == Termination::PPLimit,
            old(self).sound() && sats_all(solution@, old(self).hard@) ==> final(self).sound(),
            r is Ok ==> final(self).pareto_front.ndoms@.len() == old(self).pareto_front.ndoms@.len()
                + 1,
            r matches Err(t) && spec_fatal(t) ==>
                final(self).pareto_front == old(self).pareto_front,
    {
        let ghost s0 = *self;
        let ghost sound = old(self).sound() && sats_all(solution@, old(self).hard@);
        // Assumptions that keep the oracle at the point
        let assumps = match self.enforce_dominating(&costs) {
            Ok(a) => a,
            Err(e) => {
                proof {
                    if sound {
                        lemma_sound_kept(*self, s0);
                    }
                }
                return Err(e);
            },
        };
        proof {
            if sound {
                lemma_sound_kept(*self, s0);
            }
        }
        proof {
            assert forall|i: int| 0 <= i < costs@.len() implies costs@[i] <= (
            #[trigger] self.objs@[i]).max_internal() by {
                lemma_internal_le_max(self.objs@[i], solution@);
            }
        }
        let ext = self.externalize_internal_costs(&costs);
        assert(ext@ =~= external_costs(self.objs@, costs@));
        if !self.pareto_front.admits(&ext) {
            return Err(Termination::OracleInconsistent);
        }
        let max_orig = self.max_orig_var.unwrap();
        let ghost full = solution@;
        let first = solution.truncate(max_orig);
        proof {
            assert forall|i: int| 0 <= i < self.objs@.len() implies costs@[i] == (
            #[trigger] self.objs@[i]).internal_cost(first@) by {
                let obj = self.objs@[i];
                assert forall|j: int| 0 <= j < obj.spec_iter().len() implies lit_true(
                    full,
                    (#[trigger] obj.spec_iter()[j]).0,
                ) == lit_true(first@, obj.spec_iter()[j].0) by {
                    lemma_truncated_keeps(full, max_orig.idx as int, obj.spec_iter()[j].0);
                }
                lemma_cost_agree(obj, full, first@);
            }
        }
        let mut pareto_point = NonDomPoint::new(ext);
        let ghost s1 = *self;
        proof {
            if none_attached(s0.loggers.slots@) {
                crate::logging::lemma_none_attached_kept(s0.loggers.slots@, s1.loggers.slots@);
            }
            if sound {
                assert forall|i: int| 0 <= i < s0.hard@.len() implies clause_sat(
                    first@,
                    #[trigger] s0.hard@[i],
                ) by {
                    lemma_truncated_sat(full, max_orig.idx + 1, s0.hard@[i]);
                }
            }
        }
        let res = self.enumerate_solutions(&mut pareto_point, &costs, &assumps, first);
        proof {
            lemma_extends_trans(*self, s1, s0);
            if sound {
                lemma_sound_kept(*self, s0);
            }
        }
        match res {
            Ok(()) => {
                let ghost s2 = *self;
                proof {
                    if none_attached(s0.loggers.slots@) {
                        crate::logging::lemma_none_attached_kept(
                            s0.loggers.slots@,
                            s2.loggers.slots@,
                        );
                    }
                }
                let pp_term = self.log_pareto_point(&pareto_point);
                proof {
                    lemma_extends_trans(*self, s2, s0);
                    if sound {
                        lemma_sound_kept(*self, s0);
                    }
                }
                self.add_point(pareto_point);
                pp_term
            },
            Err(term) => {
                if fatal(&term) {
                    Err(term)
                } else {
                    let ghost s2 = *self;
                    proof {
                        if none_attached(s0.loggers.slots@) {
                            assert forall|i: int| 0 <= i < s2.loggers.slots@.len() implies (
                            #[trigger] s2.loggers.slots@[i]).is_none() by {
                                assert(s0.loggers.slots@[i].is_none());
                            }
                        }
                    }
                    let pp_term = self.log_pareto_point(&pareto_point);
                    proof {
                        lemma_extends_trans(*self, s2, s0);
                        if sound {
                            lemma_sound_kept(*self, s0);
                        }
                    }
                    self.add_point(pareto_point);
                    match pp_term {
                        Ok(()) => Err(term),
                        Err(e) => Err(e),
                    }
                }
            },
        }
    }

    /// Adds to the front a point that the front admits.
    fn add_point(&mut self, pareto_point: NonDomPoint)
        requires
            old(self).wf(),
            point_ok(old(self).objs@, pareto_point),
            cut_off(pareto_point, old(self).orig_len()),
            admits(old(self).pareto_front.costs(), pareto_point.costs@),
        ensures
            final(self).wf(),
            final(self).extends(*old(self)),
            final(self).pareto_front.ndoms@ == old(self).pareto_front.ndoms@.push(pareto_point),
            final(self).stats == old(self).stats,
            final(self).lims == old(self).lims,
            final(self).oracle == old(self).oracle,
            final(self).var_manager == old(self).var_manager,
            old(self).sound() && point_sound(pareto_point, old(self).hard@) ==> final(self).sound(),
    {
        let r = self.pareto_front.add_pp(pareto_point);
        proof {
            assert(r is Ok);
            if old(self).sound() && point_sound(pareto_point, old(self).hard@) {
                assert forall|k: int| 0 <= k < self.pareto_front.ndoms@.len() implies point_sound(
                    #[trigger] self.pareto_front.ndoms@[k],
                    self.hard@,
                ) by {
                    if k < old(self).pareto_front.ndoms@.len() {
                        assert(self.pareto_front.ndoms@[k] == old(self).pareto_front.ndoms@[k]);
                    }
                }
            }
            assert forall|k: int| 0 <= k < self.pareto_front.ndoms@.len() implies point_ok(
                self.objs@,
                #[trigger] self.pareto_front.ndoms@[k],
            ) && cut_off(self.pareto_front.ndoms@[k], self.orig_len()) by {
                if k < old(self).pareto_front.ndoms@.len() {
                    assert(self.pareto_front.ndoms@[k] == old(self).pareto_front.ndoms@[k]);
                }
            }
        }
    }

    /// The point of an instance without variables: the offsets of the
    /// objectives, with the empty assignment as its one solution.
    pub open spec fn offset_point(self, p: NonDomPoint) -> bool {
        &&& p.sols@.len() == 1
        &&& p.sols@[0]@.len() == 0
        &&& p.costs@.len() == self.objs@.len()
        &&& forall|i: int|
            0 <= i < self.objs@.len() ==> p.costs@[i] == (#[trigger] self.objs@[i]).spec_offset()
    }

    /// The first solution of a point is one too many: the counter of
    /// solutions is full, or nothing is left of the limit on solutions once
    /// it is counted.
    pub open spec fn first_is_last(self) -> bool {
        self.stats.n_solutions == usize::MAX || exhausted(spent(self.lims.sols))
    }

    /// Nothing but the oracle's answer decides how a step ends that counts a
    /// call of the oracle: no logger is attached and no callback, the
    /// counter of calls is not full, and the limit on calls admits one
    /// more.
    pub open spec fn quiet(self) -> bool {
        &&& none_attached(self.loggers.slots@)
        &&& self.term_cb.is_none()
        &&& self.stats.n_oracle_calls < usize::MAX
        &&& !exhausted(spent(self.lims.oracle_calls))
    }

    /// The candidate that the solver makes of the oracle's model in
    /// `phase`: the model over all variables in use, improved as the
    /// options ask.
    pub open spec fn candidate(self, phase: Phase) -> Seq<TernaryVal> {
        improve_all(
            self.index,
            self.objs@,
            model_upto(self.oracle.model(), self.var_manager.next_var as int),
            self.opts.heuristic_improvements.solution_tightening.spec_wanted(phase),
            self.opts.heuristic_improvements.tightening_clauses.spec_wanted(phase),
        )
    }

    /// How the run ends that adds the point of the offsets, where no logger
    /// is attached: with the limit on points where the point is one too
    /// many, else with the limit on solutions where its solution is, and
    /// with `Ok` where neither is.
    pub open spec fn offset_point_ends(self) -> Result<(), Termination> {
        if self.stats.n_pareto_points == usize::MAX || exhausted(spent(self.lims.pps)) {
            Err(Termination::PPLimit)
        } else if self.stats.n_solutions == usize::MAX || exhausted(spent(self.lims.sols)) {
            Err(Termination::SolsLimit)
        } else {
            Ok(())
        }
    }

    /// The main routine: as long as the oracle finds a solution, the
    /// solution is a candidate that descends to a point that nothing
    /// dominates, and the point is completed and added to the front. The
    /// run is through when the oracle finds the formula unsatisfiable.
    ///
    /// An instance without variables has the one point of the offsets, with
    /// the empty assignment as its solution. The point is added to the
    /// front also where a limit or a logger ends the run: its solution was
    /// found. The oracle is not asked.
    pub fn alg_main(&mut self) -> (r: Result<(), Termination>)
        requires
            old(self).wf(),
        ensures
            final(self).wf(),
            final(self).extends(*old(self)),
            final(self).within(*old(self)),
            r is Ok ==> final(self).open(*old(self)),
            r matches Err(t) ==> final(self).ended_by(*old(self), t),
            old(self).max_orig_var.is_none() ==> final(self).oracle == old(self).oracle
                && final(self).var_manager == old(self).var_manager,
            old(self).max_orig_var.is_none() && old(self).pareto_front.ndoms@.len() > 0 ==> r is Ok
                && final(self).pareto_front == old(self).pareto_front && final(self).stats
                == old(self).stats,
            old(self).max_orig_var.is_none() && old(self).pareto_front.ndoms@.len() == 0 ==> {
                &&& final(self).pareto_front.ndoms@.len() == 1
                &&& old(self).offset_point(final(self).pareto_front.ndoms@[0])
                &&& r matches Err(t) ==> t == Termination::SolsLimit || t == Termination::PPLimit
                    || t is LoggerError
                &&& r is Ok ==> final(self).stats.n_solutions == old(self).stats.n_solutions + 1
                    && final(self).stats.n_pareto_points == old(self).stats.n_pareto_points + 1
                &&& final(self).stats.n_candidates == old(self).stats.n_candidates
                &&& final(self).stats.n_oracle_calls == old(self).stats.n_oracle_calls
            },
            old(self).max_orig_var.is_none() && old(self).pareto_front.ndoms@.len() == 0
                && none_attached(old(self).loggers.slots@) ==>
                    (r is Ok <==> old(self).counts_a_point()),
            old(self).max_orig_var.is_none() && old(self).pareto_front.ndoms@.len() == 0
                && none_attached(old(self).loggers.slots@) ==> r == old(self).offset_point_ends(),
            old(self).max_orig_var.is_some() ==> final(self).stats.n_oracle_calls
                > old(self).stats.n_oracle_calls || old(self).stats.n_oracle_calls == usize::MAX,
            old(self).max_orig_var.is_some() && r is Ok ==> !satisfiable(
                final(self).oracle.clauses(),
                Seq::<Lit>::empty(),
            ) && !final(self).oracle.has_model(),
            old(self).sound() && (old(self).max_orig_var.is_some() || old(self).hard@.len() == 0)
                ==> final(self).sound(),
    {
        if self.max_orig_var.is_none() {
            if self.pareto_front.is_empty() {
                let offsets = self.offsets();
                let mut pp = NonDomPoint::new(offsets);
                pp.add_sol(Assignment::empty());
                proof {
                    assert forall|k: int, i: int|
                        0 <= k < pp.sols@.len() && 0 <= i < self.objs@.len() implies pp.costs@[i]
                        == #[trigger] self.objs@[i].external_cost(pp.sols@[k]@) by {
                        let obj = self.objs@[i];
                        assert(obj.wf());
                        assert(obj.spec_iter().len() == 0);
                        crate::objective::lemma_internal_cost_is_weighted(obj, pp.sols@[k]@);
                        assert(obj.spec_unit() * 0 == 0) by (nonlinear_arith);
                    }
                }
                let ghost s0 = *self;
                let logged = self.log_solution();
                let ghost s1 = *self;
                proof {
                    if none_attached(s0.loggers.slots@) {
                        assert forall|i: int| 0 <= i < s1.loggers.slots@.len() implies (
                        #[trigger] s1.loggers.slots@[i]).is_none() by {
                            assert(s0.loggers.slots@[i].is_none());
                        }
                    }
                }
                // The solution is found: the point is kept whatever ends the run
                let pp_logged = self.log_pareto_point(&pp);
                proof {
                    lemma_extends_trans(*self, s1, s0);
                }
                let ghost s2 = *self;
                self.add_point(pp);
                proof {
                    lemma_extends_trans(*self, s2, s0);
                }
                proof {
                    if logged is Ok {
                        let u = logged->Ok_0;
                        assert(u == ());
                    }
                }
                return match pp_logged {
                    Ok(()) => logged,
                    Err(e) => Err(e),
                };
            }
            return Ok(());
        }
        let ghost mut asked = false;
        loop
            invariant
                self.wf(),
                self.max_orig_var.is_some(),
                self.extends(*old(self)),
                self.within(*old(self)),
                self.open(*old(self)),
                self.term_cb.is_some() == old(self).term_cb.is_some(),
                !asked ==> self.stats.n_oracle_calls == old(self).stats.n_oracle_calls,
                asked ==> self.stats.n_oracle_calls > old(self).stats.n_oracle_calls,
                old(self).sound() ==> self.sound(),
            decreases usize::MAX - self.stats.n_oracle_calls,
        {
            // Find a starting point
            let ghost top = *self;
            let res = match self.oracle.solve() {
                Ok(res) => res,
                Err(e) => {
                    return Err(Termination::OracleError(e));
                },
            };
            let ghost s0 = *self;
            proof {
                if old(self).sound() {
                    lemma_sound_kept(s0, top);
                }
            }
            let step = self.start_from(res);
            proof {
                lemma_extends_trans(*self, s0, *old(self));
                asked = true;
            }
            match step {
                Ok(true) => {
                    return Ok(());
                },
                Ok(false) => {},
                Err(e) => {
                    return Err(e);
                },
            }
        }
    }

    /// What the main routine does with the oracle's answer `res` to the
    /// formula. The call of the oracle is counted and logged. Where the
    /// formula cannot be satisfied the run is through: the answer is `true`.
    /// Where the oracle gave up the run ends as by the callback. Where the
    /// oracle holds a solution, the solution is a candidate that descends to
    /// a point that nothing dominates, the point is completed and added to
    /// the front, and its block is made permanent: the answer is `false`.
    /// Where solutions are enumerated the block is made permanent by the
    /// switch of the descent, which is the last clause that the oracle is
    /// given.
    pub fn start_from(&mut self, res: SolverResult) -> (r: Result<bool, Termination>)
        requires
            old(self).wf(),
            old(self).max_orig_var.is_some(),
            res == SolverResult::Sat ==> old(self).oracle.has_model(),
        ensures
            final(self).wf(),
            final(self).extends(*old(self)),
            final(self).within(*old(self)),
            r is Ok ==> final(self).open(*old(self)),
            r matches Err(t) ==> final(self).stopped_by(t) && !(t is OracleError),
            r matches Err(Termination::Callback) ==> res == SolverResult::Interrupted
                || final(self).term_cb.is_some() || final(self).oracle.answers().2
                > old(self).oracle.answers().2,
            r matches Ok(done) ==> done == (res == SolverResult::Unsat),
            old(self).sound() ==> final(self).sound(),
            final(self).stats.n_oracle_calls > old(self).stats.n_oracle_calls
                || old(self).stats.n_oracle_calls == usize::MAX,
            r is Ok ==> final(self).stats.n_oracle_calls > old(self).stats.n_oracle_calls,
            res != SolverResult::Sat ==> final(self).oracle == old(self).oracle
                && final(self).pareto_front == old(self).pareto_front && final(self).var_manager
                == old(self).var_manager,
            res == SolverResult::Interrupted ==> r is Err,
            r matches Err(t) ==> res == SolverResult::Interrupted ==> t == Termination::Callback
                || t == Termination::OracleCallsLimit || t is LoggerError,
            res != SolverResult::Sat && none_attached(old(self).loggers.slots@)
                && old(self).stats.n_oracle_calls < usize::MAX && !exhausted(
                spent(old(self).lims.oracle_calls),
            ) ==> r == (if res == SolverResult::Unsat {
                Ok::<bool, Termination>(true)
            } else {
                Err::<bool, Termination>(Termination::Callback)
            }),
            r matches Ok(false) ==> final(self).pareto_front.ndoms@.len()
                == old(self).pareto_front.ndoms@.len() + 1,
            r matches Ok(false) ==> old(self).opts.enumeration != EnumOptions::NoEnum ==> {
                let last = final(self).oracle.clauses().last();
                &&& final(self).oracle.clauses().len() > 0
                &&& last.len() == 1
                &&& last[0].spec_is_neg()
                &&& old(self).var_manager.next_var <= last[0].spec_vidx()
                    < final(self).var_manager.next_var
            },
    {
        let logged = self.log_oracle_call(res, Phase::OuterLoop);
        match logged {
            Ok(()) => {},
            Err(e) => {
                proof {
                    if old(self).sound() {
                        lemma_sound_kept(*self, *old(self));
                    }
                }
                return Err(e);
            },
        }
        proof {
            if old(self).sound() {
                lemma_sound_kept(*self, *old(self));
            }
        }
        if res == SolverResult::Unsat {
            return Ok(true);
        } else if res == SolverResult::Interrupted {
            return Err(Termination::Callback);
        }
        let ghost s1 = *self;
        let polled = self.check_terminator();
        proof {
            lemma_extends_trans(*self, s1, *old(self));
        }
        match polled {
            Ok(()) => {},
            Err(e) => {
                proof {
                    if old(self).sound() {
                        lemma_sound_kept(*self, *old(self));
                    }
                }
                return Err(e);
            },
        }
        // Descend from the candidate
        let ghost s2 = *self;
        proof {
            if old(self).sound() {
                lemma_sound_kept(s2, *old(self));
            }
        }
        let found = self.get_solution_and_internal_costs(Phase::OuterLoop);
        proof {
            lemma_extends_trans(*self, s2, *old(self));
        }
        let (costs, solution) = match found {
            Ok(out) => out,
            Err(e) => {
                proof {
                    if old(self).sound() {
                        lemma_sound_kept(*self, *old(self));
                    }
                }
                return Err(e);
            },
        };
        let ghost s3 = *self;
        let logged = self.log_candidate(&costs, Phase::OuterLoop);
        proof {
            lemma_extends_trans(*self, s3, *old(self));
        }
        match logged {
            Ok(()) => {},
            Err(e) => {
                proof {
                    if old(self).sound() {
                        lemma_sound_kept(*self, *old(self));
                    }
                }
                return Err(e);
            },
        }
        let ghost s4 = *self;
        let polled = self.check_terminator();
        proof {
            lemma_extends_trans(*self, s4, *old(self));
        }
        match polled {
            Ok(()) => {},
            Err(e) => {
                proof {
                    if old(self).sound() {
                        lemma_sound_kept(*self, *old(self));
                    }
                }
                return Err(e);
            },
        }
        let ghost s5 = *self;
        proof {
            if old(self).sound() {
                lemma_sound_kept(s5, *old(self));
            }
        }
        let minimal = self.p_minimization(costs, solution);
        proof {
            lemma_extends_trans(*self, s5, *old(self));
        }
        let (costs, solution, block_switch) = match minimal {
            Ok(out) => out,
            Err(e) => {
                proof {
                    if old(self).sound() {
                        lemma_sound_kept(*self, *old(self));
                    }
                }
                return Err(e);
            },
        };
        let n_points = self.pareto_front.len();
        let ghost s6 = *self;
        proof {
            if old(self).sound() {
                lemma_sound_kept(s6, *old(self));
            }
        }
        let enumerated = self.enumerate_at_pareto_point(costs, solution);
        proof {
            lemma_extends_trans(*self, s6, *old(self));
        }
        // Make the block of the point permanent
        if self.pareto_front.len() > n_points {
            if let Some(block_lit) = block_switch {
                let ghost s7 = *self;
                match self.oracle.add_unit(block_lit) {
                    Ok(()) => {},
                    Err(e) => {
                        return Err(Termination::OracleError(e));
                    },
                }
                proof {
                    assert(s7.oracle.clauses().is_prefix_of(self.oracle.clauses()));
                    if old(self).sound() {
                        lemma_sound_kept(*self, s7);
                    }
                }
            }
        }
        match enumerated {
            Ok(()) => Ok(false),
            Err(e) => Err(e),
        }
    }

    /// The offsets of the objectives.
    fn offsets(&self) -> (v: Vec<isize>)
        ensures
            v@.len() == self.objs@.len(),
            forall|i: int| 0 <= i < self.objs@.len() ==>
                v@[i] == (#[trigger] self.objs@[i]).spec_offset(),
    {
        let mut v: Vec<isize> = Vec::new();
        let mut i: usize = 0;
        while i < self.objs.len()
            invariant
                i <= self.objs@.len(),
                v@.len() == i,
                forall|k: int| 0 <= k < i ==> v@[k] == (#[trigger] self.objs@[k]).spec_offset(),
            decreases self.objs.len() - i,
        {
            v.push(self.objs[i].offset());
            i += 1;
        }
        v
    }

    /// Runs the search within `limits`, from where the last run ended.
    ///
    /// The run ends with `Ok` when the oracle finds no solution that the
    /// front does not account for: what the oracle then holds cannot be
    /// satisfied. It ends with a termination when a limit is reached, a
    /// logger fails or the callback asks for it, when the oracle gives up
    /// and when an encoder fails. Either way the front keeps its points,
    /// and every point in it is one that nothing else in it dominates.
    pub fn solve(&mut self, limits: Limits) -> (r: Result<(), Termination>)
        requires
            old(self).wf(),
        ensures
            final(self).wf(),
            r matches Err(t) ==> final(self).ended_by(*old(self), t),
            old(self).oracle.answers().0 <= final(self).oracle.answers().0,
            old(self).oracle.answers().1 <= final(self).oracle.answers().1,
            old(self).oracle.answers().2 <= final(self).oracle.answers().2,
            old(self).max_orig_var.is_none() ==> final(self).oracle == old(self).oracle
                && final(self).var_manager == old(self).var_manager,
            old(self).max_orig_var.is_some() ==> final(self).stats.n_oracle_calls
                > old(self).stats.n_oracle_calls || old(self).stats.n_oracle_calls == usize::MAX,
            old(self).max_orig_var.is_some() && r is Ok ==> !satisfiable(
                final(self).oracle.clauses(),
                Seq::<Lit>::empty(),
            ) && !final(self).oracle.has_model(),
            final(self).lims.le(limits),
            crate::logging::same_slots_taken(old(self).loggers.slots@, final(self).loggers.slots@),
            final(self).term_cb.is_some() == old(self).term_cb.is_some(),
            final(self).index == old(self).index,
            final(self).blits == old(self).blits,
            final(self).max_orig_var == old(self).max_orig_var,
            old(self).oracle.clauses().is_prefix_of(final(self).oracle.clauses()),
            final(self).objs == old(self).objs,
            final(self).opts == old(self).opts,
            old(self).pareto_front.ndoms@.is_prefix_of(final(self).pareto_front.ndoms@),
            final(self).stats.n_solve_calls == if old(self).stats.n_solve_calls < usize::MAX {
                (old(self).stats.n_solve_calls + 1) as usize
            } else {
                usize::MAX
            },
            final(self).stats.n_objs == old(self).stats.n_objs,
            final(self).stats.n_orig_clauses == old(self).stats.n_orig_clauses,
            old(self).stats.n_solutions <= final(self).stats.n_solutions,
            old(self).stats.n_pareto_points <= final(self).stats.n_pareto_points,
            old(self).stats.n_candidates <= final(self).stats.n_candidates,
            old(self).stats.n_oracle_calls <= final(self).stats.n_oracle_calls,
            old(self).max_orig_var.is_none() && old(self).pareto_front.ndoms@.len() == 0 ==> {
                &&& final(self).pareto_front.ndoms@.len() == 1
                &&& old(self).offset_point(final(self).pareto_front.ndoms@[0])
                &&& r matches Err(t) ==> t == Termination::SolsLimit || t == Termination::PPLimit
                    || t is LoggerError
                &&& r is Ok ==> final(self).stats.n_solutions == old(self).stats.n_solutions + 1
                    && final(self).stats.n_pareto_points == old(self).stats.n_pareto_points + 1
                &&& final(self).stats.n_candidates == old(self).stats.n_candidates
                &&& final(self).stats.n_oracle_calls == old(self).stats.n_oracle_calls
            },
            old(self).max_orig_var.is_none() && old(self).pareto_front.ndoms@.len() == 0
                && none_attached(old(self).loggers.slots@) ==> (r is Ok <==> {
                &&& old(self).stats.n_solutions < usize::MAX
                &&& !exhausted(spent(limits.sols))
                &&& old(self).stats.n_pareto_points < usize::MAX
                &&& !exhausted(spent(limits.pps))
            }),
            old(self).max_orig_var.is_none() && old(self).pareto_front.ndoms@.len() > 0 ==> r is Ok
                && final(self).pareto_front == old(self).pareto_front && final(self).stats
                == (Stats { n_solve_calls: final(self).stats.n_solve_calls, ..old(self).stats }),
            final(self).hard == old(self).hard,
            accounted(
                limits.sols,
                final(self).lims.sols,
                final(self).stats.n_solutions - old(self).stats.n_solutions,
            ),
            accounted(
                limits.pps,
                final(self).lims.pps,
                final(self).stats.n_pareto_points - old(self).stats.n_pareto_points,
            ),
            accounted(
                limits.candidates,
                final(self).lims.candidates,
                final(self).stats.n_candidates - old(self).stats.n_candidates,
            ),
            accounted(
                limits.oracle_calls,
                final(self).lims.oracle_calls,
                final(self).stats.n_oracle_calls - old(self).stats.n_oracle_calls,
            ),
            old(self).sound() && (old(self).max_orig_var.is_some() || old(self).hard@.len() == 0)
                ==> final(self).sound(),
    {
        if self.stats.n_solve_calls < usize::MAX {
            self.stats.n_solve_calls = self.stats.n_solve_calls + 1;
        }
        self.lims = limits;
        self.alg_main()
    }
}

/// The internal cost of an assignment is at most the highest internal cost
/// of the objective.
pub proof fn lemma_internal_le_max(obj: Objective, a: Seq<TernaryVal>)
    ensures
        obj.internal_cost(a) <= obj.max_internal(),
{
    match obj {
        Objective::Weighted { lits, .. } => {
            crate::objective::lemma_cost_le_total(lits@, a);
        },
        Objective::Unweighted { lits, .. } => {
            crate::objective::lemma_count_le_len(lits@, a);
        },
        Objective::Constant { .. } => {},
    }
}

} // verus!
