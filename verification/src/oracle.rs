//! The decision oracle: an incremental SAT solver that collects clauses and
//! decides them under assumptions.

use rustsat::solvers::{Solve as _, SolveIncremental as _, SolveStats as _};
use vstd::prelude::*;

use crate::init::clause_below;
use crate::types::{clause_sat, lit_true, Assignment, Clause, Lit, TernaryVal, Var, MAX_VAR_IDX};

verus! {

/// The SAT solver behind the search: BatSat, behind the solver interface of
/// `rustsat`. The solver is a generic type over callbacks of its own crate,
/// which cannot be declared to the verifier; so the verifier does not look
/// into this struct, and knows of the solver what the functions below say.
#[verifier::external_body]
pub struct Oracle {
    solver: rustsat_batsat::BasicSolver,
}

/// The formula of the solver: the clauses that were added to it, oldest
/// first.
pub uninterp spec fn oracle_clauses(o: Oracle) -> Seq<Seq<Lit>>;

/// Whether the solver holds a model: its last answer was `Sat`, and no
/// clause was added since.
pub uninterp spec fn oracle_has_model(o: Oracle) -> bool;

/// The model that the solver holds, where it holds one: the value that it
/// gives to each variable.
pub uninterp spec fn oracle_model(o: Oracle) -> Seq<TernaryVal>;

/// How often the solver has answered `Sat`, `Unsat` and `Interrupted`, in
/// this order. An answer that it repeats without solving again is not
/// counted.
pub uninterp spec fn oracle_answers(o: Oracle) -> (nat, nat, nat);

/// What a call of the oracle found.
#[derive(Clone, Copy, PartialEq, Eq, Structural, Debug)]
pub enum SolverResult {
    Sat,
    Unsat,
    Interrupted,
}

/// An error that the oracle reported, with its message.
#[derive(Clone, PartialEq, Eq, Debug)]
pub struct OracleError {
    pub message: String,
}

/// `BasicSolver::default`: a solver that holds no clause and no model.
#[verifier::external_body]
fn oracle_new() -> (o: Oracle)
    ensures
        oracle_clauses(o) == Seq::<Seq<Lit>>::empty(),
        !oracle_has_model(o),
        oracle_answers(o) == (0nat, 0nat, 0nat),
{
    Oracle { solver: rustsat_batsat::BasicSolver::default() }
}

/// `Solve::add_clause_ref`: the clause is one more clause of the solver's
/// formula. BatSat takes every clause, so the call succeeds; a model that
/// the solver held is gone.
#[verifier::external_body]
fn oracle_add_clause(o: &mut Oracle, clause: &Clause) -> (r: Result<(), OracleError>)
    ensures
        r is Ok,
        oracle_clauses(*final(o)) == oracle_clauses(*old(o)).push(clause@),
        !oracle_has_model(*final(o)),
        oracle_answers(*final(o)) == oracle_answers(*old(o)),
{
    let cl: rustsat::types::Clause = clause.lits.iter().map(
        |l| rustsat::types::Var::new(l.vidx()).lit(l.is_neg()),
    ).collect();
    match o.solver.add_clause_ref(&cl) {
        Ok(()) => Ok(()),
        Err(e) => Err(OracleError { message: format!("{e}") }),
    }
}

/// `Solve::reserve`: makes room for the variables up to `max_var`, which
/// BatSat always does. The formula stays as it is, and so does a model that
/// the solver holds.
#[verifier::external_body]
fn oracle_reserve(o: &mut Oracle, max_var: Var) -> (r: Result<(), OracleError>)
    requires
        max_var.wf(),
    ensures
        r is Ok,
        oracle_clauses(*final(o)) == oracle_clauses(*old(o)),
        oracle_has_model(*final(o)) == oracle_has_model(*old(o)),
        oracle_answers(*final(o)) == oracle_answers(*old(o)),
{
    match o.solver.reserve(rustsat::types::Var::new(max_var.idx)) {
        Ok(()) => Ok(()),
        Err(e) => Err(OracleError { message: format!("{e}") }),
    }
}

/// `SolveIncremental::solve_assumps`: decides the formula under the
/// assumptions. BatSat always answers: `Sat` where it found values that
/// make the formula and the assumptions true, which it then holds as its
/// model; `Unsat` where it found that there are none; `Interrupted` where
/// it gave up. The assumptions do not stay: the formula is as before. The
/// answer is counted.
#[verifier::external_body]
fn oracle_solve_assumps(o: &mut Oracle, assumps: &Vec<Lit>) -> (r: Result<
    SolverResult,
    OracleError,
>)
    ensures
        r is Ok,
        oracle_clauses(*final(o)) == oracle_clauses(*old(o)),
        r matches Ok(res) ==> oracle_answers(*final(o)) == counted(oracle_answers(*old(o)), res),
        oracle_has_model(*final(o)) <==> (r matches Ok(SolverResult::Sat)),
        (r matches Ok(SolverResult::Sat)) ==> satisfiable(
            oracle_clauses(*old(o)),
            assumps@,
        ),
        (r matches Ok(SolverResult::Sat)) ==> models(
            oracle_model(*final(o)),
            oracle_clauses(*old(o)),
            assumps@,
        ),
        (r matches Ok(SolverResult::Unsat)) ==> !satisfiable(
            oracle_clauses(*old(o)),
            assumps@,
        ),
{
    let lits: Vec<rustsat::types::Lit> = assumps.iter().map(
        |l| rustsat::types::Var::new(l.vidx()).lit(l.is_neg()),
    ).collect();
    match o.solver.solve_assumps(&lits) {
        Ok(rustsat::solvers::SolverResult::Sat) => Ok(SolverResult::Sat),
        Ok(rustsat::solvers::SolverResult::Unsat) => Ok(SolverResult::Unsat),
        Ok(rustsat::solvers::SolverResult::Interrupted) => Ok(SolverResult::Interrupted),
        Err(e) => Err(OracleError { message: format!("{e}") }),
    }
}

/// `Solve::solve`: decides the formula without assumptions; see
/// `oracle_solve_assumps`. Where the solver holds a model, BatSat answers
/// `Sat` at once, keeps the model and counts nothing. It also counts nothing
/// where it repeats that the formula cannot be satisfied. Where it gives
/// up, it has tried, and counts that.
#[verifier::external_body]
fn oracle_solve(o: &mut Oracle) -> (r: Result<SolverResult, OracleError>)
    ensures
        r is Ok,
        oracle_clauses(*final(o)) == oracle_clauses(*old(o)),
        oracle_has_model(*old(o)) ==> oracle_has_model(*final(o)) && oracle_answers(*final(o))
            == oracle_answers(*old(o)),
        r matches Ok(res) ==> oracle_answers(*final(o)) == counted(oracle_answers(*old(o)), res)
            || (res != SolverResult::Interrupted && oracle_answers(*final(o)) == oracle_answers(
            *old(o),
        )),
        oracle_has_model(*final(o)) <==> (r matches Ok(SolverResult::Sat)),
        (r matches Ok(SolverResult::Sat)) ==> satisfiable(
            oracle_clauses(*old(o)),
            Seq::<Lit>::empty(),
        ),
        (r matches Ok(SolverResult::Unsat)) ==> !satisfiable(
            oracle_clauses(*old(o)),
            Seq::<Lit>::empty(),
        ),
{
    match o.solver.solve() {
        Ok(rustsat::solvers::SolverResult::Sat) => Ok(SolverResult::Sat),
        Ok(rustsat::solvers::SolverResult::Unsat) => Ok(SolverResult::Unsat),
        Ok(rustsat::solvers::SolverResult::Interrupted) => Ok(SolverResult::Interrupted),
        Err(e) => Err(OracleError { message: format!("{e}") }),
    }
}

/// `Solve::solution`: the values that the solver's model gives to the
/// variables `0 ..= high_var`, one for each of them, and none to a variable
/// that the model does not reach. They make true every
/// clause of the formula that speaks of these variables alone. The call
/// fails exactly where the solver holds no model.
#[verifier::external_body]
fn oracle_solution(o: &Oracle, high_var: Var) -> (r: Result<Assignment, OracleError>)
    requires
        high_var.idx < MAX_VAR_IDX,
    ensures
        r is Ok <==> oracle_has_model(*o),
        r matches Ok(a) ==> a@.len() == high_var.idx + 1 && models_below(
            a@,
            oracle_clauses(*o),
            high_var.idx + 1,
        ),
        r matches Ok(a) ==> a@ == model_upto(oracle_model(*o), high_var.idx + 1),
{
    match o.solver.solution(rustsat::types::Var::new(high_var.idx)) {
        Ok(sol) => Ok(
            Assignment {
                vals: (0..=high_var.idx).map(
                    |i| match sol.var_value(rustsat::types::Var::new(i)) {
                        rustsat::types::TernaryVal::True => TernaryVal::True,
                        rustsat::types::TernaryVal::False => TernaryVal::False,
                        rustsat::types::TernaryVal::DontCare => TernaryVal::DontCare,
                    },
                ).collect(),
            },
        ),
        Err(e) => Err(OracleError { message: format!("{e}") }),
    }
}

/// Counters of the oracle.
#[derive(Clone, Copy, PartialEq, Eq, Structural, Debug)]
pub struct OracleStats {
    /// The number of calls that ended with `Sat`.
    pub n_sat: usize,
    /// The number of calls that ended with `Unsat`.
    pub n_unsat: usize,
    /// The number of calls that were interrupted.
    pub n_terminated: usize,
    /// The number of clauses that the oracle holds.
    pub n_clauses: usize,
    /// The index of the highest variable that the oracle knows.
    pub max_var: Option<u32>,
}

/// `SolveStats::stats`: the solver's counters. The first three are its
/// counts of its answers. What it keeps of its clauses after simplifying
/// them is its own matter, so the number of clauses need not be the number
/// of clauses added.
#[verifier::external_body]
fn oracle_stats(o: &Oracle) -> (s: OracleStats)
    ensures
        (s.n_sat as nat, s.n_unsat as nat, s.n_terminated as nat) == oracle_answers(*o),
{
    let stats = o.solver.stats();
    OracleStats {
        n_sat: stats.n_sat,
        n_unsat: stats.n_unsat,
        n_terminated: stats.n_terminated,
        n_clauses: stats.n_clauses,
        max_var: stats.max_var.map(|v| v.idx32()),
    }
}

impl Oracle {
    /// The counters of the oracle: how often it has answered `Sat`, `Unsat`
    /// and `Interrupted`, and what it says of its clauses and variables.
    pub fn stats(&self) -> (s: OracleStats)
        ensures
            (s.n_sat as nat, s.n_unsat as nat, s.n_terminated as nat) == self.answers(),
    {
        oracle_stats(self)
    }

    /// The model that the oracle holds, where it holds one.
    pub open spec fn model(self) -> Seq<TernaryVal> {
        oracle_model(self)
    }

    /// How often the oracle has answered `Sat`, `Unsat` and `Interrupted`,
    /// in this order. An answer that it repeats without solving again is not
    /// counted.
    pub open spec fn answers(self) -> (nat, nat, nat) {
        oracle_answers(self)
    }

    /// The formula that the oracle decides: the clauses added so far.
    pub open spec fn clauses(self) -> Seq<Seq<Lit>> {
        oracle_clauses(self)
    }

    /// Whether the oracle holds a model: its last answer was `Sat`, and no
    /// clause was added since.
    pub open spec fn has_model(self) -> bool {
        oracle_has_model(self)
    }

    /// An oracle without clauses.
    pub fn new() -> (o: Oracle)
        ensures
            o.clauses() == Seq::<Seq<Lit>>::empty(),
            !o.has_model(),
            o.answers() == (0nat, 0nat, 0nat),
    {
        oracle_new()
    }

    /// Adds the clause to the formula. The oracle takes every clause; a
    /// model that it held is gone.
    pub fn add_clause(&mut self, clause: &Clause) -> (r: Result<(), OracleError>)
        ensures
            r is Ok,
            final(self).clauses() == old(self).clauses().push(clause@),
            !final(self).has_model(),
            final(self).answers() == old(self).answers(),
    {
        oracle_add_clause(self, clause)
    }

    /// Adds the clause that holds `lit` alone.
    pub fn add_unit(&mut self, lit: Lit) -> (r: Result<(), OracleError>)
        ensures
            r is Ok,
            final(self).clauses() == old(self).clauses().push(seq![lit]),
            !final(self).has_model(),
            final(self).answers() == old(self).answers(),
    {
        let mut cl = Clause::new();
        cl.add(lit);
        assert(cl@ =~= seq![lit]);
        oracle_add_clause(self, &cl)
    }

    /// Adds the clauses one after the other.
    pub fn add_cnf(&mut self, cnf: &Vec<Clause>) -> (r: Result<(), OracleError>)
        ensures
            r is Ok,
            final(self).clauses() == old(self).clauses() + clause_views(cnf@),
            old(self).clauses().is_prefix_of(final(self).clauses()),
            cnf@.len() > 0 ==> !final(self).has_model(),
            cnf@.len() == 0 ==> final(self).has_model() == old(self).has_model(),
            final(self).answers() == old(self).answers(),
    {
        let mut i: usize = 0;
        while i < cnf.len()
            invariant
                i <= cnf@.len(),
                self.clauses() == old(self).clauses() + clause_views(cnf@.subrange(0, i as int)),
                i > 0 ==> !self.has_model(),
                i == 0 ==> self.has_model() == old(self).has_model(),
                self.answers() == old(self).answers(),
            decreases cnf.len() - i,
        {
            match oracle_add_clause(self, &cnf[i]) {
                Ok(()) => {},
                Err(e) => {
                    return Err(e);
                },
            }
            proof {
                assert(clause_views(cnf@.subrange(0, i + 1)) =~= clause_views(
                    cnf@.subrange(0, i as int),
                ).push(cnf@[i as int]@));
                assert(self.clauses() =~= old(self).clauses() + clause_views(
                    cnf@.subrange(0, i + 1),
                ));
            }
            i += 1;
        }
        proof {
            assert(cnf@.subrange(0, cnf@.len() as int) =~= cnf@);
        }
        Ok(())
    }

    /// Makes room for the variables up to `max_var`. The formula and the
    /// model stay as they are.
    pub fn reserve(&mut self, max_var: Var) -> (r: Result<(), OracleError>)
        requires
            max_var.wf(),
        ensures
            r is Ok,
            final(self).clauses() == old(self).clauses(),
            final(self).has_model() == old(self).has_model(),
            final(self).answers() == old(self).answers(),
    {
        oracle_reserve(self, max_var)
    }

    /// Decides the formula. The oracle always answers: `Sat` where some
    /// values make every clause true, and it then holds a model; `Unsat`
    /// where none do; `Interrupted` where it gave up. The answer is counted
    /// unless the oracle repeats it without solving again, as it does where
    /// it holds a model.
    pub fn solve(&mut self) -> (r: Result<SolverResult, OracleError>)
        ensures
            r is Ok,
            final(self).clauses() == old(self).clauses(),
            old(self).has_model() ==> final(self).answers() == old(self).answers(),
            r matches Ok(res) ==> final(self).answers() == counted(old(self).answers(), res)
                || (res != SolverResult::Interrupted && final(self).answers() == old(
                self,
            ).answers()),
            final(self).has_model() <==> (r matches Ok(SolverResult::Sat)),
            (r matches Ok(SolverResult::Sat)) ==> satisfiable(
                old(self).clauses(),
                Seq::<Lit>::empty(),
            ),
            (r matches Ok(SolverResult::Unsat)) ==> !satisfiable(
                old(self).clauses(),
                Seq::<Lit>::empty(),
            ),
    {
        oracle_solve(self)
    }

    /// Decides the formula under the assumptions, which hold for this call
    /// only. The oracle always answers: `Sat` where some values make every
    /// clause and every assumption true, and it then holds a model; `Unsat`
    /// where none do; `Interrupted` where it gave up. The answer is counted.
    pub fn solve_assumps(&mut self, assumps: &Vec<Lit>) -> (r: Result<SolverResult, OracleError>)
        ensures
            r is Ok,
            final(self).clauses() == old(self).clauses(),
            r matches Ok(res) ==> final(self).answers() == counted(old(self).answers(), res),
            final(self).has_model() <==> (r matches Ok(SolverResult::Sat)),
            (r matches Ok(SolverResult::Sat)) ==> satisfiable(
                old(self).clauses(),
                assumps@,
            ),
            (r matches Ok(SolverResult::Sat)) ==> models(
                final(self).model(),
                old(self).clauses(),
                assumps@,
            ),
            (r matches Ok(SolverResult::Unsat)) ==> !satisfiable(
                old(self).clauses(),
                assumps@,
            ),
    {
        oracle_solve_assumps(self, assumps)
    }

    /// The values that the oracle's model gives to the variables
    /// `0 ..= high_var`. They make true every clause of the formula that
    /// speaks of these variables alone. There are none where the oracle
    /// holds no model.
    pub fn solution(&self, high_var: Var) -> (r: Result<Assignment, OracleError>)
        requires
            high_var.idx < MAX_VAR_IDX,
        ensures
            r is Ok <==> self.has_model(),
            r matches Ok(a) ==> a@.len() == high_var.idx + 1 && models_below(
                a@,
                self.clauses(),
                high_var.idx + 1,
            ),
            r matches Ok(a) ==> a@ == model_upto(self.model(), high_var.idx + 1),
    {
        oracle_solution(self, high_var)
    }
}

/// The literal sequences of the clauses of `cnf`.
pub open spec fn clause_views(cnf: Seq<Clause>) -> Seq<Seq<Lit>> {
    Seq::new(cnf.len(), |i: int| cnf[i]@)
}

/// The values that the model `m` gives to the variables below `n`, one for
/// each of them.
pub open spec fn model_upto(m: Seq<TernaryVal>, n: int) -> Seq<TernaryVal> {
    Seq::new(n as nat, |i: int| crate::types::var_value(m, i))
}

/// The counts `c` of answers after one more answer `r`.
pub open spec fn counted(c: (nat, nat, nat), r: SolverResult) -> (nat, nat, nat) {
    match r {
        SolverResult::Sat => (c.0 + 1, c.1, c.2),
        SolverResult::Unsat => (c.0, c.1 + 1, c.2),
        SolverResult::Interrupted => (c.0, c.1, c.2 + 1),
    }
}

/// The values make every clause of the formula true, and every assumption.
pub open spec fn models(a: Seq<TernaryVal>, formula: Seq<Seq<Lit>>, assumps: Seq<Lit>) -> bool {
    &&& forall|i: int| 0 <= i < formula.len() ==> clause_sat(a, #[trigger] formula[i])
    &&& forall|j: int| 0 <= j < assumps.len() ==> lit_true(a, #[trigger] assumps[j])
}

/// Some values make every clause of the formula true, and every assumption.
pub open spec fn satisfiable(formula: Seq<Seq<Lit>>, assumps: Seq<Lit>) -> bool {
    exists|a: Seq<TernaryVal>| models(a, formula, assumps)
}

/// The values make true every clause of the formula that speaks of the
/// variables below `n` alone.
pub open spec fn models_below(a: Seq<TernaryVal>, formula: Seq<Seq<Lit>>, n: int) -> bool {
    forall|i: int|
        0 <= i < formula.len() && clause_below(#[trigger] formula[i], n) ==> clause_sat(
            a,
            formula[i],
        )
}

} // verus!
