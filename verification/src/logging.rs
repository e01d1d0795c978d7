//! Observers of a run: loggers, the termination callback and the generator
//! of blocking clauses.

use vstd::prelude::*;

use crate::front::NonDomPoint;
use crate::options::{ControlSignal, LoggerError, Phase};
use crate::oracle::SolverResult;
use crate::types::{lit_value, Assignment, Clause, Lit, TernaryVal, MAX_VAR_IDX};

verus! {

/// The events of a run that a logger is told of.
pub enum LogEvent {
    /// A candidate was found, with these internal costs.
    Candidate { costs: Seq<usize>, phase: Phase },
    /// The oracle was called and answered.
    OracleCall { result: SolverResult, phase: Phase },
    /// A solution was found.
    Solution,
    /// A point of the front is complete.
    ParetoPoint { point: NonDomPoint },
    /// A candidate was improved for one objective.
    Improvement {
        obj_idx: usize,
        apparent_cost: usize,
        improved_cost: usize,
        learned_clauses: usize,
    },
}

/// What a logger is told of a run. An error that a logger returns ends the
/// run.
pub trait WriteSolverLog {
    /// What being told does to the logger: `before` was told `event`,
    /// answered `r`, and is `after` since. A logger may say for itself what
    /// that means, and every call below then keeps to it; one that does not
    /// is held to nothing.
    open spec fn told(
        before: &Self,
        after: &Self,
        event: LogEvent,
        r: Result<(), LoggerError>,
    ) -> bool {
        true
    }

    /// A candidate was found, with these internal costs.
    fn log_candidate(&mut self, costs: &Vec<usize>, phase: Phase) -> (r: Result<(), LoggerError>)
        ensures
            Self::told(
                &*old(self),
                &*final(self),
                (LogEvent::Candidate { costs: costs@, phase }),
                r,
            ),
    ;

    /// The oracle was called and answered.
    fn log_oracle_call(&mut self, result: SolverResult, phase: Phase) -> (r: Result<
        (),
        LoggerError,
    >)
        ensures
            Self::told(&*old(self), &*final(self), (LogEvent::OracleCall { result, phase }), r),
    ;

    /// A solution was found.
    fn log_solution(&mut self) -> (r: Result<(), LoggerError>)
        ensures
            Self::told(&*old(self), &*final(self), LogEvent::Solution, r),
    ;

    /// A point of the front is complete.
    fn log_pareto_point(&mut self, pareto_point: &NonDomPoint) -> (r: Result<(), LoggerError>)
        ensures
            Self::told(
                &*old(self),
                &*final(self),
                (LogEvent::ParetoPoint { point: *pareto_point }),
                r,
            ),
    ;

    /// A candidate was improved for one objective.
    fn log_heuristic_obj_improvement(
        &mut self,
        obj_idx: usize,
        apparent_cost: usize,
        improved_cost: usize,
        learned_clauses: usize,
    ) -> (r: Result<(), LoggerError>)
        ensures
            Self::told(
                &*old(self),
                &*final(self),
                (LogEvent::Improvement { obj_idx, apparent_cost, improved_cost, learned_clauses }),
                r,
            ),
    ;
}

/// The logger that ignores what it is told.
#[derive(Clone, Copy, PartialEq, Eq, Structural, Debug)]
pub struct NoLog;

impl WriteSolverLog for NoLog {
    /// This logger answers `Ok` to everything.
    open spec fn told(
        before: &Self,
        after: &Self,
        event: LogEvent,
        r: Result<(), LoggerError>,
    ) -> bool {
        r is Ok
    }

    fn log_candidate(&mut self, costs: &Vec<usize>, phase: Phase) -> (r: Result<(), LoggerError>)
        ensures
            r is Ok,
    {
        Ok(())
    }

    fn log_oracle_call(&mut self, result: SolverResult, phase: Phase) -> (r: Result<
        (),
        LoggerError,
    >)
        ensures
            r is Ok,
    {
        Ok(())
    }

    fn log_solution(&mut self) -> (r: Result<(), LoggerError>)
        ensures
            r is Ok,
    {
        Ok(())
    }

    fn log_pareto_point(&mut self, pareto_point: &NonDomPoint) -> (r: Result<(), LoggerError>)
        ensures
            r is Ok,
    {
        Ok(())
    }

    fn log_heuristic_obj_improvement(
        &mut self,
        obj_idx: usize,
        apparent_cost: usize,
        improved_cost: usize,
        learned_clauses: usize,
    ) -> (r: Result<(), LoggerError>)
        ensures
            r is Ok,
    {
        Ok(())
    }
}

/// The question whether a run should go on.
pub trait Terminator {
    /// What being asked does to the terminator: `before` was asked,
    /// answered `signal`, and is `after` since. A terminator may say for
    /// itself what that means; one that does not is held to nothing.
    open spec fn polled(before: &Self, after: &Self, signal: ControlSignal) -> bool {
        true
    }

    fn poll(&mut self) -> (signal: ControlSignal)
        ensures
            Self::polled(&*old(self), &*final(self), signal),
    ;
}

/// The terminator that never asks to stop.
#[derive(Clone, Copy, PartialEq, Eq, Structural, Debug)]
pub struct NeverTerminate;

impl Terminator for NeverTerminate {
    /// This terminator answers `Continue`.
    open spec fn polled(before: &Self, after: &Self, signal: ControlSignal) -> bool {
        signal == ControlSignal::Continue
    }

    fn poll(&mut self) -> (s: ControlSignal)
        ensures
            s == ControlSignal::Continue,
    {
        ControlSignal::Continue
    }
}

/// The clause that keeps a solution from being found again.
pub trait BlockingClauseGen {
    /// What making a clause does to the generator: `before` was given
    /// `sol`, made `clause`, and is `after` since. A generator may say for
    /// itself what that means; one that does not is held to nothing.
    open spec fn made(before: &Self, after: &Self, sol: Assignment, clause: Clause) -> bool {
        true
    }

    fn blocking_clause(&mut self, sol: Assignment) -> (c: Clause)
        ensures
            Self::made(&*old(self), &*final(self), sol, c),
    ;
}

/// The negations of the literals that `a` makes true among the first `n`
/// variables, by rising variable.
pub open spec fn negated_prefix(a: Seq<TernaryVal>, n: int) -> Seq<Lit>
    decreases n,
{
    if n <= 0 {
        Seq::empty()
    } else {
        let rest = negated_prefix(a, n - 1);
        match a[n - 1] {
            TernaryVal::True => rest.push(Lit::spec_new((n - 1) as u32, true)),
            TernaryVal::False => rest.push(Lit::spec_new((n - 1) as u32, false)),
            TernaryVal::DontCare => rest,
        }
    }
}

/// The clause that holds, for each variable that `sol` gives a value, the
/// literal that `sol` makes false. Variables above the highest index that a
/// variable can have are left out.
pub fn default_blocking_clause(sol: Assignment) -> (c: Clause)
    ensures
        sol@.len() <= MAX_VAR_IDX + 1 ==> c@ == negated_prefix(sol@, sol@.len() as int),
{
    let mut c = Clause::new();
    let mut i: usize = 0;
    let n = if sol.len() <= MAX_VAR_IDX as usize + 1 {
        sol.len()
    } else {
        MAX_VAR_IDX as usize + 1
    };
    while i < n
        invariant
            i <= n,
            n <= sol@.len(),
            n <= MAX_VAR_IDX + 1,
            c@ == negated_prefix(sol@, i as int),
        decreases n - i,
    {
        match sol.vals[i] {
            TernaryVal::True => {
                c.add(Lit::new(i as u32, true));
            },
            TernaryVal::False => {
                c.add(Lit::new(i as u32, false));
            },
            TernaryVal::DontCare => {},
        }
        i += 1;
    }
    c
}

/// Every literal of the default blocking clause is false under the
/// assignment it was made from.
pub proof fn lemma_negated_prefix_false(a: Seq<TernaryVal>, n: int)
    requires
        0 <= n <= a.len(),
        n <= MAX_VAR_IDX + 1,
    ensures
        forall|i: int|
            0 <= i < negated_prefix(a, n).len() ==> lit_value(a, #[trigger] negated_prefix(a, n)[i])
                == TernaryVal::False,
    decreases n,
{
    if n > 0 {
        lemma_negated_prefix_false(a, n - 1);
    }
}

/// An assignment that differs from `a` in the value of a variable that `a`
/// gives a value satisfies the default blocking clause of `a`: the clause
/// keeps the oracle from nothing but `a`.
pub proof fn lemma_negated_prefix_elsewhere(a: Seq<TernaryVal>, n: int, b: Seq<TernaryVal>, i: int)
    requires
        0 <= i < n <= a.len(),
        n <= MAX_VAR_IDX + 1,
        a[i] != TernaryVal::DontCare,
        crate::types::var_value(b, i) != TernaryVal::DontCare,
        crate::types::var_value(b, i) != a[i],
    ensures
        crate::types::clause_sat(b, negated_prefix(a, n)),
    decreases n,
{
    let c = negated_prefix(a, n);
    if i == n - 1 {
        let l = c[c.len() - 1];
        assert(l.spec_vidx() == i);
        assert(crate::types::lit_true(b, c[c.len() - 1]));
    } else {
        lemma_negated_prefix_elsewhere(a, n - 1, b, i);
        let r = negated_prefix(a, n - 1);
        let k = choose|k: int| 0 <= k < r.len() && crate::types::lit_true(b, #[trigger] r[k]);
        assert(c[k] == r[k]);
    }
}

/// The generator that negates the whole solution.
#[derive(Clone, Copy, PartialEq, Eq, Structural, Debug)]
pub struct DefaultBlocking;

impl BlockingClauseGen for DefaultBlocking {
    /// This generator negates what the solution makes true or false.
    open spec fn made(before: &Self, after: &Self, sol: Assignment, clause: Clause) -> bool {
        sol@.len() <= MAX_VAR_IDX + 1 ==> clause@ == negated_prefix(sol@, sol@.len() as int)
    }

    fn blocking_clause(&mut self, sol: Assignment) -> (c: Clause)
        ensures
            sol@.len() <= MAX_VAR_IDX + 1 ==> c@ == negated_prefix(sol@, sol@.len() as int),
    {
        default_blocking_clause(sol)
    }
}

/// The first free slot, or the number of slots where none is free.
pub open spec fn first_free<L>(slots: Seq<Option<L>>) -> int
    decreases slots.len(),
{
    if slots.len() == 0 {
        0
    } else if first_free(slots.drop_last()) < slots.len() - 1 {
        first_free(slots.drop_last())
    } else if slots.last().is_none() {
        slots.len() - 1
    } else {
        slots.len() as int
    }
}

pub proof fn lemma_first_free<L>(slots: Seq<Option<L>>)
    ensures
        0 <= first_free(slots) <= slots.len(),
        first_free(slots) < slots.len() ==> slots[first_free(slots)].is_none(),
        forall|i: int| 0 <= i < first_free(slots) ==> (#[trigger] slots[i]).is_some(),
    decreases slots.len(),
{
    if slots.len() > 0 {
        lemma_first_free(slots.drop_last());
        assert forall|i: int| 0 <= i < first_free(slots) implies
            (#[trigger] slots[i]).is_some() by {
            if i < slots.len() - 1 {
                assert(slots.drop_last()[i] == slots[i]);
            }
        }
    }
}

/// No slot holds a logger.
pub open spec fn none_attached<L>(slots: Seq<Option<L>>) -> bool {
    forall|i: int| 0 <= i < slots.len() ==> (#[trigger] slots[i]).is_none()
}

/// The same slots are taken in both.
pub open spec fn same_slots_taken<L>(a: Seq<Option<L>>, b: Seq<Option<L>>) -> bool {
    &&& a.len() == b.len()
    &&& forall|i: int| 0 <= i < a.len() ==> (#[trigger] a[i]).is_some() == b[i].is_some()
}

/// Where the same slots are taken and none was, none is.
pub proof fn lemma_none_attached_kept<L>(a: Seq<Option<L>>, b: Seq<Option<L>>)
    requires
        same_slots_taken(a, b),
        none_attached(a),
    ensures
        none_attached(b),
{
    assert forall|i: int| 0 <= i < b.len() implies (#[trigger] b[i]).is_none() by {
        assert(a[i].is_none());
    }
}

/// The logger of a taken slot was told `event`, answered `r`, and is what
/// the slot holds after; a free slot stays free.
pub open spec fn slot_told<L: WriteSolverLog>(
    before: Option<L>,
    after: Option<L>,
    event: LogEvent,
    r: Result<(), LoggerError>,
) -> bool {
    match (before, after) {
        (Some(a), Some(b)) => L::told(&a, &b, event, r),
        (None, None) => r is Ok,
        _ => false,
    }
}

/// Every logger was told `event` and answered `Ok`.
pub open spec fn all_told<L: WriteSolverLog>(
    before: Seq<Option<L>>,
    after: Seq<Option<L>>,
    event: LogEvent,
) -> bool {
    &&& before.len() == after.len()
    &&& forall|i: int|
        0 <= i < before.len() ==> slot_told(#[trigger] before[i], after[i], event, Ok(()))
}

/// The loggers in the slots before `at` were told `event` and answered `Ok`,
/// the logger in slot `at` was told and answered with the error `e`, and
/// the loggers behind it were not told.
pub open spec fn told_until<L: WriteSolverLog>(
    before: Seq<Option<L>>,
    after: Seq<Option<L>>,
    event: LogEvent,
    at: int,
    e: LoggerError,
) -> bool {
    &&& before.len() == after.len()
    &&& 0 <= at < before.len()
    &&& before[at].is_some()
    &&& slot_told(before[at], after[at], event, Err(e))
    &&& forall|i: int| 0 <= i < at ==> slot_told(#[trigger] before[i], after[i], event, Ok(()))
    &&& forall|i: int| at < i < before.len() ==> #[trigger] after[i] == before[i]
}

/// The loggers in the slots before `n` were told `event` and answered `Ok`;
/// the others were not told.
pub open spec fn told_so_far<L: WriteSolverLog>(
    before: Seq<Option<L>>,
    after: Seq<Option<L>>,
    event: LogEvent,
    n: int,
) -> bool {
    &&& before.len() == after.len()
    &&& forall|i: int|
        0 <= i < n && i < before.len() ==> slot_told(#[trigger] before[i], after[i], event, Ok(()))
    &&& forall|i: int| n <= i < before.len() ==> #[trigger] after[i] == before[i]
}

/// What telling the loggers `event` comes to, with the answer `r`: all of
/// them were told, or the first that failed was the last to be told, and
/// its error is the answer.
pub open spec fn told_all_or_failed<L: WriteSolverLog>(
    before: Seq<Option<L>>,
    after: Seq<Option<L>>,
    event: LogEvent,
    r: Result<(), LoggerError>,
) -> bool {
    match r {
        Ok(_) => all_told(before, after, event),
        Err(e) => exists|at: int| told_until(before, after, event, at, e),
    }
}

/// Where the logger in slot `at` is the first to fail, the loggers were told
/// until that slot.
pub proof fn lemma_told_until<L: WriteSolverLog>(
    before: Seq<Option<L>>,
    after: Seq<Option<L>>,
    event: LogEvent,
    at: int,
    r: Result<(), LoggerError>,
)
    requires
        r is Err,
        before.len() == after.len(),
        0 <= at < before.len(),
        before[at].is_some(),
        slot_told(before[at], after[at], event, r),
        forall|i: int| 0 <= i < at ==> slot_told(#[trigger] before[i], after[i], event, Ok(())),
        forall|i: int| at < i < before.len() ==> #[trigger] after[i] == before[i],
    ensures
        told_all_or_failed(before, after, event, r),
{
    assert(told_until(before, after, event, at, r->Err_0));
}

/// Where the logger in slot `at` was told and answered `Ok`, the loggers up
/// to that slot were told.
pub proof fn lemma_told_one_more<L: WriteSolverLog>(
    before: Seq<Option<L>>,
    prev: Seq<Option<L>>,
    after: Seq<Option<L>>,
    event: LogEvent,
    at: int,
    r: Result<(), LoggerError>,
)
    requires
        r is Ok,
        0 <= at < before.len(),
        told_so_far(before, prev, event, at),
        prev.len() == after.len(),
        slot_told(prev[at], after[at], event, r),
        forall|i: int| 0 <= i < prev.len() && i != at ==> #[trigger] after[i] == prev[i],
    ensures
        told_so_far(before, after, event, at + 1),
{
    let u = r->Ok_0;
    assert(u == ());
    assert(r == Ok::<(), LoggerError>(u));
    assert forall|i: int| 0 <= i < at + 1 && i < before.len() implies slot_told(
        #[trigger] before[i],
        after[i],
        event,
        Ok(()),
    ) by {
        if i < at {
            assert(after[i] == prev[i]);
        } else {
            assert(prev[at] == before[at]);
        }
    }
    assert forall|i: int| at + 1 <= i < before.len() implies #[trigger] after[i] == before[i] by {
        assert(after[i] == prev[i]);
    }
}

/// The loggers of a solver, each in a slot. A logger is named by its slot;
/// a slot that was given up is taken by the next logger.
pub struct Loggers<L> {
    pub slots: Vec<Option<L>>,
}

impl<L: WriteSolverLog> Loggers<L> {
    pub fn new() -> (l: Self)
        ensures
            l.slots@.len() == 0,
    {
        Loggers { slots: Vec::new() }
    }

    /// Puts the logger into the first free slot and returns the slot.
    pub fn attach(&mut self, logger: L) -> (id: usize)
        ensures
            id == first_free(old(self).slots@),
            id < old(self).slots@.len() ==> final(self).slots@ == old(self).slots@.update(
                id as int,
                Some(logger),
            ),
            id == old(self).slots@.len() ==> final(self).slots@ == old(self).slots@.push(
                Some(logger),
            ),
    {
        let mut i: usize = 0;
        while i < self.slots.len()
            invariant
                i <= self.slots@.len(),
                self.slots@ == old(self).slots@,
                forall|j: int| 0 <= j < i ==> (#[trigger] self.slots@[j]).is_some(),
            decreases self.slots.len() - i,
        {
            if self.slots[i].is_none() {
                proof {
                    lemma_first_free(self.slots@);
                }
                self.slots.set(i, Some(logger));
                return i;
            }
            i += 1;
        }
        proof {
            lemma_first_free(self.slots@);
        }
        self.slots.push(Some(logger));
        i
    }

    /// Takes the logger out of slot `id`, if there is one.
    pub fn detach(&mut self, id: usize) -> (r: Option<L>)
        ensures
            id >= old(self).slots@.len() ==> r.is_none() && final(self).slots@ == old(self).slots@,
            id < old(self).slots@.len() ==> r == old(self).slots@[id as int] && final(self).slots@
                == old(self).slots@.update(id as int, None),
    {
        if id >= self.slots.len() {
            None
        } else {
            let mut out: Option<L> = None;
            std::mem::swap(&mut self.slots[id], &mut out);
            out
        }
    }

    /// Tells the loggers of a candidate, slot by slot, and stops at the
    /// first that fails.
    pub fn log_candidate(&mut self, costs: &Vec<usize>, phase: Phase) -> (r: Result<
        (),
        LoggerError,
    >)
        ensures
            told_all_or_failed(
                old(self).slots@,
                final(self).slots@,
                (LogEvent::Candidate { costs: costs@, phase }),
                r,
            ),
            same_slots_taken(old(self).slots@, final(self).slots@),
            none_attached(old(self).slots@) ==> r is Ok,
    {
        let ghost event = LogEvent::Candidate { costs: costs@, phase };
        let mut i: usize = 0;
        while i < self.slots.len()
            invariant
                i <= self.slots@.len(),
                same_slots_taken(old(self).slots@, self.slots@),
                event == (LogEvent::Candidate { costs: costs@, phase }),
                told_so_far(old(self).slots@, self.slots@, event, i as int),
            decreases self.slots.len() - i,
        {
            let ghost prev = self.slots@;
            let answer = match &mut self.slots[i] {
                Some(l) => l.log_candidate(costs, phase),
                None => Ok(()),
            };
            if answer.is_err() {
                proof {
                    lemma_told_until(old(self).slots@, self.slots@, event, i as int, answer);
                }
                return answer;
            }
            proof {
                lemma_told_one_more(old(self).slots@, prev, self.slots@, event, i as int, answer);
            }
            i += 1;
        }
        Ok(())
    }

    /// Tells the loggers of a call of the oracle, slot by slot, and stops at
    /// the first that fails.
    pub fn log_oracle_call(&mut self, result: SolverResult, phase: Phase) -> (r: Result<
        (),
        LoggerError,
    >)
        ensures
            told_all_or_failed(
                old(self).slots@,
                final(self).slots@,
                (LogEvent::OracleCall { result, phase }),
                r,
            ),
            same_slots_taken(old(self).slots@, final(self).slots@),
            none_attached(old(self).slots@) ==> r is Ok,
    {
        let ghost event = LogEvent::OracleCall { result, phase };
        let mut i: usize = 0;
        while i < self.slots.len()
            invariant
                i <= self.slots@.len(),
                same_slots_taken(old(self).slots@, self.slots@),
                event == (LogEvent::OracleCall { result, phase }),
                told_so_far(old(self).slots@, self.slots@, event, i as int),
            decreases self.slots.len() - i,
        {
            let ghost prev = self.slots@;
            let answer = match &mut self.slots[i] {
                Some(l) => l.log_oracle_call(result, phase),
                None => Ok(()),
            };
            if answer.is_err() {
                proof {
                    lemma_told_until(old(self).slots@, self.slots@, event, i as int, answer);
                }
                return answer;
            }
            proof {
                lemma_told_one_more(old(self).slots@, prev, self.slots@, event, i as int, answer);
            }
            i += 1;
        }
        Ok(())
    }

    /// Tells the loggers of a solution, slot by slot, and stops at the first
    /// that fails.
    pub fn log_solution(&mut self) -> (r: Result<(), LoggerError>)
        ensures
            told_all_or_failed(old(self).slots@, final(self).slots@, (LogEvent::Solution), r),
            same_slots_taken(old(self).slots@, final(self).slots@),
            none_attached(old(self).slots@) ==> r is Ok,
    {
        let ghost event = LogEvent::Solution;
        let mut i: usize = 0;
        while i < self.slots.len()
            invariant
                i <= self.slots@.len(),
                same_slots_taken(old(self).slots@, self.slots@),
                event == (LogEvent::Solution),
                told_so_far(old(self).slots@, self.slots@, event, i as int),
            decreases self.slots.len() - i,
        {
            let ghost prev = self.slots@;
            let answer = match &mut self.slots[i] {
                Some(l) => l.log_solution(),
                None => Ok(()),
            };
            if answer.is_err() {
                proof {
                    lemma_told_until(old(self).slots@, self.slots@, event, i as int, answer);
                }
                return answer;
            }
            proof {
                lemma_told_one_more(old(self).slots@, prev, self.slots@, event, i as int, answer);
            }
            i += 1;
        }
        Ok(())
    }

    /// Tells the loggers of a point of the front, slot by slot, and stops at
    /// the first that fails.
    pub fn log_pareto_point(&mut self, pareto_point: &NonDomPoint) -> (r: Result<(), LoggerError>)
        ensures
            told_all_or_failed(
                old(self).slots@,
                final(self).slots@,
                (LogEvent::ParetoPoint { point: *pareto_point }),
                r,
            ),
            same_slots_taken(old(self).slots@, final(self).slots@),
            none_attached(old(self).slots@) ==> r is Ok,
    {
        let ghost event = LogEvent::ParetoPoint { point: *pareto_point };
        let mut i: usize = 0;
        while i < self.slots.len()
            invariant
                i <= self.slots@.len(),
                same_slots_taken(old(self).slots@, self.slots@),
                event == (LogEvent::ParetoPoint { point: *pareto_point }),
                told_so_far(old(self).slots@, self.slots@, event, i as int),
            decreases self.slots.len() - i,
        {
            let ghost prev = self.slots@;
            let answer = match &mut self.slots[i] {
                Some(l) => l.log_pareto_point(pareto_point),
                None => Ok(()),
            };
            if answer.is_err() {
                proof {
                    lemma_told_until(old(self).slots@, self.slots@, event, i as int, answer);
                }
                return answer;
            }
            proof {
                lemma_told_one_more(old(self).slots@, prev, self.slots@, event, i as int, answer);
            }
            i += 1;
        }
        Ok(())
    }

    /// Tells the loggers of an improved candidate, slot by slot, and stops
    /// at the first that fails.
    pub fn log_heuristic_obj_improvement(
        &mut self,
        obj_idx: usize,
        apparent_cost: usize,
        improved_cost: usize,
        learned_clauses: usize,
    ) -> (r: Result<(), LoggerError>)
        ensures
            told_all_or_failed(
                old(self).slots@,
                final(self).slots@,
                (LogEvent::Improvement { obj_idx, apparent_cost, improved_cost, learned_clauses }),
                r,
            ),
            same_slots_taken(old(self).slots@, final(self).slots@),
            none_attached(old(self).slots@) ==> r is Ok,
    {
        let ghost event = LogEvent::Improvement {
            obj_idx,
            apparent_cost,
            improved_cost,
            learned_clauses,
        };
        let mut i: usize = 0;
        while i < self.slots.len()
            invariant
                i <= self.slots@.len(),
                same_slots_taken(old(self).slots@, self.slots@),
                event == (LogEvent::Improvement {
                    obj_idx,
                    apparent_cost,
                    improved_cost,
                    learned_clauses,
                }),
                told_so_far(old(self).slots@, self.slots@, event, i as int),
            decreases self.slots.len() - i,
        {
            let ghost prev = self.slots@;
            let answer = match &mut self.slots[i] {
                Some(l) => l.log_heuristic_obj_improvement(
                    obj_idx,
                    apparent_cost,
                    improved_cost,
                    learned_clauses,
                ),
                None => Ok(()),
            };
            if answer.is_err() {
                proof {
                    lemma_told_until(old(self).slots@, self.slots@, event, i as int, answer);
                }
                return answer;
            }
            proof {
                lemma_told_one_more(old(self).slots@, prev, self.slots@, event, i as int, answer);
            }
            i += 1;
        }
        Ok(())
    }
}

} // verus!
