//! The dominance engine: assumptions that confine the oracle to the costs
//! at most as high as a given tuple, and clauses that keep it away from the
//! costs at least as high.

use vstd::prelude::*;

use crate::encodings::{room_for, room_left, ObjEncoding, VarManager};
use crate::logging::{BlockingClauseGen, Terminator, WriteSolverLog};
use crate::objective::Objective;
use crate::options::{EncodingError, Termination};
use crate::pminimal::{
    budgeted, encodes, lemma_encodes_kept, lemma_encodes_size, need_of, PMinimal,
};
use crate::types::{
    clause_sat, lit_true, lit_value, strictly_sorted, tautology, Assignment, Clause, Lit,
    TernaryVal, MAX_VAR_IDX,
};

verus! {

/// The clauses that say that `a` implies every literal of `b`: for each
/// literal of `b` the clause of the negation of `a` and that literal.
pub open spec fn impl_cube(a: Lit, b: Seq<Lit>) -> Seq<Seq<Lit>> {
    Seq::new(b.len(), |i: int| seq![a.spec_not(), b[i]])
}

/// The clauses that say that `a` implies every literal of `b`.
pub fn lit_impl_cube(a: Lit, b: &Vec<Lit>) -> (cnf: Vec<Clause>)
    ensures
        crate::oracle::clause_views(cnf@) == impl_cube(a, b@),
{
    let mut cnf: Vec<Clause> = Vec::new();
    let mut i: usize = 0;
    while i < b.len()
        invariant
            i <= b@.len(),
            cnf@.len() == i,
            forall|j: int| 0 <= j < i ==> (#[trigger] cnf@[j])@ == seq![a.spec_not(), b@[j]],
        decreases b.len() - i,
    {
        let mut cl = Clause::new();
        cl.add(a.not());
        cl.add(b[i]);
        assert(cl@ =~= seq![a.spec_not(), b@[i as int]]);
        cnf.push(cl);
        i += 1;
    }
    assert(crate::oracle::clause_views(cnf@) =~= impl_cube(a, b@));
    cnf
}

/// The literal that stands for a set of assumptions in a blocking clause,
/// with the clauses that define it: a single assumption stands for itself,
/// and any other set is stood for by the fresh variable `fresh`, which
/// implies each of the assumptions.
pub open spec fn block_literal(assumps: Seq<Lit>, fresh: u32) -> (Lit, Seq<Seq<Lit>>) {
    if assumps.len() == 1 {
        (assumps[0], Seq::empty())
    } else {
        (Lit::spec_new(fresh, false), impl_cube(Lit::spec_new(fresh, false), assumps))
    }
}

/// The literal that stands for a set of assumptions says no more and no
/// less than the assumptions.
///
/// An assignment that satisfies the defining clauses and makes the literal
/// true makes every assumption true. And an assignment that makes every
/// assumption true makes the literal true and satisfies the defining
/// clauses, once the fresh variable is made true in it, where one was
/// taken and occurs in none of the assumptions.
pub proof fn lemma_block_literal(assumps: Seq<Lit>, fresh: u32, m: Seq<TernaryVal>)
    requires
        fresh <= MAX_VAR_IDX,
        forall|j: int| 0 <= j < assumps.len() ==> (#[trigger] assumps[j]).spec_vidx() != fresh,
    ensures
        lit_true(m, block_literal(assumps, fresh).0) && (forall|k: int|
            0 <= k < block_literal(assumps, fresh).1.len() ==> crate::types::clause_sat(
                m,
                #[trigger] block_literal(assumps, fresh).1[k],
            )) ==> forall|j: int| 0 <= j < assumps.len() ==> lit_true(m, #[trigger] assumps[j]),
        (forall|j: int| 0 <= j < assumps.len() ==> lit_true(m, #[trigger] assumps[j])) ==> {
            let with_fresh = if assumps.len() == 1 {
                m
            } else {
                crate::types::assign(m, Lit::spec_new(fresh, false))
            };
            &&& lit_true(with_fresh, block_literal(assumps, fresh).0)
            &&& forall|k: int|
                0 <= k < block_literal(assumps, fresh).1.len() ==> crate::types::clause_sat(
                    with_fresh,
                    #[trigger] block_literal(assumps, fresh).1[k],
                )
        },
{
    let t = Lit::spec_new(fresh, false);
    let lit = block_literal(assumps, fresh).0;
    let defs = block_literal(assumps, fresh).1;
    if assumps.len() != 1 {
        crate::types::lemma_not_involutive(t);
        if lit_true(m, lit) && (forall|k: int|
            0 <= k < defs.len() ==> crate::types::clause_sat(m, #[trigger] defs[k])) {
            assert forall|j: int| 0 <= j < assumps.len() implies
                lit_true(m, #[trigger] assumps[j]) by {
                let d = defs[j];
                assert(crate::types::clause_sat(m, d));
                let i = choose|i: int| 0 <= i < d.len() && lit_true(m, #[trigger] d[i]);
                assert(d =~= seq![t.spec_not(), assumps[j]]);
                // the negation of the fresh literal is false, so it is the assumption that holds
                if i == 0 {
                    assert(d[0] == t.spec_not());
                    assert(false);
                }
                assert(d[1] == assumps[j]);
            }
        }
        if forall|j: int| 0 <= j < assumps.len() ==> lit_true(m, #[trigger] assumps[j]) {
            let with_fresh = crate::types::assign(m, t);
            crate::types::lemma_assign(m, t);
            assert forall|k: int| 0 <= k < defs.len() implies crate::types::clause_sat(
                with_fresh,
                #[trigger] defs[k],
            ) by {
                let d = defs[k];
                assert(d =~= seq![t.spec_not(), assumps[k]]);
                assert(lit_true(m, assumps[k]));
                assert(lit_true(with_fresh, d[1]));
            }
        }
    } else {
        if lit_true(m, lit) {
            assert forall|j: int| 0 <= j < assumps.len() implies
                lit_true(m, #[trigger] assumps[j]) by {
                assert(assumps[j] == assumps[0]);
            }
        }
        if forall|j: int| 0 <= j < assumps.len() ==> lit_true(m, #[trigger] assumps[j]) {
            assert(lit_true(m, assumps[0]));
        }
    }
}

/// Picks the literal that stands for `assumps` in a blocking clause, and
/// takes a fresh variable for it where there is not exactly one assumption.
/// Fails where a variable is needed and none is left.
pub fn make_block_literal(assumps: &Vec<Lit>, var_manager: &mut VarManager) -> (r: Result<
    (Lit, Vec<Clause>),
    EncodingError,
>)
    requires
        old(var_manager).wf(),
    ensures
        final(var_manager).wf(),
        r matches Ok(out) ==> {
            &&& out.0 == block_literal(assumps@, old(var_manager).next_var).0
            &&& crate::oracle::clause_views(out.1@) == block_literal(
                assumps@,
                old(var_manager).next_var,
            ).1
            &&& final(var_manager).next_var == old(var_manager).next_var + (if assumps@.len() == 1 {
                0int
            } else {
                1int
            })
        },
        r is Err <==> assumps@.len() != 1 && old(var_manager).next_var == MAX_VAR_IDX,
        r matches Err(e) ==>
            e == EncodingError::OutOfVariables && *final(var_manager) == *old(var_manager),
{
    if assumps.len() == 1 {
        let none: Vec<Clause> = Vec::new();
        assert(crate::oracle::clause_views(none@) =~= Seq::<Seq<Lit>>::empty());
        Ok((assumps[0], none))
    } else {
        match var_manager.new_var() {
            Some(v) => {
                let and_lit = v.pos_lit();
                let cnf = lit_impl_cube(and_lit, assumps);
                Ok((and_lit, cnf))
            },
            None => Err(EncodingError::OutOfVariables),
        }
    }
}

/// The number of objectives whose cost can still go down from `costs`:
/// those that are not constant and whose cost is above zero.
pub open spec fn improvable(objs: Seq<Objective>, costs: Seq<usize>) -> nat
    decreases objs.len(),
{
    if objs.len() == 0 || costs.len() < objs.len() {
        0
    } else {
        improvable(objs.drop_last(), costs) + if !(objs.last() is Constant) && costs[objs.len() - 1]
            > 0 {
            1nat
        } else {
            0nat
        }
    }
}

/// Objective `i` can cost less than `costs` says: it is not constant, and
/// its cost is above zero.
pub open spec fn improvable_at(objs: Seq<Objective>, costs: Seq<usize>, i: int) -> bool {
    !(objs[i] is Constant) && costs[i] > 0
}

/// `lit` stands for the bound below `cost` of the encoder in a blocking
/// clause. The encoder can enforce the bound. Where it does so by one
/// assumption, `lit` is that assumption; else `lit` is the positive literal
/// of a variable that was taken in `lo .. hi`.
pub open spec fn stands_for(enc: ObjEncoding, cost: usize, lit: Lit, lo: u32, hi: u32) -> bool {
    let assumps = enc.spec_assumps((cost - 1) as usize);
    &&& enc.can_enforce((cost - 1) as usize)
    &&& lit == block_literal(assumps, lit.spec_vidx()).0
    &&& assumps.len() != 1 ==> lo <= lit.spec_vidx() < hi
}

/// The literal of `clause` for objective `i` stands for the bound below
/// the cost of the objective. It comes after the literals of the objectives
/// before `i` that can improve.
pub open spec fn blocked_at(
    objs: Seq<Objective>,
    encs: Seq<ObjEncoding>,
    costs: Seq<usize>,
    clause: Seq<Lit>,
    lo: u32,
    hi: u32,
    i: int,
) -> bool {
    let at = improvable(objs.subrange(0, i), costs) as int;
    at < clause.len() && stands_for(encs[i], costs[i], clause[at], lo, hi)
}

/// `clause` blocks what `costs` dominates, as far as the first `n`
/// objectives go: it has one literal for each of them that can improve, in
/// the order of the objectives, and the literal stands for the bound below
/// the cost of the objective.
pub open spec fn blocks_dominated(
    objs: Seq<Objective>,
    encs: Seq<ObjEncoding>,
    costs: Seq<usize>,
    clause: Seq<Lit>,
    lo: u32,
    hi: u32,
    n: int,
) -> bool {
    forall|i: int|
        0 <= i < n && improvable_at(objs, costs, i) ==> #[trigger] blocked_at(
            objs,
            encs,
            costs,
            clause,
            lo,
            hi,
            i,
        )
}

/// The clauses that define the literal of `clause` for objective `i` are
/// clauses of `formula`: where the literal is of a fresh variable, it
/// implies each assumption that enforces the bound below the cost.
pub open spec fn defined_at(
    objs: Seq<Objective>,
    encs: Seq<ObjEncoding>,
    costs: Seq<usize>,
    clause: Seq<Lit>,
    formula: Seq<Seq<Lit>>,
    i: int,
) -> bool {
    let at = improvable(objs.subrange(0, i), costs) as int;
    let assumps = encs[i].spec_assumps((costs[i] - 1) as usize);
    at < clause.len() && forall|k: int|
        0 <= k < block_literal(assumps, clause[at].spec_vidx()).1.len() ==> formula.contains(
            #[trigger] block_literal(assumps, clause[at].spec_vidx()).1[k],
        )
}

/// The literals of `clause` for the first `n` objectives are defined in
/// `formula`.
pub open spec fn defines_dominated(
    objs: Seq<Objective>,
    encs: Seq<ObjEncoding>,
    costs: Seq<usize>,
    clause: Seq<Lit>,
    formula: Seq<Seq<Lit>>,
    n: int,
) -> bool {
    forall|i: int|
        0 <= i < n && improvable_at(objs, costs, i) ==> #[trigger] defined_at(
            objs,
            encs,
            costs,
            clause,
            formula,
            i,
        )
}

/// A literal that is defined in a formula stays defined when the formula
/// and the clause grow and the encoder stays.
pub proof fn lemma_defined_kept(
    objs: Seq<Objective>,
    encs: Seq<ObjEncoding>,
    more_encs: Seq<ObjEncoding>,
    costs: Seq<usize>,
    clause: Seq<Lit>,
    more_clause: Seq<Lit>,
    formula: Seq<Seq<Lit>>,
    more_formula: Seq<Seq<Lit>>,
    i: int,
)
    requires
        defined_at(objs, encs, costs, clause, formula, i),
        encs[i] == more_encs[i],
        clause.is_prefix_of(more_clause),
        formula.is_prefix_of(more_formula),
    ensures
        defined_at(objs, more_encs, costs, more_clause, more_formula, i),
{
    let at = improvable(objs.subrange(0, i), costs) as int;
    let assumps = encs[i].spec_assumps((costs[i] - 1) as usize);
    assert(more_clause[at] == clause[at]);
    let defs = block_literal(assumps, clause[at].spec_vidx()).1;
    assert forall|k: int| 0 <= k < defs.len() implies more_formula.contains(
        #[trigger] defs[k],
    ) by {
        assert(formula.contains(defs[k]));
        let j = choose|j: int| 0 <= j < formula.len() && formula[j] == defs[k];
        assert(more_formula[j] == defs[k]);
    }
}

/// The assumptions of the first `n` encoders for the bounds `costs`, one
/// encoder after the other.
pub open spec fn all_assumps(encs: Seq<ObjEncoding>, costs: Seq<usize>, n: int) -> Seq<Lit>
    decreases n,
{
    if n <= 0 {
        Seq::empty()
    } else {
        all_assumps(encs, costs, n - 1) + encs[n - 1].spec_assumps(costs[n - 1])
    }
}

/// The assumptions of the first `n` encoders depend on these encoders
/// alone.
pub proof fn lemma_all_assumps_agree(
    a: Seq<ObjEncoding>,
    b: Seq<ObjEncoding>,
    costs: Seq<usize>,
    n: int,
)
    requires
        forall|k: int| 0 <= k < n ==> a[k] == b[k],
    ensures
        all_assumps(a, costs, n) == all_assumps(b, costs, n),
    decreases n,
{
    if n > 0 {
        lemma_all_assumps_agree(a, b, costs, n - 1);
    }
}

/// Under the values `m` each of the first `n` objectives costs no more
/// than `costs` says, in internal units.
pub open spec fn costs_bounded(
    objs: Seq<Objective>,
    m: Seq<TernaryVal>,
    costs: Seq<usize>,
    n: int,
) -> bool {
    forall|i: int| 0 <= i < n ==> (#[trigger] objs[i]).internal_cost(m) <= costs[i]
}

/// Every solution of `formula` under the assumptions `lits` costs no more
/// than `costs` says in any of the first `n` objectives.
pub open spec fn bound_costs(
    formula: Seq<Seq<Lit>>,
    lits: Seq<Lit>,
    objs: Seq<Objective>,
    costs: Seq<usize>,
    n: int,
) -> bool {
    forall|m: Seq<TernaryVal>| #[trigger]
        crate::oracle::models(m, formula, lits) ==> costs_bounded(objs, m, costs, n)
}

/// Some objective costs less than `costs` says under every solution of
/// `formula` that makes `lit` true.
pub open spec fn lower_under(
    formula: Seq<Seq<Lit>>,
    lit: Lit,
    objs: Seq<Objective>,
    costs: Seq<usize>,
) -> bool {
    exists|i: int| 0 <= i < objs.len() && #[trigger] lower_at(formula, lit, objs, costs, i)
}

/// Objective `i` costs less than `costs` says under every solution of
/// `formula` that makes `lit` true.
pub open spec fn lower_at(
    formula: Seq<Seq<Lit>>,
    lit: Lit,
    objs: Seq<Objective>,
    costs: Seq<usize>,
    i: int,
) -> bool {
    forall|m: Seq<TernaryVal>| #[trigger]
        crate::oracle::models(m, formula, seq![lit]) ==> objs[i].internal_cost(m) < costs[i]
}

/// Each literal of `clause` stands for a lower cost in some objective:
/// every solution of `formula` that makes it true costs less than `costs`
/// says there.
pub open spec fn blocks_only_dominated(
    formula: Seq<Seq<Lit>>,
    clause: Seq<Lit>,
    objs: Seq<Objective>,
    costs: Seq<usize>,
) -> bool {
    forall|j: int| 0 <= j < clause.len() ==> lower_under(formula, #[trigger] clause[j], objs, costs)
}

/// A clause that blocks only what is dominated means a lower cost: every
/// solution of the formula that makes the clause true costs less than
/// `costs` says in some objective.
pub proof fn lemma_block_means(
    formula: Seq<Seq<Lit>>,
    clause: Seq<Lit>,
    objs: Seq<Objective>,
    costs: Seq<usize>,
    m: Seq<TernaryVal>,
)
    requires
        blocks_only_dominated(formula, clause, objs, costs),
        crate::oracle::models(m, formula, Seq::<Lit>::empty()),
        clause_sat(m, clause),
    ensures
        exists|i: int| 0 <= i < objs.len() && (#[trigger] objs[i]).internal_cost(m) < costs[i],
{
    let j = choose|j: int| 0 <= j < clause.len() && lit_true(m, #[trigger] clause[j]);
    assert(lower_under(formula, clause[j], objs, costs));
    let i = choose|i: int|
        0 <= i < objs.len() && #[trigger] lower_at(formula, clause[j], objs, costs, i);
    assert(crate::oracle::models(m, formula, seq![clause[j]])) by {
        assert forall|k: int| 0 <= k < seq![clause[j]].len() implies lit_true(
            m,
            #[trigger] seq![clause[j]][k],
        ) by {}
    }
    assert(objs[i].internal_cost(m) < costs[i]);
}

/// What holds under every solution of a formula that makes a literal true
/// holds when the formula grows.
pub proof fn lemma_lower_under_kept(
    formula: Seq<Seq<Lit>>,
    more: Seq<Seq<Lit>>,
    lit: Lit,
    objs: Seq<Objective>,
    costs: Seq<usize>,
)
    requires
        lower_under(formula, lit, objs, costs),
        formula.is_prefix_of(more),
    ensures
        lower_under(more, lit, objs, costs),
{
    let i = choose|i: int| 0 <= i < objs.len() && #[trigger] lower_at(formula, lit, objs, costs, i);
    assert forall|m: Seq<TernaryVal>| #[trigger]
        crate::oracle::models(m, more, seq![lit]) implies objs[i].internal_cost(m) < costs[i] by {
        assert forall|k: int| 0 <= k < formula.len() implies more.contains(
            #[trigger] formula[k],
        ) by {
            assert(more[k] == formula[k]);
        }
        assert forall|k: int| 0 <= k < seq![lit].len() implies seq![lit].contains(
            #[trigger] seq![lit][k],
        ) by {}
        crate::pminimal::lemma_models_part(m, more, seq![lit], formula, seq![lit]);
    }
    assert(lower_at(more, lit, objs, costs, i));
}

/// The end of the range that holds the one bound `cost`.
pub open spec fn bound_end(cost: usize) -> usize {
    if cost < usize::MAX {
        (cost + 1) as usize
    } else {
        cost
    }
}

/// Every encoder has encoded the bound that `costs` sets for it, as it
/// stands.
pub open spec fn bounds_settled(encs: Seq<ObjEncoding>, costs: Seq<usize>) -> bool {
    forall|i: int|
        0 <= i < costs.len() ==> (#[trigger] encs[i]).settled(costs[i], bound_end(costs[i]))
}

/// Every objective is constant.
pub open spec fn all_constant(objs: Seq<Objective>) -> bool {
    forall|i: int| 0 <= i < objs.len() ==> (#[trigger] objs[i]) is Constant
}

/// No objective is weighted.
pub open spec fn none_weighted(objs: Seq<Objective>) -> bool {
    forall|i: int| 0 <= i < objs.len() ==> !((#[trigger] objs[i]) is Weighted)
}

/// No cost of `costs` is below the highest cost of its objective: no
/// solution costs more in any objective.
pub open spec fn slack(objs: Seq<Objective>, costs: Seq<usize>) -> bool {
    &&& costs.len() == objs.len()
    &&& forall|i: int| 0 <= i < objs.len() ==> costs[i] >= (#[trigger] objs[i]).max_internal()
}

/// The number of unweighted objectives whose cost in `costs` is below the
/// number of their literals: each takes one assumption to bound.
pub open spec fn tight_unweighted(objs: Seq<Objective>, costs: Seq<usize>) -> nat
    decreases objs.len(),
{
    if objs.len() == 0 || costs.len() < objs.len() {
        0
    } else {
        tight_unweighted(objs.drop_last(), costs) + if objs.last() is Unweighted && costs[objs.len()
            - 1] < objs.last().max_internal() {
            1nat
        } else {
            0nat
        }
    }
}

/// The negations of the literals of `lits` that `a` makes true.
pub open spec fn neg_true_lits(lits: Seq<(Lit, usize)>, a: Seq<TernaryVal>) -> Seq<Lit>
    decreases lits.len(),
{
    if lits.len() == 0 {
        Seq::empty()
    } else if lit_true(a, lits.last().0) {
        neg_true_lits(lits.drop_last(), a).push(lits.last().0.spec_not())
    } else {
        neg_true_lits(lits.drop_last(), a)
    }
}

/// The negations of the objective literals of `objs` that `a` makes true,
/// objective by objective.
pub open spec fn pareto_mcs_lits(objs: Seq<Objective>, a: Seq<TernaryVal>) -> Seq<Lit>
    decreases objs.len(),
{
    if objs.len() == 0 {
        Seq::empty()
    } else {
        pareto_mcs_lits(objs.drop_last(), a) + neg_true_lits(objs.last().spec_iter(), a)
    }
}

pub proof fn lemma_neg_true_lits_false(lits: Seq<(Lit, usize)>, a: Seq<TernaryVal>)
    ensures
        forall|i: int|
            0 <= i < neg_true_lits(lits, a).len() ==>
                lit_value(a, #[trigger] neg_true_lits(lits, a)[i])
                == TernaryVal::False,
    decreases lits.len(),
{
    if lits.len() > 0 {
        lemma_neg_true_lits_false(lits.drop_last(), a);
    }
}

/// Every literal of the Pareto-MCS clause is false under the assignment
/// that it blocks, so the clause is no tautology.
pub proof fn lemma_pareto_mcs_false(objs: Seq<Objective>, a: Seq<TernaryVal>)
    ensures
        forall|i: int|
            0 <= i < pareto_mcs_lits(objs, a).len() ==> lit_value(
                a,
                #[trigger] pareto_mcs_lits(objs, a)[i],
            ) == TernaryVal::False,
        !tautology(pareto_mcs_lits(objs, a)),
    decreases objs.len(),
{
    if objs.len() > 0 {
        lemma_pareto_mcs_false(objs.drop_last(), a);
        lemma_neg_true_lits_false(objs.last().spec_iter(), a);
    }
    let c = pareto_mcs_lits(objs, a);
    if tautology(c) {
        let (i, j) = choose|i: int, j: int|
            0 <= i < c.len() && 0 <= j < c.len() &&
                (#[trigger] c[i]) == (#[trigger] c[j]).spec_not();
        assert(lit_value(a, c[i]) == TernaryVal::False);
        assert(lit_value(a, c[j]) == TernaryVal::False);
    }
}

impl<BCG: BlockingClauseGen, L: WriteSolverLog, T: Terminator> PMinimal<BCG, L, T> {
    /// Turns internal costs into external ones, objective by objective.
    pub fn externalize_internal_costs(&self, costs: &Vec<usize>) -> (ext: Vec<isize>)
        requires
            self.wf(),
            costs@.len() == self.objs@.len(),
            forall|i: int| 0 <= i < costs@.len() ==>
                costs@[i] <= (#[trigger] self.objs@[i]).max_internal(),
        ensures
            ext@.len() == costs@.len(),
            forall|i: int|
                0 <= i < costs@.len() ==> ext@[i] == (#[trigger] self.objs@[i]).externalized(
                    costs@[i] as int,
                ),
    {
        let mut ext: Vec<isize> = Vec::new();
        let mut i: usize = 0;
        while i < costs.len()
            invariant
                i <= costs@.len(),
                self.wf(),
                costs@.len() == self.objs@.len(),
                forall|k: int|
                    0 <= k < costs@.len() ==>
                        costs@[k] <= (#[trigger] self.objs@[k]).max_internal(),
                ext@.len() == i,
                forall|k: int|
                    0 <= k < i ==>
                        ext@[k] == (#[trigger] self.objs@[k]).externalized(costs@[k] as int),
            decreases costs.len() - i,
        {
            assert(self.objs@[i as int].wf());
            ext.push(self.objs[i].externalize(costs[i]));
            i += 1;
        }
        ext
    }

    /// There is room for the variables that the encoder of objective `i`
    /// can still take: it holds them all where the encoders reserve theirs,
    /// and else can take what the objective admits, less what it has taken.
    pub open spec fn has_room(self, i: int) -> bool {
        self.opts.reserve_enc_vars || room_for(
            self.var_manager.next_var,
            (need_of(self.objs@[i]) - self.obj_encs@[i].spec_n_vars()) as nat,
        )
    }

    /// The encoder of objective `i` has something to encode for the bounds
    /// `start .. end`: the range is not empty and starts below the highest
    /// cost of the objective.
    pub open spec fn has_work(self, i: int, start: usize, end: usize) -> bool {
        start < end && start < self.objs@[i].max_internal()
    }

    /// The encoders can encode the bounds that `costs` sets: each that has
    /// something to encode has room for its variables.
    pub open spec fn rooms(self, costs: Seq<usize>) -> bool {
        forall|i: int|
            0 <= i < costs.len() && self.has_work(i, costs[i], bound_end(costs[i]))
                ==> #[trigger] self.has_room(i)
    }

    /// Objective `i` is the first whose encoder has something to encode for
    /// the bounds that `costs` sets, and there is no room for its
    /// variables.
    pub open spec fn stuck_at(self, costs: Seq<usize>, i: int) -> bool {
        &&& 0 <= i < costs.len()
        &&& self.has_work(i, costs[i], bound_end(costs[i]))
        &&& !self.has_room(i)
        &&& forall|k: int| 0 <= k < i ==> !#[trigger] self.has_work(k, costs[k], bound_end(costs[k]))
    }

    /// Objective `i` is the first that can cost less than `costs` says, its
    /// encoder has something to encode for the bound below its cost, and
    /// there is no room for its variables.
    pub open spec fn stuck_below(self, costs: Seq<usize>, i: int) -> bool {
        &&& 0 <= i < costs.len()
        &&& improvable_at(self.objs@, costs, i)
        &&& self.has_work(i, (costs[i] - 1) as usize, costs[i])
        &&& !self.has_room(i)
        &&& forall|k: int| 0 <= k < i ==> !#[trigger] improvable_at(self.objs@, costs, k)
    }

    /// Has the encoder of objective `i` encode the bounds `start .. end`
    /// and hands the clauses to the oracle. The encoder can enforce these
    /// bounds afterwards. Where the range is empty, or starts at or above
    /// the highest cost of the objective, nothing is encoded. Otherwise the
    /// encoder is called only where there is room for the variables that it
    /// can take. The call fails only for want of variables or of memory.
    fn encode_ub_change(&mut self, i: usize, start: usize, end: usize) -> (r: Result<
        (),
        Termination,
    >)
        requires
            old(self).wf(),
            i < old(self).objs@.len(),
        ensures
            final(self).wf(),
            final(self).extends(*old(self)),
            final(self).stats == old(self).stats,
            final(self).lims == old(self).lims,
            final(self).pareto_front == old(self).pareto_front,
            final(self).oracle.answers() == old(self).oracle.answers(),
            old(self).objs@[i as int] is Constant ==>
                r is Ok && final(self).oracle == old(self).oracle,
            r is Ok ==> forall|b: usize|
                start <= b < end ==> #[trigger] final(self).obj_encs@[i as int].can_enforce(b),
            forall|k: int|
                0 <= k < old(self).objs@.len() && k != i ==> #[trigger] final(self).obj_encs@[k]
                    == old(self).obj_encs@[k],
            start < end && start < old(self).objs@[i as int].max_internal() && !old(
                self,
            ).has_room(i as int) ==> r == Err::<(), Termination>(
                Termination::EncodingError(EncodingError::OutOfVariables),
            ) && final(self).oracle == old(self).oracle && final(self).var_manager == old(
                self,
            ).var_manager && final(self).obj_encs == old(self).obj_encs,
            start >= end || start >= old(self).objs@[i as int].max_internal() ==>
                r is Ok && final(self).oracle == old(self).oracle &&
                    final(self).var_manager == old(self).var_manager && final(self).obj_encs@
                    == old(self).obj_encs@,
            r is Ok ==> forall|a: usize, b: usize|
                start <= a && b <= end ==> #[trigger] final(self).obj_encs@[i as int].settled(a, b),
            old(self).fed() && r is Ok ==> final(self).fed(),
            old(self).obj_encs@[i as int].settled(start, end) && (old(self).has_room(i as int)
                || !old(self).has_work(i as int, start, end)) ==> r is Ok && final(self).oracle
                == old(self).oracle && final(self).var_manager == old(self).var_manager
                && final(self).obj_encs@ == old(self).obj_encs@,
            r matches Err(t) ==> (t matches Termination::EncodingError(e) && (e
                == EncodingError::OutOfMemory || e == EncodingError::OutOfVariables)),
    {
        let mut collector: Vec<Clause> = Vec::new();
        assert(encodes(old(self).obj_encs@[i as int], old(self).objs@[i as int]));
        assert(old(self).objs@[i as int].wf());
        proof {
            lemma_encodes_size(old(self).obj_encs@[i as int], old(self).objs@[i as int]);
            crate::tightening::lemma_max_internal(old(self).objs@[i as int]);
        }
        let next_var = self.var_manager.next_var;
        let (max, need) = match &self.objs[i] {
            Objective::Weighted { lits, .. } => {
                let total = crate::objective::weigh(lits);
                (total, (lits.len() as u64).checked_mul(total as u64))
            },
            Objective::Unweighted { lits, .. } => (lits.len(), (lits.len() as u64).checked_mul(64)),
            Objective::Constant { .. } => (0, Some(0)),
        };
        assert(budgeted(self.obj_encs@[i as int], self.objs@[i as int], self.opts.reserve_enc_vars));
        let taken = self.obj_encs[i].n_vars();
        let fits = room_left(need, taken, next_var);
        let room = self.opts.reserve_enc_vars || fits;
        proof {
            let obj = self.objs@[i as int];
            let enc = self.obj_encs@[i as int];
            assert(taken == enc.spec_n_vars());
            assert(enc.spec_n_vars() <= need_of(obj));
            if need is Some {
                assert(need->Some_0 == need_of(obj));
                assert(fits == room_for(next_var, (need_of(obj) - taken) as nat));
            } else {
                assert(need_of(obj) > u64::MAX);
                assert(!room_for(next_var, (need_of(obj) - taken) as nat));
            }
            assert(room == self.has_room(i as int));
        }
        if start < end && start < max && !room {
            return Err(Termination::EncodingError(EncodingError::OutOfVariables));
        }
        let res = self.obj_encs[i].encode_ub_change(
            start..end,
            &mut collector,
            &mut self.var_manager,
        );
        assert forall|k: int| 0 <= k < self.objs@.len() implies encodes(
            #[trigger] self.obj_encs@[k],
            self.objs@[k],
        ) && budgeted(self.obj_encs@[k], self.objs@[k], self.opts.reserve_enc_vars) by {
            assert(encodes(old(self).obj_encs@[k], old(self).objs@[k]));
            assert(budgeted(
                old(self).obj_encs@[k],
                old(self).objs@[k],
                old(self).opts.reserve_enc_vars,
            ));
            if k == i {
                lemma_encodes_kept(self.obj_encs@[k], old(self).obj_encs@[k], self.objs@[k]);
            }
        }
        proof {
            if self.obj_encs@[i as int] == old(self).obj_encs@[i as int] {
                assert(self.obj_encs@ =~= old(self).obj_encs@);
            }
        }
        match res {
            Ok(()) => {},
            Err(e) => {
                return Err(Termination::EncodingError(e));
            },
        }
        if collector.len() > 0 {
            match self.oracle.add_cnf(&collector) {
                Ok(()) => {},
                Err(e) => {
                    return Err(Termination::OracleError(e));
                },
            }
        }
        proof {
            if old(self).fed() {
                let formula = self.oracle.clauses();
                let before = old(self).oracle.clauses();
                let added = crate::oracle::clause_views(collector@);
                assert(collector@.subrange(0, collector@.len() as int) =~= collector@);
                assert(collector@.len() > 0 ==> formula == before + added);
                assert forall|x: int, k: int|
                    0 <= x < self.obj_encs@.len() && 0 <= k < self.obj_encs@[x].spec_clauses().len()
                        implies formula.contains(#[trigger] self.obj_encs@[x].spec_clauses()[k]) by {
                    let c = self.obj_encs@[x].spec_clauses()[k];
                    let was = old(self).obj_encs@[x].spec_clauses();
                    if x != i || k < was.len() {
                        assert(c == was[k]);
                        assert(before.contains(was[k]));
                        let j = choose|j: int| 0 <= j < before.len() && before[j] == c;
                        assert(formula[j] == c);
                    } else {
                        assert(c == added[k - was.len()]);
                        assert(formula[before.len() + (k - was.len())] == c);
                    }
                }
            }
        }
        Ok(())
    }

    /// The assumptions under which objective `i` costs at most `ub`: none
    /// where `ub` is not below the highest cost of the objective, and one
    /// for any other bound of an unweighted objective. There is no answer
    /// where the encoder has not encoded the bound.
    fn enforce_ub(&self, i: usize, ub: usize) -> (r: Result<Vec<Lit>, Termination>)
        requires
            self.wf(),
            i < self.objs@.len(),
        ensures
            r is Ok <==> self.obj_encs@[i as int].can_enforce(ub),
            r matches Ok(lits) ==> lits@ == self.obj_encs@[i as int].spec_assumps(ub),
            self.objs@[i as int] is Constant ==> (r matches Ok(lits) && lits@.len() == 0),
            ub >= self.objs@[i as int].max_internal() ==> (r matches Ok(lits) && lits@.len()
                == 0),
            r matches Ok(lits) ==> self.objs@[i as int] is Unweighted && ub
                < self.objs@[i as int].max_internal() ==> lits@.len() == 1,
            r matches Err(t) ==> t == Termination::EncodingError(EncodingError::NotEncoded),
            self.fed() ==> (r matches Ok(lits) ==> forall|m: Seq<TernaryVal>| #[trigger]
                crate::oracle::models(m, self.oracle.clauses(), lits@)
                    ==> self.objs@[i as int].internal_cost(m) <= ub),
    {
        assert(encodes(self.obj_encs@[i as int], self.objs@[i as int]));
        assert(self.objs@[i as int].wf());
        proof {
            lemma_encodes_size(self.obj_encs@[i as int], self.objs@[i as int]);
        }
        let r = self.obj_encs[i].enforce_ub(ub);
        proof {
            if self.fed() && r is Ok {
                let lits = r->Ok_0@;
                let enc = self.obj_encs@[i as int];
                let obj = self.objs@[i as int];
                assert forall|m: Seq<TernaryVal>| #[trigger]
                    crate::oracle::models(
                        m,
                        self.oracle.clauses(),
                        lits,
                    ) implies obj.internal_cost(m) <= ub by {
                    assert forall|k: int| 0 <= k < lits.len() implies lits.contains(
                        #[trigger] lits[k],
                    ) by {}
                    crate::pminimal::lemma_models_part(
                        m,
                        self.oracle.clauses(),
                        lits,
                        enc.spec_clauses(),
                        lits,
                    );
                    assert(enc.bounds(m, ub));
                    match obj {
                        Objective::Weighted { lits: ls, .. } => {
                            assert(enc.sums(ls@));
                        },
                        Objective::Unweighted { lits: ls, .. } => {
                            assert(enc.counts(ls@));
                        },
                        Objective::Constant { .. } => {},
                    }
                }
            }
        }
        match r {
            Ok(lits) => Ok(lits),
            Err(e) => Err(Termination::EncodingError(e)),
        }
    }

    /// The assumptions under which the next solution costs no more than
    /// `costs` in any objective. Each encoder is first made to encode its
    /// bound; what it emits goes to the oracle. Then each encoder gives its
    /// assumptions, in the order of the objectives: none for a cost that is
    /// not below the highest cost of the objective, and one for any other
    /// cost of an unweighted objective. Afterwards every encoder can enforce
    /// its bound. Where the oracle holds the clauses of the encoders, every
    /// solution that it finds under the assumptions costs no more than
    /// `costs` says in any objective.
    ///
    /// The call fails only for want of memory or of variables in an
    /// encoder.
    pub fn enforce_dominating(&mut self, costs: &Vec<usize>) -> (r: Result<Vec<Lit>, Termination>)
        requires
            old(self).wf(),
            costs@.len() == old(self).objs@.len(),
        ensures
            final(self).wf(),
            final(self).extends(*old(self)),
            final(self).stats == old(self).stats,
            final(self).lims == old(self).lims,
            final(self).pareto_front == old(self).pareto_front,
            final(self).oracle.answers() == old(self).oracle.answers(),
            all_constant(old(self).objs@) ==>
                (r matches Ok(lits) && lits@.len() == 0) && final(self).oracle == old(self).oracle,
            slack(old(self).objs@, costs@) ==>
                (r matches Ok(lits) && lits@.len() == 0) && final(self).oracle == old(self).oracle
                    && final(self).var_manager == old(self).var_manager,
            r matches Ok(lits) ==> lits@ == all_assumps(
                final(self).obj_encs@,
                costs@,
                costs@.len() as int,
            ),
            r is Ok ==> forall|k: int|
                0 <= k < costs@.len() ==> (#[trigger] final(self).obj_encs@[k]).can_enforce(
                    costs@[k],
                ),
            r matches Ok(lits) ==> lits@.len() >= tight_unweighted(old(self).objs@, costs@),
            r matches Ok(lits) ==> none_weighted(old(self).objs@) ==> lits@.len()
                == tight_unweighted(old(self).objs@, costs@),
            r matches Err(t) ==> (t matches Termination::EncodingError(e) && (e
                == EncodingError::OutOfMemory || e == EncodingError::OutOfVariables)),
            r is Ok ==> bounds_settled(final(self).obj_encs@, costs@),
            old(self).fed() && r is Ok ==> final(self).fed(),
            old(self).fed() ==> (r matches Ok(lits) ==> bound_costs(
                final(self).oracle.clauses(),
                lits@,
                old(self).objs@,
                costs@,
                costs@.len() as int,
            )),
            bounds_settled(old(self).obj_encs@, costs@) && old(self).rooms(costs@) ==> r is Ok
                && final(self).obj_encs@ == old(self).obj_encs@ && final(self).oracle == old(
                self,
            ).oracle && final(self).var_manager == old(self).var_manager,
            (exists|i: int| old(self).stuck_at(costs@, i)) ==> r == Err::<Vec<Lit>, Termination>(
                Termination::EncodingError(EncodingError::OutOfVariables),
            ) && final(self).obj_encs@ == old(self).obj_encs@ && final(self).oracle == old(
                self,
            ).oracle && final(self).var_manager == old(self).var_manager,
    {
        let mut assumps: Vec<Lit> = Vec::new();
        let mut i: usize = 0;
        assert(old(self).objs@.subrange(0, 0) =~= Seq::<Objective>::empty());
        while i < costs.len()
            invariant
                i <= costs@.len(),
                costs@.len() == old(self).objs@.len(),
                self.wf(),
                self.extends(*old(self)),
                self.stats == old(self).stats,
                self.lims == old(self).lims,
                self.pareto_front == old(self).pareto_front,
                self.oracle.answers() == old(self).oracle.answers(),
                all_constant(old(self).objs@) ==>
                    assumps@.len() == 0 && self.oracle == old(self).oracle,
                slack(old(self).objs@, costs@) ==>
                    assumps@.len() == 0 && self.oracle == old(self).oracle &&
                        self.var_manager == old(self).var_manager,
                assumps@.len() >= tight_unweighted(old(self).objs@.subrange(0, i as int), costs@),
                assumps@ == all_assumps(self.obj_encs@, costs@, i as int),
                forall|k: int|
                    0 <= k < i ==> (#[trigger] self.obj_encs@[k]).can_enforce(costs@[k])
                        && self.obj_encs@[k].settled(costs@[k], bound_end(costs@[k])),
                forall|k: int|
                    i <= k < costs@.len() ==> #[trigger] self.obj_encs@[k] == old(
                        self,
                    ).obj_encs@[k],
                bounds_settled(old(self).obj_encs@, costs@) && old(self).rooms(costs@)
                    ==> self.obj_encs@ == old(self).obj_encs@ && self.oracle == old(self).oracle
                    && self.var_manager == old(self).var_manager,
                forall|at: int| #[trigger] old(self).stuck_at(costs@, at) ==> i <= at,
                old(self).fed() ==> self.fed() && bound_costs(
                    self.oracle.clauses(),
                    assumps@,
                    old(self).objs@,
                    costs@,
                    i as int,
                ),
                (forall|k: int|
                    0 <= k < i ==> !#[trigger] old(self).has_work(
                        k,
                        costs@[k],
                        bound_end(costs@[k]),
                    )) ==> self.obj_encs@ == old(self).obj_encs@ && self.oracle == old(self).oracle
                    && self.var_manager == old(self).var_manager,
                none_weighted(old(self).objs@) ==> assumps@.len() == tight_unweighted(
                    old(self).objs@.subrange(0, i as int),
                    costs@,
                ),
            decreases costs.len() - i,
        {
            let cst = costs[i];
            let end = if cst < usize::MAX {
                cst + 1
            } else {
                cst
            };
            let ghost before = *self;
            let ghost obj = old(self).objs@[i as int];
            let ghost settled = bounds_settled(old(self).obj_encs@, costs@) && old(self).rooms(
                costs@,
            );
            let ghost idle = forall|k: int|
                0 <= k < i ==> !#[trigger] old(self).has_work(k, costs@[k], bound_end(costs@[k]));
            assert(obj.wf());
            proof {
                crate::tightening::lemma_max_internal(obj);
                assert(end == bound_end(cst));
                assert(before.obj_encs@[i as int] == old(self).obj_encs@[i as int]);
                assert(before.has_work(i as int, cst, end) == old(self).has_work(
                    i as int,
                    cst,
                    end,
                ));
                if settled {
                    assert(old(self).obj_encs@[i as int].settled(cst, end));
                    assert(old(self).has_work(i as int, cst, end) ==> old(self).has_room(
                        i as int,
                    ));
                    assert(before.has_room(i as int) == old(self).has_room(i as int));
                }
                if idle {
                    assert(before.has_room(i as int) == old(self).has_room(i as int));
                }
            }
            let encoded = self.encode_ub_change(i, cst, end);
            proof {
                if exists|at: int| old(self).stuck_at(costs@, at) {
                    let at = choose|at: int| old(self).stuck_at(costs@, at);
                    assert(i <= at);
                    if i < at {
                        assert(!old(self).has_work(i as int, costs@[i as int], end));
                    } else {
                        assert(idle);
                    }
                }
            }
            match encoded {
                Ok(()) => {},
                Err(e) => {
                    proof {
                        lemma_extends_trans(*self, before, *old(self));
                        assert(!(old(self).objs@[i as int] is Constant));
                    }
                    return Err(e);
                },
            }
            proof {
                lemma_extends_trans(*self, before, *old(self));
                assert(old(self).objs@.subrange(0, i + 1).drop_last() =~= old(self).objs@.subrange(
                    0,
                    i as int,
                ));
                lemma_all_assumps_agree(self.obj_encs@, before.obj_encs@, costs@, i as int);
            }
            let ghost earlier = assumps@;
            match self.enforce_ub(i, cst) {
                Ok(mut lits) => {
                    let ghost part = lits@;
                    assumps.append(&mut lits);
                    proof {
                        if old(self).fed() {
                            let formula = self.oracle.clauses();
                            assert forall|m: Seq<TernaryVal>| #[trigger]
                                crate::oracle::models(
                                    m,
                                    formula,
                                    assumps@,
                                ) implies costs_bounded(old(self).objs@, m, costs@, i + 1) by {
                                assert forall|k: int| 0 <= k < earlier.len() implies
                                    assumps@.contains(#[trigger] earlier[k]) by {
                                    assert(assumps@[k] == earlier[k]);
                                }
                                assert forall|k: int| 0 <= k < part.len() implies assumps@.contains(
                                    #[trigger] part[k],
                                ) by {
                                    assert(assumps@[earlier.len() + k] == part[k]);
                                }
                                assert forall|k: int| 0 <= k < before.oracle.clauses().len() implies
                                    formula.contains(#[trigger] before.oracle.clauses()[k]) by {
                                    assert(formula[k] == before.oracle.clauses()[k]);
                                }
                                assert forall|k: int| 0 <= k < formula.len() implies
                                    formula.contains(#[trigger] formula[k]) by {}
                                crate::pminimal::lemma_models_part(
                                    m,
                                    formula,
                                    assumps@,
                                    before.oracle.clauses(),
                                    earlier,
                                );
                                crate::pminimal::lemma_models_part(
                                    m,
                                    formula,
                                    assumps@,
                                    formula,
                                    part,
                                );
                                assert(costs_bounded(old(self).objs@, m, costs@, i as int));
                            }
                        }
                    }
                },
                Err(e) => {
                    return Err(e);
                },
            }
            i += 1;
        }
        proof {
            assert(old(self).objs@.subrange(0, i as int) =~= old(self).objs@);
        }
        Ok(assumps)
    }

    /// A clause that holds in exactly the solutions that cost less than
    /// `costs` in some objective: it has one literal for each objective
    /// that is not constant and whose cost is above zero. The literal
    /// stands for the assumptions that enforce the next lower cost. What
    /// the encoders emit, and the clauses that define the literals, go to
    /// the oracle.
    pub fn dominated_block_clause(&mut self, costs: &Vec<usize>) -> (r: Result<Clause, Termination>)
        requires
            old(self).wf(),
            costs@.len() == old(self).objs@.len(),
        ensures
            final(self).wf(),
            final(self).extends(*old(self)),
            final(self).stats == old(self).stats,
            final(self).lims == old(self).lims,
            final(self).pareto_front == old(self).pareto_front,
            final(self).oracle.answers() == old(self).oracle.answers(),
            r matches Ok(clause) ==> clause@.len() == improvable(old(self).objs@, costs@),
            r matches Ok(clause) ==> blocks_dominated(
                old(self).objs@,
                final(self).obj_encs@,
                costs@,
                clause@,
                old(self).var_manager.next_var,
                final(self).var_manager.next_var,
                costs@.len() as int,
            ),
            r matches Ok(clause) ==> defines_dominated(
                old(self).objs@,
                final(self).obj_encs@,
                costs@,
                clause@,
                final(self).oracle.clauses(),
                costs@.len() as int,
            ),
            improvable(old(self).objs@, costs@) == 0 ==>
                r is Ok && final(self).oracle == old(self).oracle,
            old(self).fed() && r is Ok ==> final(self).fed(),
            old(self).fed() ==> (r matches Ok(clause) ==> blocks_only_dominated(
                final(self).oracle.clauses(),
                clause@,
                old(self).objs@,
                costs@,
            )),
            (exists|i: int| old(self).stuck_below(costs@, i)) ==> r == Err::<Clause, Termination>(
                Termination::EncodingError(EncodingError::OutOfVariables),
            ) && final(self).obj_encs@ == old(self).obj_encs@ && final(self).oracle == old(
                self,
            ).oracle && final(self).var_manager == old(self).var_manager,
            r matches Err(t) ==> (t matches Termination::EncodingError(e) && (e
                == EncodingError::OutOfMemory || e == EncodingError::OutOfVariables)),
    {
        let mut clause = Clause::new();
        let mut i: usize = 0;
        while i < costs.len()
            invariant
                i <= costs@.len(),
                costs@.len() == old(self).objs@.len(),
                self.wf(),
                self.extends(*old(self)),
                self.stats == old(self).stats,
                self.lims == old(self).lims,
                self.pareto_front == old(self).pareto_front,
                self.oracle.answers() == old(self).oracle.answers(),
                clause@.len() == improvable(old(self).objs@.subrange(0, i as int), costs@),
                blocks_dominated(
                    old(self).objs@,
                    self.obj_encs@,
                    costs@,
                    clause@,
                    old(self).var_manager.next_var,
                    self.var_manager.next_var,
                    i as int,
                ),
                defines_dominated(
                    old(self).objs@,
                    self.obj_encs@,
                    costs@,
                    clause@,
                    self.oracle.clauses(),
                    i as int,
                ),
                improvable(old(self).objs@.subrange(0, i as int), costs@) == 0 ==>
                    self.oracle == old(self).oracle,
                (forall|k: int| 0 <= k < i ==> !#[trigger] improvable_at(old(self).objs@, costs@, k))
                    ==> self.obj_encs@ == old(self).obj_encs@ && self.oracle == old(self).oracle
                    && self.var_manager == old(self).var_manager,
                forall|at: int| #[trigger] old(self).stuck_below(costs@, at) ==> i <= at,
                old(self).fed() ==> self.fed() && blocks_only_dominated(
                    self.oracle.clauses(),
                    clause@,
                    old(self).objs@,
                    costs@,
                ),
                improvable(old(self).objs@.subrange(0, i as int), costs@) <= improvable(
                    old(self).objs@,
                    costs@,
                ),
            decreases costs.len() - i,
        {
            let cst = costs[i];
            let ghost top = *self;
            proof {
                let objs = old(self).objs@;
                assert(objs.subrange(0, i + 1).drop_last() =~= objs.subrange(0, i as int));
                assert(objs.subrange(0, i + 1).last() == objs[i as int]);
                lemma_improvable_prefix(objs, costs@, i + 1);
            }
            let constant = match &self.objs[i] {
                Objective::Constant { .. } => true,
                _ => false,
            };
            if cst > 0 && !constant {
                assert(improvable(old(self).objs@, costs@) > 0);
                let ghost before = *self;
                let ghost idle = forall|k: int|
                    0 <= k < i ==> !#[trigger] improvable_at(old(self).objs@, costs@, k);
                proof {
                    if idle {
                        assert(before.has_room(i as int) == old(self).has_room(i as int));
                    }
                }
                let encoded = self.encode_ub_change(i, cst - 1, cst);
                proof {
                    if exists|at: int| old(self).stuck_below(costs@, at) {
                        let at = choose|at: int| old(self).stuck_below(costs@, at);
                        assert(i <= at);
                        if i < at {
                            assert(!improvable_at(old(self).objs@, costs@, i as int));
                        } else {
                            assert(idle);
                        }
                    }
                }
                match encoded {
                    Ok(()) => {},
                    Err(e) => {
                        proof {
                            lemma_extends_trans(*self, before, *old(self));
                        }
                        return Err(e);
                    },
                }
                proof {
                    lemma_extends_trans(*self, before, *old(self));
                }
                let ghost asked = *self;
                let assumps = match self.enforce_ub(i, cst - 1) {
                    Ok(lits) => lits,
                    Err(e) => {
                        return Err(e);
                    },
                };
                let ghost fresh = self.var_manager.next_var;
                let (lit, and_impl) = match make_block_literal(&assumps, &mut self.var_manager) {
                    Ok(out) => out,
                    Err(e) => {
                        return Err(Termination::EncodingError(e));
                    },
                };
                let ghost pre = self.oracle.clauses();
                if and_impl.len() > 0 {
                    match self.oracle.add_cnf(&and_impl) {
                        Ok(()) => {},
                        Err(e) => {
                            return Err(Termination::OracleError(e));
                        },
                    }
                }
                let ghost short = clause@;
                clause.add(lit);
                proof {
                    if old(self).fed() {
                        let formula = self.oracle.clauses();
                        let objs = old(self).objs@;
                        let defs = crate::oracle::clause_views(and_impl@);
                        crate::pminimal::lemma_fed_kept(*self, asked);
                        assert forall|m: Seq<TernaryVal>| #[trigger]
                            crate::oracle::models(
                                m,
                                formula,
                                seq![lit],
                            ) implies objs[i as int].internal_cost(m) < costs@[i as int] by {
                            assert(lit_true(m, seq![lit][0]));
                            assert forall|k: int| 0 <= k < assumps@.len() implies lit_true(
                                m,
                                #[trigger] assumps@[k],
                            ) by {
                                if assumps@.len() == 1 {
                                    assert(assumps@[k] == lit);
                                } else {
                                    let d = defs[k];
                                    assert(formula[pre.len() + k] == d);
                                    assert(clause_sat(m, formula[pre.len() + k]));
                                    assert(d =~= seq![lit.spec_not(), assumps@[k]]);
                                    crate::types::lemma_not_involutive(lit);
                                    let x = choose|x: int|
                                        0 <= x < d.len() && lit_true(m, #[trigger] d[x]);
                                    if x == 0 {
                                        assert(lit_value(m, lit.spec_not()) == lit_value(
                                            m,
                                            lit,
                                        ).spec_flip());
                                    }
                                }
                            }
                            assert forall|k: int| 0 <= k < asked.oracle.clauses().len() implies
                                clause_sat(m, #[trigger] asked.oracle.clauses()[k]) by {
                                assert(formula[k] == asked.oracle.clauses()[k]);
                            }
                            assert(crate::oracle::models(m, asked.oracle.clauses(), assumps@));
                        }
                        assert(lower_at(formula, lit, objs, costs@, i as int));
                        assert(lower_under(formula, lit, objs, costs@));
                        assert forall|j: int| 0 <= j < clause@.len() implies lower_under(
                            formula,
                            #[trigger] clause@[j],
                            objs,
                            costs@,
                        ) by {
                            if j < short.len() {
                                assert(clause@[j] == short[j]);
                                assert(lower_under(top.oracle.clauses(), short[j], objs, costs@));
                                lemma_lower_under_kept(
                                    top.oracle.clauses(),
                                    formula,
                                    short[j],
                                    objs,
                                    costs@,
                                );
                            }
                        }
                    }
                    let objs = old(self).objs@;
                    assert(improvable_at(objs, costs@, i as int));
                    let defs = crate::oracle::clause_views(and_impl@);
                    assert(top.oracle.clauses().is_prefix_of(pre));
                    assert(pre.is_prefix_of(self.oracle.clauses()));
                    assert forall|k: int| 0 <= k < i + 1 && improvable_at(
                        objs,
                        costs@,
                        k,
                    ) implies #[trigger] defined_at(
                        objs,
                        self.obj_encs@,
                        costs@,
                        clause@,
                        self.oracle.clauses(),
                        k,
                    ) by {
                        if k < i {
                            assert(self.obj_encs@[k] == top.obj_encs@[k]);
                            assert(defined_at(
                                objs,
                                top.obj_encs@,
                                costs@,
                                short,
                                top.oracle.clauses(),
                                k,
                            ));
                            lemma_defined_kept(
                                objs,
                                top.obj_encs@,
                                self.obj_encs@,
                                costs@,
                                short,
                                clause@,
                                top.oracle.clauses(),
                                self.oracle.clauses(),
                                k,
                            );
                        } else {
                            assert(objs.subrange(0, k) =~= objs.subrange(0, i as int));
                            assert(clause@[short.len() as int] == lit);
                            assert forall|d: int| 0 <= d < defs.len() implies
                                self.oracle.clauses().contains(#[trigger] defs[d]) by {
                                assert(self.oracle.clauses()[pre.len() + d] == defs[d]);
                            }
                        }
                    }
                    assert forall|k: int| 0 <= k < i + 1 && improvable_at(
                        objs,
                        costs@,
                        k,
                    ) implies #[trigger] blocked_at(
                        objs,
                        self.obj_encs@,
                        costs@,
                        clause@,
                        old(self).var_manager.next_var,
                        self.var_manager.next_var,
                        k,
                    ) by {
                        let at = improvable(objs.subrange(0, k), costs@) as int;
                        if k < i {
                            assert(self.obj_encs@[k] == top.obj_encs@[k]);
                            assert(blocked_at(
                                objs,
                                top.obj_encs@,
                                costs@,
                                short,
                                old(self).var_manager.next_var,
                                top.var_manager.next_var,
                                k,
                            ));
                            assert(at < short.len());
                            assert(stands_for(
                                top.obj_encs@[k],
                                costs@[k],
                                short[at],
                                old(self).var_manager.next_var,
                                top.var_manager.next_var,
                            ));
                            assert(clause@[at] == short[at]);
                        } else {
                            assert(objs.subrange(0, k) =~= objs.subrange(0, i as int));
                            assert(at == short.len());
                            assert(clause@[at] == lit);
                        }
                    }
                }
            } else {
                proof {
                    let objs = old(self).objs@;
                    assert(!improvable_at(objs, costs@, i as int));
                    assert forall|k: int| 0 <= k < i + 1 && improvable_at(
                        objs,
                        costs@,
                        k,
                    ) implies #[trigger] defined_at(
                        objs,
                        self.obj_encs@,
                        costs@,
                        clause@,
                        self.oracle.clauses(),
                        k,
                    ) by {
                        assert(k < i);
                    }
                    assert forall|k: int| 0 <= k < i + 1 && improvable_at(
                        objs,
                        costs@,
                        k,
                    ) implies #[trigger] blocked_at(
                        objs,
                        self.obj_encs@,
                        costs@,
                        clause@,
                        old(self).var_manager.next_var,
                        self.var_manager.next_var,
                        k,
                    ) by {
                        assert(k < i);
                    }
                }
            }
            i += 1;
        }
        proof {
            assert(old(self).objs@.subrange(0, costs@.len() as int) =~= old(self).objs@);
        }
        Ok(clause)
    }

    /// Blocks the solutions that `costs` dominates or equals, for good: the
    /// blocking clause is the last clause that goes to the oracle.
    pub fn block_dominated(&mut self, costs: &Vec<usize>) -> (r: Result<(), Termination>)
        requires
            old(self).wf(),
            costs@.len() == old(self).objs@.len(),
        ensures
            final(self).wf(),
            final(self).extends(*old(self)),
            final(self).stats == old(self).stats,
            final(self).lims == old(self).lims,
            final(self).pareto_front == old(self).pareto_front,
            final(self).oracle.answers() == old(self).oracle.answers(),
            r is Ok ==> {
                &&& final(self).oracle.clauses().len() > 0
                &&& final(self).oracle.clauses().last().len() == improvable(old(self).objs@, costs@)
                &&& blocks_dominated(
                    old(self).objs@,
                    final(self).obj_encs@,
                    costs@,
                    final(self).oracle.clauses().last(),
                    old(self).var_manager.next_var,
                    final(self).var_manager.next_var,
                    costs@.len() as int,
                )
                &&& defines_dominated(
                    old(self).objs@,
                    final(self).obj_encs@,
                    costs@,
                    final(self).oracle.clauses().last(),
                    final(self).oracle.clauses(),
                    costs@.len() as int,
                )
                &&& !final(self).oracle.has_model()
            },
            old(self).fed() && r is Ok ==> final(self).fed() && blocks_only_dominated(
                final(self).oracle.clauses(),
                final(self).oracle.clauses().last(),
                old(self).objs@,
                costs@,
            ),
            improvable(old(self).objs@, costs@) == 0 ==> r is Ok && final(self).oracle.clauses()
                == old(self).oracle.clauses().push(Seq::<Lit>::empty()),
            r matches Err(t) ==> (t matches Termination::EncodingError(e) && (e
                == EncodingError::OutOfMemory || e == EncodingError::OutOfVariables)),
    {
        let clause = match self.dominated_block_clause(costs) {
            Ok(c) => c,
            Err(e) => {
                return Err(e);
            },
        };
        let ghost mid = *self;
        let _ = self.oracle.add_clause(&clause);
        proof {
            assert(mid.oracle.clauses().is_prefix_of(self.oracle.clauses()));
            if old(self).fed() {
                crate::pminimal::lemma_fed_kept(*self, mid);
                assert forall|j: int| 0 <= j < clause@.len() implies lower_under(
                    self.oracle.clauses(),
                    #[trigger] clause@[j],
                    old(self).objs@,
                    costs@,
                ) by {
                    lemma_lower_under_kept(
                        mid.oracle.clauses(),
                        self.oracle.clauses(),
                        clause@[j],
                        old(self).objs@,
                        costs@,
                    );
                }
            }
            assert forall|k: int|
                0 <= k < costs@.len() && improvable_at(
                    old(self).objs@,
                    costs@,
                    k,
                ) implies #[trigger] defined_at(
                old(self).objs@,
                self.obj_encs@,
                costs@,
                clause@,
                self.oracle.clauses(),
                k,
            ) by {
                lemma_defined_kept(
                    old(self).objs@,
                    mid.obj_encs@,
                    self.obj_encs@,
                    costs@,
                    clause@,
                    clause@,
                    mid.oracle.clauses(),
                    self.oracle.clauses(),
                    k,
                );
            }
            if improvable(old(self).objs@, costs@) == 0 {
                assert(clause@ =~= Seq::<Lit>::empty());
            }
        }
        Ok(())
    }

    /// Blocks the solutions that `costs` dominates or equals, for the time
    /// being: the blocking clause goes to the oracle with one more literal,
    /// of a fresh variable, and the negation of that literal is returned.
    /// The block holds in every call that assumes the returned literal, and
    /// for good once the returned literal is added as a clause.
    pub fn tmp_block_dominated(&mut self, costs: &Vec<usize>) -> (r: Result<Lit, Termination>)
        requires
            old(self).wf(),
            costs@.len() == old(self).objs@.len(),
        ensures
            final(self).wf(),
            final(self).extends(*old(self)),
            final(self).stats == old(self).stats,
            final(self).lims == old(self).lims,
            final(self).pareto_front == old(self).pareto_front,
            final(self).oracle.answers() == old(self).oracle.answers(),
            r matches Ok(lit) ==> {
                &&& lit.spec_is_neg()
                &&& old(self).var_manager.next_var <=
                    lit.spec_vidx() < final(self).var_manager.next_var
                &&& final(self).oracle.clauses().len() > 0
                &&& final(self).oracle.clauses().last().len() == improvable(old(self).objs@, costs@)
                    + 1
                &&& final(self).oracle.clauses().last().last() == lit.spec_not()
                &&& blocks_dominated(
                    old(self).objs@,
                    final(self).obj_encs@,
                    costs@,
                    final(self).oracle.clauses().last().drop_last(),
                    old(self).var_manager.next_var,
                    final(self).var_manager.next_var,
                    costs@.len() as int,
                )
                &&& defines_dominated(
                    old(self).objs@,
                    final(self).obj_encs@,
                    costs@,
                    final(self).oracle.clauses().last().drop_last(),
                    final(self).oracle.clauses(),
                    costs@.len() as int,
                )
            },
            old(self).fed() && r is Ok ==> final(self).fed() && blocks_only_dominated(
                final(self).oracle.clauses(),
                final(self).oracle.clauses().last().drop_last(),
                old(self).objs@,
                costs@,
            ),
            r matches Err(t) ==> (t matches Termination::EncodingError(e) && (e
                == EncodingError::OutOfMemory || e == EncodingError::OutOfVariables)),
    {
        let mut clause = match self.dominated_block_clause(costs) {
            Ok(c) => c,
            Err(e) => {
                return Err(e);
            },
        };
        let ghost after = *self;
        let block_lit = match self.var_manager.new_var() {
            Some(v) => v.pos_lit(),
            None => {
                return Err(Termination::EncodingError(EncodingError::OutOfVariables));
            },
        };
        let ghost short = clause@;
        let ghost mid = *self;
        clause.add(block_lit);
        match self.oracle.add_clause(&clause) {
            Ok(()) => {},
            Err(e) => {
                return Err(Termination::OracleError(e));
            },
        }
        proof {
            assert(self.oracle.clauses().last().drop_last() =~= short);
            assert(mid.oracle.clauses().is_prefix_of(self.oracle.clauses()));
            if old(self).fed() {
                crate::pminimal::lemma_fed_kept(*self, after);
                assert forall|j: int| 0 <= j < short.len() implies lower_under(
                    self.oracle.clauses(),
                    #[trigger] short[j],
                    old(self).objs@,
                    costs@,
                ) by {
                    lemma_lower_under_kept(
                        after.oracle.clauses(),
                        self.oracle.clauses(),
                        short[j],
                        old(self).objs@,
                        costs@,
                    );
                }
            }
            assert forall|k: int|
                0 <= k < costs@.len() && improvable_at(
                    old(self).objs@,
                    costs@,
                    k,
                ) implies #[trigger] defined_at(
                old(self).objs@,
                self.obj_encs@,
                costs@,
                short,
                self.oracle.clauses(),
                k,
            ) by {
                lemma_defined_kept(
                    old(self).objs@,
                    mid.obj_encs@,
                    self.obj_encs@,
                    costs@,
                    short,
                    short,
                    after.oracle.clauses(),
                    self.oracle.clauses(),
                    k,
                );
            }
            assert forall|k: int|
                0 <= k < costs@.len() && improvable_at(
                    old(self).objs@,
                    costs@,
                    k,
                ) implies #[trigger] blocked_at(
                old(self).objs@,
                self.obj_encs@,
                costs@,
                short,
                old(self).var_manager.next_var,
                self.var_manager.next_var,
                k,
            ) by {
                assert(blocked_at(
                    old(self).objs@,
                    mid.obj_encs@,
                    costs@,
                    short,
                    old(self).var_manager.next_var,
                    after.var_manager.next_var,
                    k,
                ));
            }
        }
        Ok(block_lit.not())
    }

    /// The clause that blocks the Pareto-MCS of `sol`: the negations of all
    /// objective literals that `sol` makes true, sorted and each once.
    pub fn block_pareto_mcs(&self, sol: &Assignment) -> (c: Clause)
        requires
            self.wf(),
        ensures
            strictly_sorted(c@),
            forall|l: Lit| c@.contains(l) <==> pareto_mcs_lits(self.objs@, sol@).contains(l),
    {
        let mut blocking_clause = Clause::new();
        let mut i: usize = 0;
        while i < self.objs.len()
            invariant
                i <= self.objs@.len(),
                blocking_clause@ == pareto_mcs_lits(self.objs@.subrange(0, i as int), sol@),
            decreases self.objs.len() - i,
        {
            let obj = &self.objs[i];
            let n = obj.n_lits();
            let ghost start = blocking_clause@;
            let mut j: usize = 0;
            while j < n
                invariant
                    j <= n,
                    n == obj.spec_iter().len(),
                    blocking_clause@ ==
                        start + neg_true_lits(obj.spec_iter().subrange(0, j as int), sol@),
                decreases n - j,
            {
                let (l, _) = obj.lit_at(j);
                proof {
                    assert(obj.spec_iter().subrange(0, j + 1).drop_last() =~= obj.spec_iter().subrange(
                        0,
                        j as int,
                    ));
                    assert(obj.spec_iter().subrange(0, j + 1).last() == obj.spec_iter()[j as int]);
                }
                if sol.lit_value(l) == TernaryVal::True {
                    blocking_clause.add(l.not());
                    assert(blocking_clause@ =~= start + neg_true_lits(
                        obj.spec_iter().subrange(0, j + 1),
                        sol@,
                    ));
                }
                j += 1;
            }
            proof {
                assert(obj.spec_iter().subrange(0, n as int) =~= obj.spec_iter());
                assert(self.objs@.subrange(0, i + 1).drop_last() =~= self.objs@.subrange(0, i as int));
                assert(self.objs@.subrange(0, i + 1).last() == *obj);
            }
            i += 1;
        }
        proof {
            assert(self.objs@.subrange(0, self.objs@.len() as int) =~= self.objs@);
            lemma_pareto_mcs_false(self.objs@, sol@);
        }
        match blocking_clause.normalize() {
            Some(c) => c,
            None => Clause::new(),
        }
    }
}

/// The number of improvable objectives among the first `n` is at most that
/// among all.
pub proof fn lemma_improvable_prefix(objs: Seq<Objective>, costs: Seq<usize>, n: int)
    requires
        0 <= n <= objs.len(),
        costs.len() == objs.len(),
    ensures
        improvable(objs.subrange(0, n), costs) <= improvable(objs, costs),
    decreases objs.len() - n,
{
    if n == objs.len() {
        assert(objs.subrange(0, n) =~= objs);
    } else {
        lemma_improvable_prefix(objs, costs, n + 1);
        assert(objs.subrange(0, n + 1).drop_last() =~= objs.subrange(0, n));
    }
}

/// A later state of a later state is a later state.
pub proof fn lemma_extends_trans<BCG: BlockingClauseGen, L: WriteSolverLog, T: Terminator>(
    c: PMinimal<BCG, L, T>,
    b: PMinimal<BCG, L, T>,
    a: PMinimal<BCG, L, T>,
)
    requires
        c.extends(b),
        b.extends(a),
    ensures
        c.extends(a),
{
    let fa = a.pareto_front.ndoms@;
    let fb = b.pareto_front.ndoms@;
    let fc = c.pareto_front.ndoms@;
    assert(fa =~= fc.subrange(0, fa.len() as int)) by {
        assert forall|i: int| 0 <= i < fa.len() implies fa[i] == fc[i] by {
            assert(fa[i] == fb.subrange(0, fa.len() as int)[i]);
            assert(fb[i] == fc.subrange(0, fb.len() as int)[i]);
        }
    }
    let oa = a.oracle.clauses();
    let ob = b.oracle.clauses();
    let oc = c.oracle.clauses();
    assert(oa =~= oc.subrange(0, oa.len() as int)) by {
        assert forall|i: int| 0 <= i < oa.len() implies oa[i] == oc[i] by {
            assert(oa[i] == ob.subrange(0, oa.len() as int)[i]);
            assert(ob[i] == oc.subrange(0, ob.len() as int)[i]);
        }
    }
}

} // verus!
