//! Heuristic improvement of candidates: flipping objective literals that
//! the clauses do not need, and learning clauses from the witnesses.

use vstd::prelude::*;

use crate::index::{clause_linked, index_complete, is_stored, linked_to, mentions, ObjIndex};
use crate::objective::{lemma_total_weight_prefix, total_weight, weighted_cost, Objective};
use crate::types::{
    assign, clause_sat, lemma_assign, lit_true, lit_value, var_value, Assignment, Clause, Lit,
    TernaryVal,
};

verus! {

/// The first literal of `c` other than `l` that `a` makes true.
pub open spec fn pick(c: Seq<Lit>, l: Lit, a: Seq<TernaryVal>) -> Option<Lit>
    decreases c.len(),
{
    if c.len() == 0 {
        None
    } else {
        match pick(c.drop_last(), l, a) {
            Some(x) => Some(x),
            None => if c.last() != l && lit_true(a, c.last()) {
                Some(c.last())
            } else {
                None
            },
        }
    }
}

/// `pick` finds a true literal of the clause other than `l` exactly where
/// there is one.
pub proof fn lemma_pick(c: Seq<Lit>, l: Lit, a: Seq<TernaryVal>)
    ensures
        pick(c, l, a) matches Some(x) ==> x != l && lit_true(a, x) && c.contains(x),
        pick(c, l, a).is_none() ==> forall|i: int|
            0 <= i < c.len() ==> (#[trigger] c[i]) == l || !lit_true(a, c[i]),
    decreases c.len(),
{
    if c.len() > 0 {
        let t = c.drop_last();
        lemma_pick(t, l, a);
        match pick(t, l, a) {
            Some(x) => {
                let i = choose|i: int| 0 <= i < t.len() && t[i] == x;
                assert(c[i] == x);
            },
            None => {
                if c.last() != l && lit_true(a, c.last()) {
                    assert(c[c.len() - 1] == c.last());
                } else {
                    assert forall|i: int| 0 <= i < c.len() implies (#[trigger] c[i]) == l
                        || !lit_true(a, c[i]) by {
                        if i < t.len() {
                            assert(t[i] == c[i]);
                        }
                    }
                }
            },
        }
    }
}

/// The links point into the stored clauses.
pub open spec fn links_in_range(links: Seq<usize>, stored: Seq<Seq<Lit>>) -> bool {
    forall|i: int| 0 <= i < links.len() ==> (#[trigger] links[i]) < stored.len()
}

/// A flip witness for `l`: for each linked clause the literal that `pick`
/// finds in it, each literal once, in the order in which they are found.
/// There is none where some linked clause has no true literal but `l`.
pub open spec fn witness(stored: Seq<Seq<Lit>>, links: Seq<usize>, l: Lit, a: Seq<TernaryVal>) -> Option<
    Seq<Lit>,
>
    decreases links.len(),
{
    if links.len() == 0 {
        Some(Seq::empty())
    } else {
        match witness(stored, links.drop_last(), l, a) {
            Some(w) => match pick(stored[links.last() as int], l, a) {
                Some(x) => Some(
                    if w.contains(x) {
                        w
                    } else {
                        w.push(x)
                    },
                ),
                None => None,
            },
            None => None,
        }
    }
}

/// Some literal of `c` other than `l` is in `w`.
pub open spec fn kept_by(c: Seq<Lit>, l: Lit, w: Seq<Lit>) -> bool {
    exists|j: int| 0 <= j < c.len() && (#[trigger] c[j]) != l && w.contains(c[j])
}

/// No literal of `c` other than `l` is true under `a`.
pub open spec fn needs(c: Seq<Lit>, l: Lit, a: Seq<TernaryVal>) -> bool {
    forall|j: int| 0 <= j < c.len() ==> (#[trigger] c[j]) == l || !lit_true(a, c[j])
}

/// A witness holds true literals other than `l`, each once, and each linked
/// clause holds one of them: the clauses stay satisfied when `l` is made
/// false. Where there is no witness, some linked clause has no true literal
/// but `l`.
pub proof fn lemma_witness(stored: Seq<Seq<Lit>>, links: Seq<usize>, l: Lit, a: Seq<TernaryVal>)
    requires
        links_in_range(links, stored),
    ensures
        witness(stored, links, l, a) matches Some(w) ==> {
            &&& forall|i: int| 0 <= i < w.len() ==> (#[trigger] w[i]) != l && lit_true(a, w[i])
            &&& forall|k: int|
                0 <= k < links.len() ==> #[trigger] kept_by(stored[links[k] as int], l, w)
            &&& w.no_duplicates()
        },
        witness(stored, links, l, a).is_none() ==> exists|k: int|
            0 <= k < links.len() && #[trigger] needs(stored[links[k] as int], l, a),
    decreases links.len(),
{
    if links.len() > 0 {
        let t = links.drop_last();
        let last = links.last() as int;
        assert(links[links.len() - 1] == links.last());
        assert forall|i: int| 0 <= i < t.len() implies (#[trigger] t[i]) < stored.len() by {
            assert(t[i] == links[i]);
        }
        lemma_witness(stored, t, l, a);
        lemma_pick(stored[last], l, a);
        match witness(stored, t, l, a) {
            Some(w0) => {
                match pick(stored[last], l, a) {
                    Some(x) => {
                        let w = if w0.contains(x) {
                            w0
                        } else {
                            w0.push(x)
                        };
                        assert(w.contains(x)) by {
                            if !w0.contains(x) {
                                assert(w[w0.len() as int] == x);
                            }
                        }
                        assert forall|k: int| 0 <= k < links.len() implies #[trigger] kept_by(
                            stored[links[k] as int],
                            l,
                            w,
                        ) by {
                            if k < t.len() {
                                assert(t[k] == links[k]);
                                let c = stored[t[k] as int];
                                assert(kept_by(c, l, w0));
                                let j = choose|j: int|
                                    0 <= j < c.len() && (#[trigger] c[j]) != l && w0.contains(c[j]);
                                let p = choose|p: int| 0 <= p < w0.len() && w0[p] == c[j];
                                assert(w[p] == c[j]);
                            } else {
                                let c = stored[last];
                                let j = choose|j: int| 0 <= j < c.len() && c[j] == x;
                                assert(c[j] != l && w.contains(c[j]));
                            }
                        }
                    },
                    None => {
                        assert(needs(stored[links[links.len() - 1] as int], l, a));
                    },
                }
            },
            None => {
                let k = choose|k: int| 0 <= k < t.len() &&
                    #[trigger] needs(stored[t[k] as int], l, a);
                assert(t[k] == links[k]);
                assert(needs(stored[links[k] as int], l, a));
            },
        }
    }
}

/// The clause that a flip witness `w` for `l` teaches: not all of `w` and
/// `l` together.
pub open spec fn learned_clause(w: Seq<Lit>, l: Lit) -> Seq<Lit> {
    Seq::new(w.len(), |i: int| w[i].spec_not()).push(l.spec_not())
}

/// The first true literal of `clause` other than `lit`.
pub fn find_other_true(clause: &Clause, lit: Lit, sol: &Assignment) -> (r: Option<Lit>)
    ensures
        r == pick(clause@, lit, sol@),
{
    let mut i: usize = 0;
    while i < clause.len()
        invariant
            i <= clause@.len(),
            pick(clause@.subrange(0, i as int), lit, sol@).is_none(),
        decreases clause@.len() - i,
    {
        let other = clause.get(i);
        proof {
            assert(clause@.subrange(0, i + 1).drop_last() =~= clause@.subrange(0, i as int));
            assert(clause@.subrange(0, i + 1).last() == other);
        }
        if other != lit && sol.lit_value(other) == TernaryVal::True {
            proof {
                lemma_pick_extends(clause@, i + 1, lit, sol@);
            }
            return Some(other);
        }
        i += 1;
    }
    proof {
        assert(clause@.subrange(0, clause@.len() as int) =~= clause@);
    }
    None
}

/// What `pick` finds in a prefix it finds in the whole clause.
pub proof fn lemma_pick_extends(c: Seq<Lit>, n: int, l: Lit, a: Seq<TernaryVal>)
    requires
        0 <= n <= c.len(),
        pick(c.subrange(0, n), l, a).is_some(),
    ensures
        pick(c, l, a) == pick(c.subrange(0, n), l, a),
    decreases c.len() - n,
{
    if n == c.len() {
        assert(c.subrange(0, n) =~= c);
    } else {
        assert(c.subrange(0, n + 1).drop_last() =~= c.subrange(0, n));
        lemma_pick_extends(c, n + 1, l, a);
    }
}

/// Whether `w` holds `x`.
fn holds(w: &Vec<Lit>, x: Lit) -> (b: bool)
    ensures
        b == w@.contains(x),
{
    let mut i: usize = 0;
    while i < w.len()
        invariant
            i <= w@.len(),
            forall|j: int| 0 <= j < i ==> w@[j] != x,
        decreases w.len() - i,
    {
        if w[i] == x {
            return true;
        }
        i += 1;
    }
    false
}

/// Looks for a witness that allows to flip the objective literal `lit`: a
/// set of true literals other than `lit` that between them satisfy every
/// clause linked to `lit`.
pub fn find_flip_witness(index: &ObjIndex, lit: Lit, sol: &Assignment) -> (r: Option<Vec<Lit>>)
    requires
        index.wf(),
        index@.contains_key(lit),
        links_in_range(index@[lit].clauses, index.stored()),
    ensures
        r matches Some(w) ==> witness(index.stored(), index@[lit].clauses, lit, sol@) == Some(w@),
        r.is_none() ==> witness(index.stored(), index@[lit].clauses, lit, sol@).is_none(),
{
    let data = index.data_of(lit);
    let mut w: Vec<Lit> = Vec::new();
    let mut k: usize = 0;
    while k < data.clauses.len()
        invariant
            k <= data.clauses@.len(),
            data.clauses@ == index@[lit].clauses,
            links_in_range(index@[lit].clauses, index.stored()),
            witness(index.stored(), data.clauses@.subrange(0, k as int), lit, sol@) == Some(w@),
        decreases data.clauses.len() - k,
    {
        let at = data.clauses[k];
        proof {
            assert(data.clauses@.subrange(0, k + 1).drop_last() =~= data.clauses@.subrange(
                0,
                k as int,
            ));
            assert(data.clauses@.subrange(0, k + 1).last() == at);
        }
        match find_other_true(index.clause(at), lit, sol) {
            Some(x) => {
                if !holds(&w, x) {
                    w.push(x);
                }
            },
            None => {
                proof {
                    lemma_no_witness_extends(
                        index.stored(),
                        data.clauses@,
                        k + 1,
                        lit,
                        sol@,
                    );
                }
                return None;
            },
        }
        k += 1;
    }
    proof {
        assert(data.clauses@.subrange(0, data.clauses@.len() as int) =~= data.clauses@);
    }
    Some(w)
}

/// Where a prefix of the links has no witness, all of them have none.
pub proof fn lemma_no_witness_extends(
    stored: Seq<Seq<Lit>>,
    links: Seq<usize>,
    n: int,
    l: Lit,
    a: Seq<TernaryVal>,
)
    requires
        0 <= n <= links.len(),
        witness(stored, links.subrange(0, n), l, a).is_none(),
    ensures
        witness(stored, links, l, a).is_none(),
    decreases links.len() - n,
{
    if n == links.len() {
        assert(links.subrange(0, n) =~= links);
    } else {
        assert(links.subrange(0, n + 1).drop_last() =~= links.subrange(0, n));
        lemma_no_witness_extends(stored, links, n + 1, l, a);
    }
}

/// Builds the clause that the witness teaches.
pub fn learn_clause(w: &Vec<Lit>, lit: Lit) -> (c: Clause)
    ensures
        c@ == learned_clause(w@, lit),
{
    let mut c = Clause::new();
    let mut i: usize = 0;
    while i < w.len()
        invariant
            i <= w@.len(),
            c@.len() == i,
            forall|j: int| 0 <= j < i ==> c@[j] == w@[j].spec_not(),
        decreases w.len() - i,
    {
        c.add(w[i].not());
        i += 1;
    }
    c.add(lit.not());
    assert(c@ =~= learned_clause(w@, lit));
    c
}

/// The state of the improvement of one objective.
pub struct Improvement {
    /// The candidate, with the flips made so far.
    pub sol: Seq<TernaryVal>,
    /// The internal cost counted so far.
    pub cost: nat,
    /// The weight of the literals flipped so far.
    pub reduction: nat,
    /// The clauses learned so far.
    pub learned: Seq<Seq<Lit>>,
}

/// Whether a flip of `l` is looked for: `l` is true, an improvement is
/// wanted, and the negation of `l` is no objective literal.
pub open spec fn flip_considered(
    index: ObjIndex,
    l: Lit,
    a: Seq<TernaryVal>,
    tightening: bool,
    learning: bool,
) -> bool {
    lit_true(a, l) && (tightening || learning) && !index@.contains_key(l.spec_not())
}

/// One step of the improvement, for the literal `l` of weight `w`.
pub open spec fn improve_step(
    index: ObjIndex,
    s: Improvement,
    l: Lit,
    w: usize,
    tightening: bool,
    learning: bool,
) -> Improvement {
    if !lit_true(s.sol, l) {
        s
    } else if flip_considered(index, l, s.sol, tightening, learning) && witness(
        index.stored(),
        index.links(l).clauses,
        l,
        s.sol,
    ).is_some() {
        let wit = witness(index.stored(), index.links(l).clauses, l, s.sol).unwrap();
        let learned = if learning {
            s.learned.push(learned_clause(wit, l))
        } else {
            s.learned
        };
        if tightening {
            Improvement {
                sol: assign(s.sol, l.spec_not()),
                cost: s.cost,
                reduction: s.reduction + w as nat,
                learned,
            }
        } else {
            Improvement { sol: s.sol, cost: s.cost + w as nat, reduction: s.reduction, learned }
        }
    } else {
        Improvement {
            sol: s.sol,
            cost: s.cost + w as nat,
            reduction: s.reduction,
            learned: s.learned,
        }
    }
}

/// The improvement of the candidate `a` along the literals `lits`, taken
/// in their order.
pub open spec fn improve(
    index: ObjIndex,
    lits: Seq<(Lit, usize)>,
    a: Seq<TernaryVal>,
    tightening: bool,
    learning: bool,
) -> Improvement
    decreases lits.len(),
{
    if lits.len() == 0 {
        Improvement { sol: a, cost: 0, reduction: 0, learned: Seq::empty() }
    } else {
        improve_step(
            index,
            improve(index, lits.drop_last(), a, tightening, learning),
            lits.last().0,
            lits.last().1,
            tightening,
            learning,
        )
    }
}

/// Every objective literal has its links in range.
pub open spec fn index_links_in_range(index: ObjIndex) -> bool {
    forall|l: Lit| #[trigger]
        index@.contains_key(l) ==> links_in_range(index@[l].clauses, index.stored())
}

/// The cost and the reduction of an improvement add up to no more than the
/// weight of the literals.
pub proof fn lemma_improve_bounded(
    index: ObjIndex,
    lits: Seq<(Lit, usize)>,
    a: Seq<TernaryVal>,
    tightening: bool,
    learning: bool,
)
    ensures
        improve(index, lits, a, tightening, learning).cost + improve(
            index,
            lits,
            a,
            tightening,
            learning,
        ).reduction <= total_weight(lits),
        !tightening ==> improve(index, lits, a, tightening, learning).sol == a,
        !tightening ==> improve(index, lits, a, tightening, learning).reduction == 0,
        !tightening ==>
            improve(index, lits, a, tightening, learning).cost == weighted_cost(lits, a),
        !learning ==> improve(index, lits, a, tightening, learning).learned.len() == 0,
    decreases lits.len(),
{
    if lits.len() > 0 {
        lemma_improve_bounded(index, lits.drop_last(), a, tightening, learning);
    }
}

/// Improves the candidate `sol` along the literals of one objective.
///
/// Each literal that is true counts with its weight, unless a flip is made:
/// where an improvement is wanted, the literal's negation is no objective
/// literal and a flip witness is found, the literal is made false when
/// `tightening` is set, and the clause that the witness teaches is handed
/// out when `learning` is set. Returns the cost counted, the weight
/// flipped away, and the clauses learned.
pub fn improve_objective(
    index: &ObjIndex,
    obj: &Objective,
    sol: &mut Assignment,
    tightening: bool,
    learning: bool,
) -> (r: (usize, usize, Vec<Clause>))
    requires
        index.wf(),
        index_links_in_range(*index),
        obj.wf(),
        forall|i: int| 0 <= i < obj.spec_iter().len() ==>
            index@.contains_key(#[trigger] obj.spec_iter()[i].0),
    ensures
        final(sol)@ == improve(*index, obj.spec_iter(), old(sol)@, tightening, learning).sol,
        r.0 == improve(*index, obj.spec_iter(), old(sol)@, tightening, learning).cost,
        r.1 == improve(*index, obj.spec_iter(), old(sol)@, tightening, learning).reduction,
        crate::oracle::clause_views(r.2@) == improve(
            *index,
            obj.spec_iter(),
            old(sol)@,
            tightening,
            learning,
        ).learned,
        r.0 + r.1 <= obj.max_internal(),
{
    let n = obj.n_lits();
    let mut cost: usize = 0;
    let mut reduction: usize = 0;
    let mut learned: Vec<Clause> = Vec::new();
    let ghost lits = obj.spec_iter();
    let ghost start = sol@;
    proof {
        lemma_max_internal(*obj);
    }
    let mut i: usize = 0;
    while i < n
        invariant
            i <= n,
            n == lits.len(),
            lits == obj.spec_iter(),
            index.wf(),
            index_links_in_range(*index),
            forall|j: int| 0 <= j < lits.len() ==> index@.contains_key(#[trigger] lits[j].0),
            total_weight(lits) <= usize::MAX,
            sol@ == improve(*index, lits.subrange(0, i as int), start, tightening, learning).sol,
            cost == improve(*index, lits.subrange(0, i as int), start, tightening, learning).cost,
            reduction == improve(
                *index,
                lits.subrange(0, i as int),
                start,
                tightening,
                learning,
            ).reduction,
            crate::oracle::clause_views(learned@) == improve(
                *index,
                lits.subrange(0, i as int),
                start,
                tightening,
                learning,
            ).learned,
        decreases n - i,
    {
        let (l, w) = obj.lit_at(i);
        proof {
            assert(lits.subrange(0, i + 1).drop_last() =~= lits.subrange(0, i as int));
            assert(lits.subrange(0, i + 1).last() == (l, w));
            lemma_improve_bounded(*index, lits.subrange(0, i + 1), start, tightening, learning);
            lemma_total_weight_prefix(lits, i + 1);
            assert(index@.contains_key(lits[i as int].0));
        }
        if sol.lit_value(l) == TernaryVal::True {
            let mut flipped = false;
            if (tightening || learning) && !index.contains(l.not()) {
                match find_flip_witness(index, l, sol) {
                    Some(wit) => {
                        if learning {
                            let c = learn_clause(&wit, l);
                            let ghost before = crate::oracle::clause_views(learned@);
                            learned.push(c);
                            assert(crate::oracle::clause_views(learned@) =~= before.push(
                                learned_clause(wit@, l),
                            ));
                        }
                        if tightening {
                            sol.assign_lit(l.not());
                            reduction = reduction + w;
                            flipped = true;
                        }
                    },
                    None => {},
                }
            }
            if !flipped {
                cost = cost + w;
            }
        }
        i += 1;
    }
    proof {
        assert(lits.subrange(0, n as int) =~= lits);
        lemma_improve_bounded(*index, lits, start, tightening, learning);
    }
    (cost, reduction, learned)
}

/// The literals of a well-formed objective weigh, in internal units, what
/// its highest internal cost says.
pub proof fn lemma_max_internal(obj: Objective)
    requires
        obj.wf(),
    ensures
        total_weight(obj.spec_iter()) == obj.max_internal(),
        obj.max_internal() <= usize::MAX,
{
    match obj {
        Objective::Weighted { lits, .. } => {},
        Objective::Unweighted { lits, unit_weight, .. } => {
            crate::objective::lemma_uniform(obj.spec_iter(), 1, Seq::empty());
            assert(unit_weight * lits@.len() >= lits@.len()) by (nonlinear_arith)
                requires
                    unit_weight >= 1,
            ;
        },
        Objective::Constant { .. } => {},
    }
}

/// Every clause linked to `l` holds a literal other than `l` that is in
/// `w`.
pub open spec fn covers(stored: Seq<Seq<Lit>>, links: Seq<usize>, l: Lit, w: Seq<Lit>) -> bool {
    forall|k: int| 0 <= k < links.len() ==> #[trigger] kept_by(stored[links[k] as int], l, w)
}

/// `a` makes every literal of `w` true.
pub open spec fn all_true(a: Seq<TernaryVal>, w: Seq<Lit>) -> bool {
    forall|i: int| 0 <= i < w.len() ==> lit_true(a, #[trigger] w[i])
}

/// A clause that is satisfied stays satisfied when `l` is made false,
/// unless `l` is its only true literal.
pub proof fn lemma_flip_one_clause(c: Seq<Lit>, l: Lit, a: Seq<TernaryVal>)
    requires
        clause_sat(a, c),
        lit_true(a, l),
    ensures
        clause_sat(assign(a, l.spec_not()), c) || needs(c, l, a),
{
    let b = assign(a, l.spec_not());
    lemma_assign(a, l.spec_not());
    if !needs(c, l, a) {
        let j = choose|j: int| 0 <= j < c.len() && !((#[trigger] c[j]) == l || !lit_true(a, c[j]));
        let x = c[j];
        if x.spec_vidx() == l.spec_vidx() {
            // the other literal of the same variable is false under `a`
            assert(x == l.spec_not());
            assert(false);
        }
        assert(lit_true(b, c[j]));
    }
}

/// Making an objective literal false is sound where a set of true literals
/// covers the clauses linked to it.
///
/// Let the index be complete for the hard clauses `hard` and the table
/// `blits`, let `l` be an objective literal, and let `w` hold, for every
/// clause linked to `l`, a literal of the clause other than `l`. Then every
/// assignment `m` that makes `l` and all of `w` true can do without `l`:
/// each hard clause and each relaxed soft clause that `m` satisfies is
/// satisfied after `l` is made false as well. The clause that `w` teaches
/// for `l` is satisfied then, too. So the clause that is learned from `w`
/// cuts off no assignment without leaving one that is as good.
pub proof fn lemma_flip_sound(
    index: ObjIndex,
    blits: Seq<(Seq<Lit>, Lit)>,
    hard: Seq<Seq<Lit>>,
    l: Lit,
    w: Seq<Lit>,
    m: Seq<TernaryVal>,
)
    requires
        index_complete(index, blits, hard),
        index_links_in_range(index),
        index@.contains_key(l),
        covers(index.stored(), index@[l].clauses, l, w),
        all_true(m, w),
        lit_true(m, l),
    ensures
        forall|i: int|
            0 <= i < hard.len() && clause_sat(m, #[trigger] hard[i]) ==> clause_sat(
                assign(m, l.spec_not()),
                hard[i],
            ),
        forall|k: int|
            0 <= k < blits.len() && clause_sat(m, (#[trigger] blits[k]).0.push(blits[k].1))
                ==> clause_sat(assign(m, l.spec_not()), blits[k].0.push(blits[k].1)),
        clause_sat(assign(m, l.spec_not()), learned_clause(w, l)),
{
    let b = assign(m, l.spec_not());
    let stored = index.stored();
    let links = index@[l].clauses;
    lemma_assign(m, l.spec_not());
    // a stored clause that is linked to `l` has a true literal other than `l`
    assert forall|k: int| 0 <= k < stored.len() && linked_to(links, k) implies !needs(
        #[trigger] stored[k],
        l,
        m,
    ) by {
        let p = choose|p: int| 0 <= p < links.len() && (#[trigger] links[p]) == k;
        assert(kept_by(stored[links[p] as int], l, w));
        let c = stored[k];
        let j = choose|j: int| 0 <= j < c.len() && (#[trigger] c[j]) != l && w.contains(c[j]);
        let q = choose|q: int| 0 <= q < w.len() && w[q] == c[j];
        assert(lit_true(m, w[q]));
    }
    assert forall|i: int| 0 <= i < hard.len() && clause_sat(m, #[trigger] hard[i]) implies
        clause_sat(
        b,
        hard[i],
    ) by {
        let c = hard[i];
        lemma_flip_one_clause(c, l, m);
        if needs(c, l, m) {
            // the clause is satisfied by `l` alone: it holds `l`, so it is stored and linked
            let t = choose|t: int| 0 <= t < c.len() && lit_true(m, #[trigger] c[t]);
            assert(c[t] == l);
            assert(mentions(index, c));
            assert(is_stored(index, c));
            let k = choose|k: int| 0 <= k < stored.len() && #[trigger] stored[k] == c;
            assert(clause_linked(index, k));
            assert(index@.contains_key(stored[k][t]));
            assert(linked_to(links, k));
            assert(!needs(stored[k], l, m));
        }
    }
    assert forall|k: int|
        0 <= k < blits.len() && clause_sat(m, (#[trigger] blits[k]).0.push(blits[k].1)) implies
            clause_sat(
        b,
        blits[k].0.push(blits[k].1),
    ) by {
        let c = blits[k].0.push(blits[k].1);
        lemma_flip_one_clause(c, l, m);
        if needs(c, l, m) {
            let t = choose|t: int| 0 <= t < c.len() && lit_true(m, #[trigger] c[t]);
            assert(c[t] == l);
            assert(stored[k] == blits[k].0);
            if t == blits[k].0.len() {
                // `l` is the blocking literal of the clause
                assert(linked_to(links, k));
            } else {
                assert(stored[k][t] == l);
                assert(clause_linked(index, k));
                assert(index@.contains_key(stored[k][t]));
                assert(linked_to(links, k));
            }
            assert(!needs(stored[k], l, m));
            let j = choose|j: int|
                0 <= j < stored[k].len() && !((#[trigger] stored[k][j]) == l || !lit_true(
                    m,
                    stored[k][j],
                ));
            assert(c[j] == stored[k][j]);
            assert(false);
        }
    }
    let lc = learned_clause(w, l);
    assert(lc[w.len() as int] == l.spec_not());
    assert(lit_true(b, lc[w.len() as int]));
}

/// A flip witness covers the clauses linked to the literal, with literals
/// that the candidate makes true.
pub proof fn lemma_witness_covers(
    stored: Seq<Seq<Lit>>,
    links: Seq<usize>,
    l: Lit,
    a: Seq<TernaryVal>,
)
    requires
        links_in_range(links, stored),
        witness(stored, links, l, a).is_some(),
    ensures
        covers(stored, links, l, witness(stored, links, l, a).unwrap()),
        all_true(a, witness(stored, links, l, a).unwrap()),
{
    lemma_witness(stored, links, l, a);
}

/// `b` makes no objective literal true that `a` does not make true.
pub open spec fn no_new_true(index: ObjIndex, a: Seq<TernaryVal>, b: Seq<TernaryVal>) -> bool {
    forall|x: Lit| index@.contains_key(x) && #[trigger] lit_true(b, x) ==> lit_true(a, x)
}

/// `b` satisfies every clause of `hard` and every relaxed clause of the
/// table `blits` that `a` satisfies.
pub open spec fn keeps_clauses(
    blits: Seq<(Seq<Lit>, Lit)>,
    hard: Seq<Seq<Lit>>,
    a: Seq<TernaryVal>,
    b: Seq<TernaryVal>,
) -> bool {
    &&& forall|i: int| 0 <= i < hard.len() && clause_sat(a, #[trigger] hard[i]) ==>
        clause_sat(b, hard[i])
    &&& forall|k: int|
        0 <= k < blits.len() && clause_sat(a, (#[trigger] blits[k]).0.push(blits[k].1)) ==>
            clause_sat(
            b,
            blits[k].0.push(blits[k].1),
        )
}

/// Some literal of `lits` with the variable `v` is true under `a` and false
/// under `b`.
pub open spec fn flipped_at(
    lits: Seq<(Lit, usize)>,
    a: Seq<TernaryVal>,
    b: Seq<TernaryVal>,
    v: int,
) -> bool {
    exists|j: int|
        0 <= j < lits.len() && (#[trigger] lits[j]).0.spec_vidx() == v && lit_true(a, lits[j].0)
            && lit_value(b, lits[j].0) == TernaryVal::False
}

/// `b` differs from `a` only in the variables of literals of `lits` that
/// `a` makes true and `b` makes false.
pub open spec fn only_flips(lits: Seq<(Lit, usize)>, a: Seq<TernaryVal>, b: Seq<TernaryVal>) -> bool {
    forall|v: int| var_value(b, v) != var_value(a, v) ==> #[trigger] flipped_at(lits, a, b, v)
}

/// What differs only by flips still does when one more literal is looked
/// at and left alone.
pub proof fn lemma_only_flips_more(
    lits: Seq<(Lit, usize)>,
    e: (Lit, usize),
    a: Seq<TernaryVal>,
    s: Seq<TernaryVal>,
)
    requires
        only_flips(lits, a, s),
    ensures
        only_flips(lits.push(e), a, s),
{
    let more = lits.push(e);
    assert forall|v: int| var_value(s, v) != var_value(a, v) implies #[trigger] flipped_at(
        more,
        a,
        s,
        v,
    ) by {
        assert(flipped_at(lits, a, s, v));
        let j = choose|j: int|
            0 <= j < lits.len() && (#[trigger] lits[j]).0.spec_vidx() == v && lit_true(a, lits[j].0)
                && lit_value(s, lits[j].0) == TernaryVal::False;
        assert(more[j] == lits[j]);
    }
}

/// What differs only by flips still does when one more literal, which is
/// true, is made false.
pub proof fn lemma_only_flips_flip(
    lits: Seq<(Lit, usize)>,
    e: (Lit, usize),
    a: Seq<TernaryVal>,
    s: Seq<TernaryVal>,
)
    requires
        only_flips(lits, a, s),
        lit_true(s, e.0),
    ensures
        only_flips(lits.push(e), a, assign(s, e.0.spec_not())),
{
    let more = lits.push(e);
    let l = e.0;
    let r = assign(s, l.spec_not());
    lemma_assign(s, l.spec_not());
    crate::types::lemma_not_involutive(l);
    assert(lit_value(r, l) == TernaryVal::False);
    assert forall|v: int| var_value(r, v) != var_value(a, v) implies #[trigger] flipped_at(
        more,
        a,
        r,
        v,
    ) by {
        if v != l.spec_vidx() {
            assert(var_value(s, v) != var_value(a, v));
            assert(flipped_at(lits, a, s, v));
            let j = choose|j: int|
                0 <= j < lits.len() && (#[trigger] lits[j]).0.spec_vidx() == v && lit_true(
                    a,
                    lits[j].0,
                ) && lit_value(s, lits[j].0) == TernaryVal::False;
            assert(more[j] == lits[j]);
            assert(lit_value(r, lits[j].0) == lit_value(s, lits[j].0));
        } else if var_value(s, v) == var_value(a, v) {
            assert(lit_true(a, l));
            assert(more[more.len() - 1] == e);
        } else {
            assert(flipped_at(lits, a, s, v));
            let j = choose|j: int|
                0 <= j < lits.len() && (#[trigger] lits[j]).0.spec_vidx() == v && lit_true(
                    a,
                    lits[j].0,
                ) && lit_value(s, lits[j].0) == TernaryVal::False;
            let m = lits[j].0;
            assert(m.spec_is_neg() != l.spec_is_neg());
            assert(var_value(r, v) == var_value(a, v));
        }
    }
}

/// An improvement changes the candidate only where it makes a literal of
/// the objective false that was true.
pub proof fn lemma_improve_only_flips(
    index: ObjIndex,
    lits: Seq<(Lit, usize)>,
    a: Seq<TernaryVal>,
    tightening: bool,
    learning: bool,
)
    ensures
        only_flips(lits, a, improve(index, lits, a, tightening, learning).sol),
    decreases lits.len(),
{
    if lits.len() > 0 {
        let t = lits.drop_last();
        lemma_improve_only_flips(index, t, a, tightening, learning);
        let s = improve(index, t, a, tightening, learning).sol;
        let r = improve(index, lits, a, tightening, learning).sol;
        assert(t.push(lits.last()) =~= lits);
        if r == s {
            lemma_only_flips_more(t, lits.last(), a, s);
        } else {
            lemma_only_flips_flip(t, lits.last(), a, s);
        }
    }
}

/// An improvement only ever makes objective literals false: no objective
/// literal is true afterwards that was not true before.
pub proof fn lemma_improve_no_new_true(
    index: ObjIndex,
    lits: Seq<(Lit, usize)>,
    a: Seq<TernaryVal>,
    tightening: bool,
    learning: bool,
)
    ensures
        no_new_true(index, a, improve(index, lits, a, tightening, learning).sol),
    decreases lits.len(),
{
    if lits.len() > 0 {
        let s = improve(index, lits.drop_last(), a, tightening, learning);
        lemma_improve_no_new_true(index, lits.drop_last(), a, tightening, learning);
        let l = lits.last().0;
        let r = improve(index, lits, a, tightening, learning);
        if r.sol != s.sol {
            lemma_assign(s.sol, l.spec_not());
            assert forall|x: Lit| index@.contains_key(x) && #[trigger] lit_true(r.sol, x) implies
                lit_true(
                a,
                x,
            ) by {
                if x.spec_vidx() == l.spec_vidx() {
                    // `x` is `l`, which is false now, or its negation, which is no
                    // objective literal
                    assert(x == l || x == l.spec_not());
                } else {
                    assert(lit_true(s.sol, x));
                }
            }
        }
    }
}

/// An improvement is sound: where the index is complete, the improved
/// candidate satisfies every hard clause and every relaxed soft clause that
/// the candidate satisfies.
pub proof fn lemma_improve_keeps_clauses(
    index: ObjIndex,
    blits: Seq<(Seq<Lit>, Lit)>,
    hard: Seq<Seq<Lit>>,
    lits: Seq<(Lit, usize)>,
    a: Seq<TernaryVal>,
    tightening: bool,
    learning: bool,
)
    requires
        index_complete(index, blits, hard),
        index_links_in_range(index),
        forall|j: int| 0 <= j < lits.len() ==> index@.contains_key((#[trigger] lits[j]).0),
    ensures
        keeps_clauses(blits, hard, a, improve(index, lits, a, tightening, learning).sol),
    decreases lits.len(),
{
    if lits.len() > 0 {
        let t = lits.drop_last();
        assert forall|j: int| 0 <= j < t.len() implies index@.contains_key((#[trigger] t[j]).0) by {
            assert(t[j] == lits[j]);
        }
        lemma_improve_keeps_clauses(index, blits, hard, t, a, tightening, learning);
        let s = improve(index, t, a, tightening, learning);
        let r = improve(index, lits, a, tightening, learning);
        let l = lits.last().0;
        assert(lits[lits.len() - 1] == lits.last());
        if r.sol != s.sol {
            let links = index@[l].clauses;
            let w = witness(index.stored(), links, l, s.sol).unwrap();
            lemma_witness_covers(index.stored(), links, l, s.sol);
            lemma_flip_sound(index, blits, hard, l, w, s.sol);
        }
    }
}

/// No stored clause holds the negation of an objective literal.
pub open spec fn no_negated_objective_lits(index: ObjIndex) -> bool {
    forall|k: int, j: int|
        0 <= k < index.stored().len() && 0 <= j < index.stored()[k].len() ==> !index@.contains_key(
            (#[trigger] index.stored()[k][j]).spec_not(),
        )
}

/// Tightening leaves `l` as it is under `b`: `l` is not true, or its
/// negation is an objective literal, or it has no flip witness.
pub open spec fn settled(index: ObjIndex, l: Lit, b: Seq<TernaryVal>) -> bool {
    lit_true(b, l) ==> index@.contains_key(l.spec_not()) || witness(
        index.stored(),
        index.links(l).clauses,
        l,
        b,
    ).is_none()
}

/// Along literals that are all settled, tightening changes nothing.
pub proof fn lemma_settled_no_change(
    index: ObjIndex,
    lits: Seq<(Lit, usize)>,
    b: Seq<TernaryVal>,
    learning: bool,
)
    requires
        forall|j: int| 0 <= j < lits.len() ==> settled(index, (#[trigger] lits[j]).0, b),
    ensures
        improve(index, lits, b, true, learning).sol == b,
    decreases lits.len(),
{
    if lits.len() > 0 {
        let t = lits.drop_last();
        assert forall|j: int| 0 <= j < t.len() implies settled(index, (#[trigger] t[j]).0, b) by {
            assert(t[j] == lits[j]);
        }
        lemma_settled_no_change(index, t, b, learning);
        assert(settled(index, lits[lits.len() - 1].0, b));
    }
}

/// A literal without a flip witness has none after an objective literal was
/// made false, where no stored clause holds the negation of an objective
/// literal.
pub proof fn lemma_no_witness_after_flip(index: ObjIndex, x: Lit, l: Lit, s: Seq<TernaryVal>)
    requires
        index_links_in_range(index),
        no_negated_objective_lits(index),
        index@.contains_key(x),
        index@.contains_key(l),
        witness(index.stored(), index@[x].clauses, x, s).is_none(),
    ensures
        witness(index.stored(), index@[x].clauses, x, assign(s, l.spec_not())).is_none(),
{
    let stored = index.stored();
    let links = index@[x].clauses;
    let r = assign(s, l.spec_not());
    lemma_witness(stored, links, x, s);
    lemma_witness(stored, links, x, r);
    lemma_assign(s, l.spec_not());
    let k = choose|k: int| 0 <= k < links.len() && #[trigger] needs(stored[links[k] as int], x, s);
    let c = stored[links[k] as int];
    if witness(stored, links, x, r).is_some() {
        let w = witness(stored, links, x, r).unwrap();
        assert(kept_by(stored[links[k] as int], x, w));
        let j = choose|j: int| 0 <= j < c.len() && (#[trigger] c[j]) != x && w.contains(c[j]);
        let q = choose|q: int| 0 <= q < w.len() && w[q] == c[j];
        assert(lit_true(r, w[q]));
        assert(!lit_true(s, c[j]));
        // only the negation of `l` became true
        if c[j].spec_vidx() == l.spec_vidx() {
            assert(c[j] == l.spec_not());
            crate::types::lemma_not_involutive(l);
            assert(index@.contains_key(c[j].spec_not()));
        }
        assert(false);
    }
}

/// After tightening along `lits`, every literal of `lits` is settled, and
/// so is every objective literal that was settled before, where no stored
/// clause holds the negation of an objective literal.
pub proof fn lemma_improve_settles(
    index: ObjIndex,
    lits: Seq<(Lit, usize)>,
    a: Seq<TernaryVal>,
    learning: bool,
    done: spec_fn(Lit) -> bool,
)
    requires
        index_links_in_range(index),
        no_negated_objective_lits(index),
        forall|j: int| 0 <= j < lits.len() ==> index@.contains_key((#[trigger] lits[j]).0),
        forall|x: Lit| #[trigger] done(x) ==> index@.contains_key(x) && settled(index, x, a),
    ensures
        forall|x: Lit| #[trigger]
            done(x) ==> settled(index, x, improve(index, lits, a, true, learning).sol),
        forall|j: int|
            0 <= j < lits.len() ==> settled(
                index,
                (#[trigger] lits[j]).0,
                improve(index, lits, a, true, learning).sol,
            ),
    decreases lits.len(),
{
    if lits.len() > 0 {
        let t = lits.drop_last();
        assert forall|j: int| 0 <= j < t.len() implies index@.contains_key((#[trigger] t[j]).0) by {
            assert(t[j] == lits[j]);
        }
        lemma_improve_settles(index, t, a, learning, done);
        let s = improve(index, t, a, true, learning).sol;
        let r = improve(index, lits, a, true, learning).sol;
        let l = lits.last().0;
        assert(lits[lits.len() - 1] == lits.last());
        assert(index@.contains_key(l));
        if r != s {
            lemma_assign(s, l.spec_not());
            crate::types::lemma_not_involutive(l);
            // a literal that was settled under `s` is settled under `r`
            assert forall|x: Lit| index@.contains_key(x) && settled(index, x, s) implies settled(
                index,
                x,
                r,
            ) by {
                if lit_true(r, x) {
                    if x.spec_vidx() == l.spec_vidx() {
                        assert(x == l || x == l.spec_not());
                        assert(false);
                    }
                    assert(lit_true(s, x));
                    if !index@.contains_key(x.spec_not()) {
                        lemma_no_witness_after_flip(index, x, l, s);
                    }
                }
            }
            assert forall|j: int| 0 <= j < lits.len() implies
                settled(index, (#[trigger] lits[j]).0, r) by {
                if j < t.len() {
                    assert(t[j] == lits[j]);
                    assert(settled(index, t[j].0, s));
                }
            }
        } else {
            assert forall|j: int| 0 <= j < lits.len() implies
                settled(index, (#[trigger] lits[j]).0, r) by {
                if j < t.len() {
                    assert(t[j] == lits[j]);
                }
            }
        }
    }
}

/// The candidate `a` after it was improved along the objectives, one after
/// the other.
pub open spec fn improve_all(
    index: ObjIndex,
    objs: Seq<Objective>,
    a: Seq<TernaryVal>,
    tightening: bool,
    learning: bool,
) -> Seq<TernaryVal>
    decreases objs.len(),
{
    if objs.len() == 0 {
        a
    } else {
        improve(
            index,
            objs.last().spec_iter(),
            improve_all(index, objs.drop_last(), a, tightening, learning),
            tightening,
            learning,
        ).sol
    }
}

/// Every literal of every objective is an objective literal of the index.
pub open spec fn lits_indexed(index: ObjIndex, objs: Seq<Objective>) -> bool {
    forall|i: int, j: int|
        0 <= i < objs.len() && 0 <= j < objs[i].spec_iter().len() ==> index@.contains_key(
            (#[trigger] objs[i].spec_iter()[j]).0,
        )
}

/// `x` is a literal of one of the objectives.
pub open spec fn is_objective_lit(objs: Seq<Objective>, x: Lit) -> bool {
    exists|i: int, j: int|
        0 <= i < objs.len() && 0 <= j < objs[i].spec_iter().len() &&
            (#[trigger] objs[i].spec_iter()[j]).0
            == x
}

/// Tightening leaves every literal of the objectives as it is under `b`.
pub open spec fn all_settled(index: ObjIndex, objs: Seq<Objective>, b: Seq<TernaryVal>) -> bool {
    forall|i: int, j: int|
        0 <= i < objs.len() && 0 <= j < objs[i].spec_iter().len() ==> settled(
            index,
            (#[trigger] objs[i].spec_iter()[j]).0,
            b,
        )
}

/// Without tightening a candidate stays as it is.
pub proof fn lemma_improve_all_without_tightening(
    index: ObjIndex,
    objs: Seq<Objective>,
    a: Seq<TernaryVal>,
    learning: bool,
)
    ensures
        improve_all(index, objs, a, false, learning) == a,
    decreases objs.len(),
{
    if objs.len() > 0 {
        lemma_improve_all_without_tightening(index, objs.drop_last(), a, learning);
        lemma_improve_bounded(index, objs.last().spec_iter(), a, false, learning);
    }
}

/// The improvement of a candidate makes no objective literal true that was
/// not true, so the candidate costs no more than before in any objective.
pub proof fn lemma_improve_all_costs(
    index: ObjIndex,
    objs: Seq<Objective>,
    a: Seq<TernaryVal>,
    tightening: bool,
    learning: bool,
)
    requires
        lits_indexed(index, objs),
    ensures
        no_new_true(index, a, improve_all(index, objs, a, tightening, learning)),
        forall|i: int|
            0 <= i < objs.len() ==> (#[trigger] objs[i]).internal_cost(
                improve_all(index, objs, a, tightening, learning),
            ) <= objs[i].internal_cost(a),
    decreases objs.len(),
{
    let r = improve_all(index, objs, a, tightening, learning);
    if objs.len() > 0 {
        let t = objs.drop_last();
        assert(lits_indexed(index, t)) by {
            assert forall|i: int, j: int|
                0 <= i < t.len() && 0 <= j < t[i].spec_iter().len() implies index@.contains_key(
                (#[trigger] t[i].spec_iter()[j]).0,
            ) by {
                assert(t[i] == objs[i]);
            }
        }
        lemma_improve_all_costs(index, t, a, tightening, learning);
        let s = improve_all(index, t, a, tightening, learning);
        lemma_improve_no_new_true(index, objs.last().spec_iter(), s, tightening, learning);
        assert forall|x: Lit| index@.contains_key(x) && #[trigger] lit_true(r, x) implies
            lit_true(a, x) by {
            assert(lit_true(s, x));
        }
    }
    assert forall|i: int| 0 <= i < objs.len() implies (#[trigger] objs[i]).internal_cost(r)
        <= objs[i].internal_cost(a) by {
        let lits = objs[i].spec_iter();
        assert forall|j: int| 0 <= j < lits.len() && lit_true(r, (#[trigger] lits[j]).0) implies
            lit_true(
            a,
            lits[j].0,
        ) by {
            assert(index@.contains_key(objs[i].spec_iter()[j].0));
        }
        crate::objective::lemma_weighted_cost_mono(lits, a, r);
        crate::objective::lemma_internal_cost_is_weighted(objs[i], a);
        crate::objective::lemma_internal_cost_is_weighted(objs[i], r);
    }
}

/// The improvement of a candidate is sound: where the index is complete
/// for the hard clauses `hard` and the table `blits`, the improved
/// candidate satisfies every hard clause and every relaxed soft clause
/// that the candidate satisfies.
pub proof fn lemma_improve_all_keeps_clauses(
    index: ObjIndex,
    blits: Seq<(Seq<Lit>, Lit)>,
    hard: Seq<Seq<Lit>>,
    objs: Seq<Objective>,
    a: Seq<TernaryVal>,
    tightening: bool,
    learning: bool,
)
    requires
        index_complete(index, blits, hard),
        index_links_in_range(index),
        lits_indexed(index, objs),
    ensures
        keeps_clauses(blits, hard, a, improve_all(index, objs, a, tightening, learning)),
    decreases objs.len(),
{
    if objs.len() > 0 {
        let t = objs.drop_last();
        assert(lits_indexed(index, t)) by {
            assert forall|i: int, j: int|
                0 <= i < t.len() && 0 <= j < t[i].spec_iter().len() implies index@.contains_key(
                (#[trigger] t[i].spec_iter()[j]).0,
            ) by {
                assert(t[i] == objs[i]);
            }
        }
        lemma_improve_all_keeps_clauses(index, blits, hard, t, a, tightening, learning);
        let s = improve_all(index, t, a, tightening, learning);
        let lits = objs.last().spec_iter();
        assert forall|j: int| 0 <= j < lits.len() implies
            index@.contains_key((#[trigger] lits[j]).0) by {
            assert(index@.contains_key(objs[objs.len() - 1].spec_iter()[j].0));
        }
        lemma_improve_keeps_clauses(index, blits, hard, lits, s, tightening, learning);
    }
}

/// After tightening along all objectives every literal of the objectives
/// is settled, where no stored clause holds the negation of an objective
/// literal.
pub proof fn lemma_improve_all_settles(
    index: ObjIndex,
    objs: Seq<Objective>,
    a: Seq<TernaryVal>,
    learning: bool,
)
    requires
        index_links_in_range(index),
        no_negated_objective_lits(index),
        lits_indexed(index, objs),
    ensures
        all_settled(index, objs, improve_all(index, objs, a, true, learning)),
    decreases objs.len(),
{
    if objs.len() > 0 {
        let t = objs.drop_last();
        assert(lits_indexed(index, t)) by {
            assert forall|i: int, j: int|
                0 <= i < t.len() && 0 <= j < t[i].spec_iter().len() implies index@.contains_key(
                (#[trigger] t[i].spec_iter()[j]).0,
            ) by {
                assert(t[i] == objs[i]);
            }
        }
        lemma_improve_all_settles(index, t, a, learning);
        let s = improve_all(index, t, a, true, learning);
        let r = improve_all(index, objs, a, true, learning);
        let lits = objs.last().spec_iter();
        let done = |x: Lit| is_objective_lit(t, x);
        assert forall|j: int| 0 <= j < lits.len() implies
            index@.contains_key((#[trigger] lits[j]).0) by {
            assert(index@.contains_key(objs[objs.len() - 1].spec_iter()[j].0));
        }
        assert forall|x: Lit| #[trigger] done(x) implies
            index@.contains_key(x) && settled(index, x, s) by {
            let (i, j) = choose|i: int, j: int|
                0 <= i < t.len() && 0 <= j < t[i].spec_iter().len() &&
                    (#[trigger] t[i].spec_iter()[j]).0
                    == x;
            assert(settled(index, t[i].spec_iter()[j].0, s));
        }
        lemma_improve_settles(index, lits, s, learning, done);
        assert forall|i: int, j: int|
            0 <= i < objs.len() && 0 <= j < objs[i].spec_iter().len() implies settled(
            index,
            (#[trigger] objs[i].spec_iter()[j]).0,
            r,
        ) by {
            if i < t.len() {
                assert(t[i] == objs[i]);
                let x = t[i].spec_iter()[j].0;
                assert(is_objective_lit(t, x));
                assert(done(x));
            } else {
                assert(settled(index, lits[j].0, r));
            }
        }
    }
}

/// Tightening changes nothing in a candidate in which every literal of the
/// objectives is settled.
pub proof fn lemma_settled_is_fixed(
    index: ObjIndex,
    objs: Seq<Objective>,
    b: Seq<TernaryVal>,
    learning: bool,
)
    requires
        all_settled(index, objs, b),
    ensures
        improve_all(index, objs, b, true, learning) == b,
    decreases objs.len(),
{
    if objs.len() > 0 {
        let t = objs.drop_last();
        assert(all_settled(index, t, b)) by {
            assert forall|i: int, j: int|
                0 <= i < t.len() && 0 <= j < t[i].spec_iter().len() implies settled(
                index,
                (#[trigger] t[i].spec_iter()[j]).0,
                b,
            ) by {
                assert(t[i] == objs[i]);
            }
        }
        lemma_settled_is_fixed(index, t, b, learning);
        let lits = objs.last().spec_iter();
        assert forall|j: int| 0 <= j < lits.len() implies
            settled(index, (#[trigger] lits[j]).0, b) by {
            assert(settled(index, objs[objs.len() - 1].spec_iter()[j].0, b));
        }
        lemma_settled_no_change(index, lits, b, learning);
    }
}

/// Improving a candidate twice gives the candidate that improving it once
/// gives, where no stored clause holds the negation of an objective
/// literal. (Where one does, a flip can make that negation true and so
/// bring about a witness for a literal that had none when its turn came.)
pub proof fn lemma_tightening_idempotent(
    index: ObjIndex,
    objs: Seq<Objective>,
    a: Seq<TernaryVal>,
    tightening: bool,
    learning: bool,
)
    requires
        index_links_in_range(index),
        lits_indexed(index, objs),
        tightening ==> no_negated_objective_lits(index),
    ensures
        improve_all(
            index,
            objs,
            improve_all(index, objs, a, tightening, learning),
            tightening,
            learning,
        ) == improve_all(index, objs, a, tightening, learning),
{
    let once = improve_all(index, objs, a, tightening, learning);
    if tightening {
        lemma_improve_all_settles(index, objs, a, learning);
        lemma_settled_is_fixed(index, objs, once, learning);
    } else {
        lemma_improve_all_without_tightening(index, objs, once, learning);
    }
}

} // verus!
