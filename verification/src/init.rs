//! Instances, and the construction of a solver from an instance.

use vstd::prelude::*;

use crate::encodings::{ObjEncoding, VarManager};
use crate::front::ParetoFront;
use crate::index::{
    blits_linked, clause_linked, hard_kept, has_blit, index_complete, is_stored, lemma_grows_keeps_blits,
    lemma_grows_keeps_link, lemma_grows_keeps_linked, lemma_grows_trans, linked_to, links_complete,
    mentions, BlitTable, ObjIndex,
};
use crate::logging::{
    BlockingClauseGen, DefaultBlocking, Loggers, Terminator, WriteSolverLog,
};
use crate::objective::{Objective, ObjectiveError};
use crate::options::{EncodingError, Limits, Options, Stats};
use crate::oracle::{clause_views, Oracle, OracleError};
use crate::pminimal::{encodes, PMinimal};
use crate::tightening::{index_links_in_range, links_in_range};
use crate::types::{Clause, Lit, Var, MAX_VAR_IDX};

verus! {

/// An objective as a list of soft clauses: each falsified clause costs its
/// weight, on top of the offset.
pub struct SoftObjective {
    pub softs: Vec<(Clause, usize)>,
    pub offset: isize,
}

/// A multi-objective instance: clauses that have to hold, and objectives to
/// minimise.
pub struct Instance {
    /// The hard clauses.
    pub clauses: Vec<Clause>,
    /// The number of variables. Variables that occur in clauses count even
    /// where this number is too low.
    pub n_vars: u32,
    /// The objectives.
    pub objectives: Vec<SoftObjective>,
}

/// Why no solver could be built for an instance.
#[derive(Clone, PartialEq, Eq, Debug)]
pub enum InitError {
    /// An objective is malformed.
    Objective(ObjectiveError),
    /// More variables are needed than there are.
    OutOfVariables,
    /// The oracle failed.
    Oracle(OracleError),
}

/// Every literal of the clause has a variable below `n`.
pub open spec fn clause_below(c: Seq<Lit>, n: int) -> bool {
    forall|i: int| 0 <= i < c.len() ==> (#[trigger] c[i]).spec_vidx() < n
}

/// Every literal of every clause has a variable below `n`.
pub open spec fn clauses_below(cs: Seq<Clause>, n: int) -> bool {
    forall|i: int| 0 <= i < cs.len() ==> clause_below((#[trigger] cs[i])@, n)
}

/// Every literal of every soft clause has a variable below `n`.
pub open spec fn softs_below(softs: Seq<(Clause, usize)>, n: int) -> bool {
    forall|i: int| 0 <= i < softs.len() ==> clause_below((#[trigger] softs[i]).0@, n)
}

/// The least number above the variables of the clause and not below `n`.
fn clause_bound(c: &Clause, n: u64) -> (m: u64)
    requires
        n <= MAX_VAR_IDX + 1,
    ensures
        n <= m <= MAX_VAR_IDX + 1,
        clause_below(c@, m as int),
        m == n || exists|i: int| 0 <= i < c@.len() && (#[trigger] c@[i]).spec_vidx() + 1 == m,
{
    let mut m = n;
    let mut i: usize = 0;
    while i < c.len()
        invariant
            i <= c@.len(),
            n <= m <= MAX_VAR_IDX + 1,
            forall|j: int| 0 <= j < i ==> (#[trigger] c@[j]).spec_vidx() < m,
            m == n || exists|j: int| 0 <= j < c@.len() && (#[trigger] c@[j]).spec_vidx() + 1 == m,
        decreases c@.len() - i,
    {
        let v = c.get(i).vidx() as u64;
        if v + 1 > m {
            m = v + 1;
        }
        i += 1;
    }
    m
}

/// The variables of the instance are all below `n`, and `n` is not below
/// the number of variables that the instance gives.
pub open spec fn fits(inst: Instance, n: int) -> bool {
    &&& inst.n_vars <= n
    &&& clauses_below(inst.clauses@, n)
    &&& forall|k: int|
        0 <= k < inst.objectives@.len() ==> softs_below((#[trigger] inst.objectives@[k]).softs@, n)
}

/// The number of soft clauses of the objectives.
pub open spec fn n_softs(objectives: Seq<SoftObjective>) -> nat
    decreases objectives.len(),
{
    if objectives.len() == 0 {
        0
    } else {
        n_softs(objectives.drop_last()) + objectives.last().softs@.len()
    }
}

/// The number of soft clauses of the first `k` objectives is at most that of
/// all.
pub proof fn lemma_n_softs_prefix(objectives: Seq<SoftObjective>, k: int)
    requires
        0 <= k <= objectives.len(),
    ensures
        n_softs(objectives.take(k)) <= n_softs(objectives),
        k < objectives.len() ==> n_softs(objectives.take(k + 1)) == n_softs(objectives.take(k))
            + objectives[k].softs@.len(),
    decreases objectives.len() - k,
{
    if k == objectives.len() {
        assert(objectives.take(k) =~= objectives);
    } else {
        lemma_n_softs_prefix(objectives, k + 1);
        assert(objectives.take(k + 1).drop_last() =~= objectives.take(k));
        assert(objectives.take(k + 1).last() == objectives[k]);
    }
}

/// Objectives without soft clauses between them have none each.
pub proof fn lemma_n_softs_zero(objectives: Seq<SoftObjective>)
    requires
        n_softs(objectives) == 0,
    ensures
        forall|k: int| 0 <= k < objectives.len() ==> (#[trigger] objectives[k]).softs@.len() == 0,
    decreases objectives.len(),
{
    if objectives.len() > 0 {
        lemma_n_softs_zero(objectives.drop_last());
        assert forall|k: int| 0 <= k < objectives.len() implies (
        #[trigger] objectives[k]).softs@.len() == 0 by {
            if k < objectives.len() - 1 {
                assert(objectives.drop_last()[k] == objectives[k]);
            }
        }
    }
}

/// A bare instance has room, and its objectives are well weighted.
pub proof fn lemma_bare(inst: Instance)
    requires
        is_bare(inst),
    ensures
        fits(inst, 0),
        roomy(inst),
        forall|i: int|
            0 <= i < inst.objectives@.len() ==> well_weighted(
                (#[trigger] inst.objectives@[i]).softs@,
                inst.objectives@[i].offset,
            ),
{
    lemma_n_softs_zero(inst.objectives@);
    assert(fits(inst, 0));
}

/// A bound on the variables that the encoder of the objective of the soft
/// clauses can take: for each soft clause one for each unit of the weights,
/// and no fewer than one for each bit of a `usize`.
pub open spec fn soft_need(softs: Seq<(Clause, usize)>) -> nat {
    softs.len() * (if weight_sum(softs) > 64 {
        weight_sum(softs)
    } else {
        64
    })
}

/// What the objective of the soft clauses can take of the variables: a
/// blocking literal for each soft clause and, where the encoders reserve
/// theirs, what its encoder can take.
pub open spec fn soft_room(softs: Seq<(Clause, usize)>, reserve: bool) -> nat {
    softs.len() + if reserve {
        soft_need(softs)
    } else {
        0
    }
}

/// What the objectives can take of the variables between them.
pub open spec fn softs_room(objectives: Seq<SoftObjective>, reserve: bool) -> nat
    decreases objectives.len(),
{
    if objectives.len() == 0 {
        0
    } else {
        softs_room(objectives.drop_last(), reserve) + soft_room(objectives.last().softs@, reserve)
    }
}

/// What the first `k` objectives can take is at most what all can take.
pub proof fn lemma_softs_room_prefix(objectives: Seq<SoftObjective>, reserve: bool, k: int)
    requires
        0 <= k <= objectives.len(),
    ensures
        softs_room(objectives.take(k), reserve) <= softs_room(objectives, reserve),
        k < objectives.len() ==> softs_room(objectives.take(k + 1), reserve) == softs_room(
            objectives.take(k),
            reserve,
        ) + soft_room(objectives[k].softs@, reserve),
        !reserve ==> softs_room(objectives, reserve) == n_softs(objectives),
        n_softs(objectives) == 0 ==> softs_room(objectives, reserve) == 0,
    decreases objectives.len() - k, objectives.len(),
{
    if k == objectives.len() {
        assert(objectives.take(k) =~= objectives);
    } else {
        lemma_softs_room_prefix(objectives, reserve, k + 1);
        assert(objectives.take(k + 1).drop_last() =~= objectives.take(k));
        assert(objectives.take(k + 1).last() == objectives[k]);
    }
    if objectives.len() > 0 {
        lemma_softs_room_prefix(objectives.drop_last(), reserve, objectives.len() - 1);
    }
}

/// There are variables enough for the instance and for what its objectives
/// can take: their blocking literals and, where the encoders reserve
/// theirs, what the encoders can take.
pub open spec fn roomy_for(inst: Instance, reserve: bool) -> bool {
    exists|n: int| fits(inst, n) && n + softs_room(inst.objectives@, reserve) <= MAX_VAR_IDX
}

/// There are variables enough for the instance and a blocking literal for
/// each of its soft clauses.
pub open spec fn roomy(inst: Instance) -> bool {
    exists|n: int| fits(inst, n) && n + n_softs(inst.objectives@) <= MAX_VAR_IDX
}

/// The instance has no variable, no clause and no soft clause.
pub open spec fn is_bare(inst: Instance) -> bool {
    &&& inst.n_vars == 0
    &&& inst.clauses@.len() == 0
    &&& n_softs(inst.objectives@) == 0
}

/// The least number above the variables of the instance and not below its
/// `n_vars`.
pub fn instance_bound(inst: &Instance) -> (m: u64)
    ensures
        fits(*inst, m as int),
        forall|n: int| fits(*inst, n) ==> m <= n,
{
    if inst.n_vars as u64 > MAX_VAR_IDX as u64 + 1 {
        return inst.n_vars as u64;
    }
    let mut m: u64 = inst.n_vars as u64;
    let mut i: usize = 0;
    while i < inst.clauses.len()
        invariant
            i <= inst.clauses@.len(),
            inst.n_vars <= m <= MAX_VAR_IDX + 1,
            forall|j: int| 0 <= j < i ==> clause_below((#[trigger] inst.clauses@[j])@, m as int),
            forall|n: int| fits(*inst, n) ==> m <= n,
        decreases inst.clauses.len() - i,
    {
        m = clause_bound(&inst.clauses[i], m);
        proof {
            assert forall|n: int| fits(*inst, n) implies m <= n by {
                assert(clause_below(inst.clauses@[i as int]@, n));
            }
        }
        i += 1;
    }
    let mut k: usize = 0;
    while k < inst.objectives.len()
        invariant
            k <= inst.objectives@.len(),
            inst.n_vars <= m <= MAX_VAR_IDX + 1,
            clauses_below(inst.clauses@, m as int),
            forall|j: int|
                0 <= j < k ==> softs_below((#[trigger] inst.objectives@[j]).softs@, m as int),
            forall|n: int| fits(*inst, n) ==> m <= n,
        decreases inst.objectives.len() - k,
    {
        let obj = &inst.objectives[k];
        let mut j: usize = 0;
        while j < obj.softs.len()
            invariant
                j <= obj.softs@.len(),
                k < inst.objectives@.len(),
                *obj == inst.objectives@[k as int],
                inst.n_vars <= m <= MAX_VAR_IDX + 1,
                clauses_below(inst.clauses@, m as int),
                forall|q: int|
                    0 <= q < k ==> softs_below((#[trigger] inst.objectives@[q]).softs@, m as int),
                forall|q: int| 0 <= q < j ==> clause_below((#[trigger] obj.softs@[q]).0@, m as int),
                forall|n: int| fits(*inst, n) ==> m <= n,
            decreases obj.softs.len() - j,
        {
            m = clause_bound(&obj.softs[j].0, m);
            proof {
                assert forall|n: int| fits(*inst, n) implies m <= n by {
                    assert(softs_below(inst.objectives@[k as int].softs@, n));
                    assert(clause_below(obj.softs@[j as int].0@, n));
                }
            }
            j += 1;
        }
        k += 1;
    }
    m
}

/// The objective literal of a soft clause: the negation of its literal
/// where it has one literal, and its blocking literal otherwise.
pub open spec fn soft_lit(blits: Seq<(Seq<Lit>, Lit)>, clause: Seq<Lit>) -> Lit {
    if clause.len() == 1 {
        clause[0].spec_not()
    } else {
        blits[crate::index::blit_place(blits, clause)].1
    }
}

/// Every objective literal is in the index and has a variable below `n`.
pub open spec fn lits_known(objs: Seq<Objective>, index: ObjIndex, n: int) -> bool {
    forall|i: int, j: int|
        0 <= i < objs.len() && 0 <= j < objs[i].spec_iter().len() ==> {
            &&& index@.contains_key((#[trigger] objs[i].spec_iter()[j]).0)
            &&& objs[i].spec_iter()[j].0.spec_vidx() < n
        }
}

/// Every blocking literal of the table has a variable below `n`.
pub open spec fn blits_below(blits: Seq<(Seq<Lit>, Lit)>, n: int) -> bool {
    forall|i: int| 0 <= i < blits.len() ==> (#[trigger] blits[i]).1.spec_vidx() < n
}

/// Finds the objective literal of the soft clause `cls`, and relaxes the
/// clause where that has not been done.
///
/// A clause of one literal needs no relaxing: its objective literal is the
/// negation of that literal. Any other clause has a blocking literal. Where
/// the table has one for the clause, it is the objective literal. Otherwise
/// a fresh variable is the blocking literal: it is entered in the table,
/// the clause is stored where `store` is set, and the clause with the
/// blocking literal added is handed out, with the place at which it was
/// stored.
pub fn add_soft_clause(
    cls: Clause,
    blits: &mut BlitTable,
    index: &mut ObjIndex,
    var_manager: &mut VarManager,
    store: bool,
) -> (r: Result<(Lit, Option<(Option<usize>, Clause)>), EncodingError>)
    requires
        old(index).wf(),
        old(var_manager).wf(),
        old(blits).wf(),
    ensures
        final(index).wf(),
        final(var_manager).wf(),
        final(blits).wf(),
        final(index)@ == old(index)@,
        final(index).grows_from(*old(index)),
        cls@.len() == 1 ==> r == Ok::<(Lit, Option<(Option<usize>, Clause)>), EncodingError>(
            (cls@[0].spec_not(), None),
        ),
        cls@.len() != 1 && has_blit(old(blits)@, cls@) ==> r == Ok::<
            (Lit, Option<(Option<usize>, Clause)>),
            EncodingError,
        >((soft_lit(old(blits)@, cls@), None)),
        cls@.len() != 1 && !has_blit(old(blits)@, cls@) && old(var_manager).next_var == MAX_VAR_IDX
            ==> r == Err::<(Lit, Option<(Option<usize>, Clause)>), EncodingError>(
            EncodingError::OutOfVariables,
        ),
        (r matches Ok(out) && out.1.is_none()) || r is Err ==> {
            &&& final(blits)@ == old(blits)@
            &&& final(index).stored() == old(index).stored()
            &&& *final(var_manager) == *old(var_manager)
        },
        cls@.len() != 1 && !has_blit(old(blits)@, cls@) && old(var_manager).next_var < MAX_VAR_IDX
            ==> {
            &&& r matches Ok(out)
            &&& out.0 == Lit::spec_new(old(var_manager).next_var, false)
            &&& out.1 matches Some(info)
            &&& info.1@ == cls@.push(out.0)
            &&& final(blits)@ == old(blits)@.push((cls@, out.0))
            &&& final(var_manager).next_var == old(var_manager).next_var + 1
            &&& store ==>
                (info.0 matches Some(at) && at == old(index).stored().len()) &&
                    final(index).stored() == old(index).stored().push(cls@)
            &&& !store ==> info.0.is_none() && final(index).stored() == old(index).stored()
        },
{
    if cls.len() == 1 {
        // No blocking literal needed
        return Ok((cls.get(0).not(), None));
    }
    match blits.lookup(&cls) {
        Some(blit) => {
            // The clause was relaxed before
            return Ok((blit, None));
        },
        None => {},
    }
    let blit = match var_manager.new_var() {
        Some(v) => v.pos_lit(),
        None => {
            return Err(EncodingError::OutOfVariables);
        },
    };
    blits.insert(cls.duplicate(), blit);
    let cls_id = if store {
        Some(index.store(cls.duplicate()))
    } else {
        None
    };
    let mut relaxed = cls;
    relaxed.add(blit);
    Ok((blit, Some((cls_id, relaxed))))
}

/// The objective literals of the soft clauses, with the weights of the
/// clauses.
pub open spec fn soft_lits(blits: Seq<(Seq<Lit>, Lit)>, softs: Seq<(Clause, usize)>) -> Seq<
    (Lit, usize),
> {
    Seq::new(softs.len(), |i: int| (soft_lit(blits, softs[i].0@), softs[i].1))
}

/// Some soft clause has weight zero.
pub open spec fn zero_weighted(softs: Seq<(Clause, usize)>) -> bool {
    exists|i: int| 0 <= i < softs.len() && (#[trigger] softs[i]).1 == 0
}

/// The sum of the weights of the soft clauses.
pub open spec fn weight_sum(softs: Seq<(Clause, usize)>) -> nat
    decreases softs.len(),
{
    if softs.len() == 0 {
        0
    } else {
        weight_sum(softs.drop_last()) + softs.last().1 as nat
    }
}

/// The soft clauses can be an objective with this offset: no weight is
/// zero, and the weights add up in `isize`, alone and together with the
/// offset.
pub open spec fn well_weighted(softs: Seq<(Clause, usize)>, offset: isize) -> bool {
    !zero_weighted(softs) && crate::objective::sum_fits(offset, weight_sum(softs))
}

/// The objective literals weigh what their soft clauses weigh.
pub proof fn lemma_soft_weights(blits: Seq<(Seq<Lit>, Lit)>, softs: Seq<(Clause, usize)>)
    ensures
        crate::objective::has_zero_weight(soft_lits(blits, softs)) == zero_weighted(softs),
        crate::objective::total_weight(soft_lits(blits, softs)) == weight_sum(softs),
    decreases softs.len(),
{
    let lits = soft_lits(blits, softs);
    if softs.len() > 0 {
        lemma_soft_weights(blits, softs.drop_last());
        assert(lits.drop_last() =~= soft_lits(blits, softs.drop_last()));
        assert(lits.last().1 == softs.last().1);
    }
    if crate::objective::has_zero_weight(lits) {
        let i = choose|i: int| 0 <= i < lits.len() && (#[trigger] lits[i]).1 == 0;
        assert(softs[i].1 == 0);
    }
    if zero_weighted(softs) {
        let i = choose|i: int| 0 <= i < softs.len() && (#[trigger] softs[i]).1 == 0;
        assert(lits[i].1 == 0);
    }
}

/// Every soft clause that needs a blocking literal has one in the table.
pub open spec fn softs_relaxed(blits: Seq<(Seq<Lit>, Lit)>, softs: Seq<(Clause, usize)>) -> bool {
    forall|i: int|
        0 <= i < softs.len() && (#[trigger] softs[i]).0@.len() != 1 ==> has_blit(blits, softs[i].0@)
}

/// The relaxed clauses of the entries of the table from place `from` on:
/// each clause with its blocking literal added.
pub open spec fn relaxed_from(blits: Seq<(Seq<Lit>, Lit)>, from: int) -> Seq<Seq<Lit>> {
    Seq::new((blits.len() - from) as nat, |k: int| blits[from + k].0.push(blits[from + k].1))
}

/// The clauses of the entries of the table from place `from` on.
pub open spec fn keys_from(blits: Seq<(Seq<Lit>, Lit)>, from: int) -> Seq<Seq<Lit>> {
    Seq::new((blits.len() - from) as nat, |k: int| blits[from + k].0)
}

/// A clause that has an entry in a table keeps its objective literal when
/// the table grows, and a clause that gets the new entry has the blocking
/// literal of that entry.
pub proof fn lemma_soft_lit_push(t: Seq<(Seq<Lit>, Lit)>, e: (Seq<Lit>, Lit), c: Seq<Lit>)
    ensures
        c.len() == 1 || has_blit(t, c) ==> soft_lit(t.push(e), c) == soft_lit(t, c),
        has_blit(t, c) ==> has_blit(t.push(e), c),
        !has_blit(t, c) && e.0 == c ==> has_blit(t.push(e), c) && (c.len() != 1 ==> soft_lit(
            t.push(e),
            c,
        ) == e.1),
{
    let u = t.push(e);
    assert(u.drop_last() =~= t);
    if has_blit(t, c) {
        let i = choose|i: int| 0 <= i < t.len() && (#[trigger] t[i]).0 == c;
        assert(u[i].0 == c);
        crate::index::lemma_blit_place(t, c);
    }
    if !has_blit(t, c) && e.0 == c {
        assert(u[t.len() as int].0 == c);
    }
}

/// The index lists the objective `k` for the literals of `lits`, on top of
/// what the index `before` lists, and nothing else.
pub open spec fn registered(
    index: ObjIndex,
    before: ObjIndex,
    lits: Seq<(Lit, usize)>,
    k: usize,
) -> bool {
    &&& forall|l: Lit|
        #![trigger index@.contains_key(l)]
        index@.contains_key(l) <==> before@.contains_key(l) || crate::objective::has_lit(lits, l)
    &&& forall|l: Lit, x: usize|
        #![trigger index.links(l).objs.contains(x)]
        index.links(l).objs.contains(x) <==> before.links(l).objs.contains(x) || (x == k
            && crate::objective::has_lit(lits, l))
}

/// What is registered stays so when one more literal is registered.
pub proof fn lemma_registered_step(
    index: ObjIndex,
    index1: ObjIndex,
    before: ObjIndex,
    lits: Seq<(Lit, usize)>,
    olit: Lit,
    w: usize,
    k: usize,
)
    requires
        registered(index1, before, lits, k),
        forall|l: Lit|
            #![trigger index@.contains_key(l)]
            index@.contains_key(l) <==> index1@.contains_key(l) || l == olit,
        forall|l: Lit| l != olit ==> (#[trigger] index.links(l)).objs == index1.links(l).objs,
        index.links(olit).objs == index1.links(olit).objs.push(k),
    ensures
        registered(index, before, lits.push((olit, w)), k),
{
    let more = lits.push((olit, w));
    assert(more[lits.len() as int].0 == olit);
    assert forall|l: Lit| crate::objective::has_lit(more, l) <==> crate::objective::has_lit(lits, l) || l
        == olit by {
        if crate::objective::has_lit(more, l) {
            let i = choose|i: int| 0 <= i < more.len() && (#[trigger] more[i]).0 == l;
            if i < lits.len() {
                assert(lits[i].0 == l);
            }
        }
        if crate::objective::has_lit(lits, l) {
            let i = choose|i: int| 0 <= i < lits.len() && (#[trigger] lits[i]).0 == l;
            assert(more[i].0 == l);
        }
    }
    assert forall|l: Lit|
        index@.contains_key(l) <==> before@.contains_key(l) ||
            crate::objective::has_lit(more, l) by {
        assert(index1@.contains_key(l) <==> before@.contains_key(l) || crate::objective::has_lit(
            lits,
            l,
        ));
        assert(crate::objective::has_lit(more, l) <==> crate::objective::has_lit(lits, l) || l == olit);
    }
    assert forall|l: Lit, x: usize|
        #![trigger index.links(l).objs.contains(x)]
        index.links(l).objs.contains(x) <==> before.links(l).objs.contains(x) || (x == k
            && crate::objective::has_lit(more, l)) by {
        assert(crate::objective::has_lit(more, l) <==> crate::objective::has_lit(lits, l) || l == olit);
        if l == olit {
            let s = index1.links(olit).objs;
            let t = s.push(k);
            assert(t[s.len() as int] == k);
            if t.contains(x) {
                let i = choose|i: int| 0 <= i < t.len() && t[i] == x;
                if i < s.len() {
                    assert(s[i] == x);
                    assert(index1.links(l).objs.contains(x));
                }
            }
            if s.contains(x) {
                let i = choose|i: int| 0 <= i < s.len() && s[i] == x;
                assert(t[i] == x);
            }
            assert(index1.links(l).objs.contains(x) <==> before.links(l).objs.contains(x) || (x == k
                && crate::objective::has_lit(lits, l)));
        } else {
            assert(index.links(l).objs == index1.links(l).objs);
            assert(index1.links(l).objs.contains(x) <==> before.links(l).objs.contains(x) || (x == k
                && crate::objective::has_lit(lits, l)));
        }
    }
}

/// For each objective literal the index lists the objectives that hold it,
/// and its objective literals are the literals of the objectives.
pub open spec fn objs_linked(index: ObjIndex, objs: Seq<Objective>) -> bool {
    &&& forall|l: Lit|
        #![trigger index@.contains_key(l)]
        index@.contains_key(l) <==> crate::tightening::is_objective_lit(objs, l)
    &&& forall|l: Lit, x: usize|
        #![trigger index.links(l).objs.contains(x)]
        index.links(l).objs.contains(x) <==> x < objs.len() && crate::objective::has_lit(
            objs[x as int].spec_iter(),
            l,
        )
}

/// An index that lists the objectives lists them after one more objective
/// was registered for its literals.
pub proof fn lemma_objs_linked_push(
    index: ObjIndex,
    before: ObjIndex,
    objs: Seq<Objective>,
    obj: Objective,
    lits: Seq<(Lit, usize)>,
)
    requires
        objs.len() <= usize::MAX,
        objs_linked(before, objs),
        registered(index, before, lits, objs.len() as usize),
        forall|l: Lit|
            #![trigger crate::objective::has_lit(lits, l)]
            crate::objective::has_lit(lits, l) <==> crate::objective::has_lit(obj.spec_iter(), l),
    ensures
        objs_linked(index, objs.push(obj)),
{
    let more = objs.push(obj);
    let k = objs.len() as usize;
    assert(more[k as int] == obj);
    assert forall|l: Lit| index@.contains_key(l) <==> crate::tightening::is_objective_lit(more, l) by {
        assert(index@.contains_key(l) <==> before@.contains_key(l) || crate::objective::has_lit(lits, l));
        assert(before@.contains_key(l) <==> crate::tightening::is_objective_lit(objs, l));
        assert(crate::objective::has_lit(lits, l) <==> crate::objective::has_lit(obj.spec_iter(), l));
        if crate::tightening::is_objective_lit(more, l) {
            let (i, j) = choose|i: int, j: int|
                0 <= i < more.len() && 0 <= j < more[i].spec_iter().len() && (
                #[trigger] more[i].spec_iter()[j]).0 == l;
            if i < objs.len() {
                assert(more[i] == objs[i]);
                assert(objs[i].spec_iter()[j].0 == l);
                assert(crate::tightening::is_objective_lit(objs, l));
            } else {
                assert(obj.spec_iter()[j].0 == l);
                assert(crate::objective::has_lit(obj.spec_iter(), l));
            }
        }
        if crate::tightening::is_objective_lit(objs, l) {
            let (i, j) = choose|i: int, j: int|
                0 <= i < objs.len() && 0 <= j < objs[i].spec_iter().len() && (
                #[trigger] objs[i].spec_iter()[j]).0 == l;
            assert(more[i] == objs[i]);
            assert(more[i].spec_iter()[j].0 == l);
        }
        if crate::objective::has_lit(obj.spec_iter(), l) {
            let j = choose|j: int| 0 <= j < obj.spec_iter().len() &&
                (#[trigger] obj.spec_iter()[j]).0 == l;
            assert(more[k as int].spec_iter()[j].0 == l);
        }
    }
    assert forall|l: Lit, x: usize|
        #![trigger index.links(l).objs.contains(x)]
        index.links(l).objs.contains(x) <==> x < more.len() && crate::objective::has_lit(
            more[x as int].spec_iter(),
            l,
        ) by {
        assert(before.links(l).objs.contains(x) <==> x < objs.len() && crate::objective::has_lit(
            objs[x as int].spec_iter(),
            l,
        ));
        if x < objs.len() {
            assert(more[x as int] == objs[x as int]);
        }
    }
}

/// What the encoder of an objective can take is within the bound for the
/// soft clauses that the objective is made of.
pub proof fn lemma_need_within(obj: Objective, lits: Seq<(Lit, usize)>, softs: Seq<(Clause, usize)>)
    requires
        crate::objective::classified(obj, lits),
        crate::objective::total_weight(lits) == weight_sum(softs),
        crate::objective::total_weight(lits) <= usize::MAX,
        lits.len() == softs.len(),
    ensures
        crate::pminimal::need_of(obj) <= soft_need(softs),
{
    let n = softs.len();
    let m: nat = if weight_sum(softs) > 64 {
        weight_sum(softs)
    } else {
        64
    };
    crate::objective::lemma_merged(lits, Seq::empty());
    match obj {
        Objective::Weighted { lits: ls, .. } => {
            let a = ls@.len();
            let t = crate::objective::total_weight(ls@);
            assert(a * t <= n * m) by (nonlinear_arith)
                requires
                    a <= n,
                    t <= m,
            ;
        },
        Objective::Unweighted { lits: ls, .. } => {
            let a = ls@.len();
            assert(64 * a <= n * m) by (nonlinear_arith)
                requires
                    a <= n,
                    64 <= m,
            ;
        },
        Objective::Constant { .. } => {},
    }
}

/// Adds an objective to the parts of a solver that is being built.
///
/// Each soft clause is given its objective literal, which relaxes the
/// clause where the clause has more than one literal. The literals are
/// entered in the index with the number of the objective, the objective is
/// classified by the weights of its literals, and an encoder of its shape
/// is made. Returns the relaxed clauses that were made on the way.
pub fn add_objective(
    obj: SoftObjective,
    objs: &mut Vec<Objective>,
    obj_encs: &mut Vec<ObjEncoding>,
    blits: &mut BlitTable,
    index: &mut ObjIndex,
    var_manager: &mut VarManager,
    opts: &Options,
) -> (r: Result<Vec<Clause>, InitError>)
    requires
        old(index).wf(),
        index_links_in_range(*old(index)),
        old(var_manager).wf(),
        old(blits).wf(),
        old(objs)@.len() == old(obj_encs)@.len(),
        lits_known(old(objs)@, *old(index), old(var_manager).next_var as int),
        blits_below(old(blits)@, old(var_manager).next_var as int),
        softs_below(obj.softs@, old(var_manager).next_var as int),
        opts.heuristic_improvements.spec_must_store_clauses() ==> blits_linked(
            *old(index),
            old(blits)@,
        ) && old(index).stored().len() == old(blits)@.len(),
        objs_linked(*old(index), old(objs)@),
    ensures
        final(index).wf(),
        final(blits).wf(),
        index_links_in_range(*final(index)),
        final(index).grows_from(*old(index)),
        opts.heuristic_improvements.spec_must_store_clauses() ==> blits_linked(
            *final(index),
            final(blits)@,
        ) && final(index).stored().len() == final(blits)@.len(),
        final(var_manager).wf(),
        old(var_manager).next_var <= final(var_manager).next_var,
        old(blits)@.is_prefix_of(final(blits)@),
        blits_below(final(blits)@, final(var_manager).next_var as int),
        old(index).stored().is_prefix_of(final(index).stored()),
        forall|l: Lit| old(index)@.contains_key(l) ==> final(index)@.contains_key(l),
        r matches Ok(cnf) ==> {
            &&& final(objs)@.len() == old(objs)@.len() + 1
            &&& final(objs)@.drop_last() == old(objs)@
            &&& final(obj_encs)@.len() == old(obj_encs)@.len() + 1
            &&& final(obj_encs)@.drop_last() == old(obj_encs)@
            &&& final(objs)@.last().wf()
            &&& encodes(final(obj_encs)@.last(), final(objs)@.last())
            &&& crate::pminimal::budgeted(
                final(obj_encs)@.last(),
                final(objs)@.last(),
                opts.reserve_enc_vars,
            )
            &&& final(obj_encs)@.last().spec_clauses().len() == 0
            &&& lits_known(final(objs)@, *final(index), final(var_manager).next_var as int)
            &&& softs_relaxed(final(blits)@, obj.softs@)
            &&& final(objs)@.last().spec_offset() == obj.offset
            &&& crate::objective::classified(
                final(objs)@.last(),
                soft_lits(final(blits)@, obj.softs@),
            )
            &&& forall|a: Seq<crate::types::TernaryVal>| #[trigger]
                final(objs)@.last().external_cost(a) == obj.offset
                    + crate::objective::weighted_cost(soft_lits(final(blits)@, obj.softs@), a)
            &&& clause_views(cnf@) == relaxed_from(final(blits)@, old(blits)@.len() as int)
            &&& opts.heuristic_improvements.spec_must_store_clauses() ==> final(index).stored()
                == old(index).stored() + keys_from(final(blits)@, old(blits)@.len() as int)
            &&& !opts.heuristic_improvements.spec_must_store_clauses() ==> final(index).stored()
                == old(index).stored()
        },
        r is Err ==> final(objs)@ == old(objs)@ && final(obj_encs)@ == old(obj_encs)@,
        !opts.reserve_enc_vars ==> final(var_manager).next_var <= old(var_manager).next_var
            + obj.softs@.len(),
        !opts.reserve_enc_vars ==> final(var_manager).next_var - old(var_manager).next_var
            == final(blits)@.len() - old(blits)@.len(),
        obj.softs@.len() == 0 ==> final(index)@ == old(index)@ && final(blits)@ == old(blits)@,
        final(blits)@.len() <= old(blits)@.len() + obj.softs@.len(),
        well_weighted(obj.softs@, obj.offset) && old(var_manager).next_var + obj.softs@.len()
            <= MAX_VAR_IDX && !opts.reserve_enc_vars ==> r is Ok,
        r matches Err(InitError::OutOfVariables) ==> old(var_manager).next_var + soft_room(
            obj.softs@,
            opts.reserve_enc_vars,
        ) > MAX_VAR_IDX,
        well_weighted(obj.softs@, obj.offset) && old(var_manager).next_var + soft_room(
            obj.softs@,
            opts.reserve_enc_vars,
        ) <= MAX_VAR_IDX ==> r is Ok,
        final(var_manager).next_var <= old(var_manager).next_var + soft_room(
            obj.softs@,
            opts.reserve_enc_vars,
        ),
        obj.softs@.len() == 0 ==> r is Ok && *final(var_manager) == *old(var_manager),
        r is Ok ==> well_weighted(obj.softs@, obj.offset),
        r is Ok ==> objs_linked(*final(index), final(objs)@),
        r matches Err(e) ==> e == InitError::OutOfVariables || (e matches InitError::Objective(_)
            && !well_weighted(obj.softs@, obj.offset)),
        r matches Err(InitError::Objective(e)) ==>
            (e == ObjectiveError::ZeroWeight) == zero_weighted(
            obj.softs@,
        ),
{
    let store = opts.heuristic_improvements.must_store_clauses();
    let obj_idx = objs.len();
    let SoftObjective { softs, offset } = obj;
    let mut cnf: Vec<Clause> = Vec::new();
    let mut lits: Vec<(Lit, usize)> = Vec::new();
    let ghost blits0 = blits@;
    let ghost stored0 = index.stored();
    proof {
        assert(clause_views(cnf@) =~= relaxed_from(blits@, blits0.len() as int));
        assert(index.stored() =~= stored0 + keys_from(blits@, blits0.len() as int));
        assert(lits@ =~= soft_lits(blits@, softs@.take(0)));
    }
    for soft in it: softs
        invariant
            it.seq() == softs@,
            softs@ == obj.softs@,
            index.wf(),
            blits.wf(),
            index_links_in_range(*index),
            var_manager.wf(),
            old(var_manager).next_var <= var_manager.next_var,
            blits0 == old(blits)@,
            stored0 == old(index).stored(),
            blits0.is_prefix_of(blits@),
            blits_below(blits@, var_manager.next_var as int),
            softs_below(softs@, var_manager.next_var as int),
            forall|l: Lit| old(index)@.contains_key(l) ==> index@.contains_key(l),
            lits@ == soft_lits(blits@, softs@.take(it.index())),
            softs_relaxed(blits@, softs@.take(it.index())),
            forall|j: int|
                0 <= j < lits@.len() ==>
                    index@.contains_key((#[trigger] lits@[j]).0) && lits@[j].0.spec_vidx()
                    < var_manager.next_var,
            clause_views(cnf@) == relaxed_from(blits@, blits0.len() as int),
            store ==> index.stored() == stored0 + keys_from(blits@, blits0.len() as int),
            !store ==> index.stored() == stored0,
            store == opts.heuristic_improvements.spec_must_store_clauses(),
            index.grows_from(*old(index)),
            store ==> blits_linked(*index, blits@) && index.stored().len() == blits@.len(),
            var_manager.next_var <= old(var_manager).next_var + it.index(),
            blits@.len() <= blits0.len() + it.index(),
            var_manager.next_var - old(var_manager).next_var == blits@.len() - blits0.len(),
            it.index() == 0 ==> index@ == old(index)@ && blits@ == blits0,
            registered(*index, *old(index), lits@, obj_idx),
            obj_idx == old(objs)@.len(),
            *objs == *old(objs),
            *obj_encs == *old(obj_encs),
    {
        let ghost i = it.index();
        let ghost blits1 = blits@;
        let ghost index1 = *index;
        let (cl, w) = soft;
        let ghost c = cl@;
        proof {
            assert(softs@[i] == soft);
            assert(clause_below(softs@[i].0@, var_manager.next_var as int));
        }
        let (olit, opt_cls_info) = match add_soft_clause(cl, blits, index, var_manager, store) {
            Ok(out) => out,
            Err(e) => {
                proof {
                    assert forall|l: Lit| #[trigger] index@.contains_key(l) implies links_in_range(
                        index@[l].clauses,
                        index.stored(),
                    ) by {
                        assert(index1@.contains_key(l));
                    }
                }
                return Err(InitError::OutOfVariables);
            },
        };
        let ghost blits2 = blits@;
        let ghost index2 = *index;
        proof {
            // the literal of the clause, under the table as it is now
            if c.len() != 1 {
                if has_blit(blits1, c) {
                    crate::index::lemma_blit_place(blits1, c);
                } else {
                    lemma_soft_lit_push(blits1, (c, olit), c);
                }
            } else {
                assert(c[0].spec_vidx() < var_manager.next_var);
            }
            assert(olit == soft_lit(blits2, c));
            assert(olit.spec_vidx() < var_manager.next_var);
            assert forall|l: Lit| #[trigger] index2@.contains_key(l) implies links_in_range(
                index2@[l].clauses,
                index2.stored(),
            ) by {
                assert(index1@.contains_key(l));
                assert(links_in_range(index1@[l].clauses, index1.stored()));
            }
        }
        // Note the objective for the literal
        index.register(olit, obj_idx);
        let ghost index3 = *index;
        proof {
            assert forall|l: Lit| #[trigger] index3@.contains_key(l) implies links_in_range(
                index3@[l].clauses,
                index3.stored(),
            ) by {
                if l != olit {
                    assert(index2@.contains_key(l));
                } else if index2@.contains_key(l) {
                    assert(links_in_range(index2@[l].clauses, index2.stored()));
                }
            }
        }
        // Keep the relaxed clause, and the place of the clause it relaxes
        match opt_cls_info {
            Some((cls_idx, hard_cl)) => {
                let ghost before = clause_views(cnf@);
                cnf.push(hard_cl);
                proof {
                    assert(clause_views(cnf@) =~= before.push(hard_cl@));
                    assert(clause_views(cnf@) =~= relaxed_from(blits@, blits0.len() as int));
                }
                if store {
                    let at = cls_idx.unwrap();
                    index.link(olit, at);
                    proof {
                        assert(at == blits1.len());
                        assert(index@[olit].clauses.contains(at));
                        let p = choose|p: int|
                            0 <= p < index@[olit].clauses.len() && index@[olit].clauses[p] == at;
                        assert(linked_to(index@[olit].clauses, at as int));
                        assert(index.stored() =~= stored0 + keys_from(blits@, blits0.len() as int));
                        assert forall|l: Lit| #[trigger]
                            index@.contains_key(l) implies links_in_range(
                            index@[l].clauses,
                            index.stored(),
                        ) by {
                            if l != olit {
                                assert(index3@.contains_key(l));
                            } else {
                                assert(links_in_range(index3@[l].clauses, index3.stored()));
                            }
                        }
                    }
                }
            },
            None => {},
        }
        let ghost lits1 = lits@;
        lits.push((olit, w));
        proof {
            assert forall|l: Lit| l != olit implies
                (#[trigger] index.links(l)).objs == index1.links(
                l,
            ).objs by {
                assert(index3@.contains_key(l) == index1@.contains_key(l));
                assert(index@.contains_key(l) == index3@.contains_key(l));
                if index1@.contains_key(l) {
                    assert(index3@[l] == index1@[l]);
                    assert(index@[l].objs == index3@[l].objs);
                }
            }
            assert(index.links(olit).objs == index1.links(olit).objs.push(obj_idx)) by {
                assert(index2.links(olit) == index1.links(olit));
                assert(index3@[olit].objs == index2.links(olit).objs.push(obj_idx));
                assert(index@[olit].objs == index3@[olit].objs);
            }
            assert forall|l: Lit|
                #![trigger index@.contains_key(l)]
                index@.contains_key(l) <==> index1@.contains_key(l) || l == olit by {
                assert(index3@.contains_key(l) <==> index2@.contains_key(l) || l == olit);
                assert(index@.contains_key(l) == index3@.contains_key(l));
            }
            lemma_registered_step(*index, index1, *old(index), lits1, olit, w, obj_idx);
            lemma_grows_trans(index3, index2, index1);
            assert(index.grows_from(index3)) by {
                assert(index3.stored().is_prefix_of(index.stored()));
            }
            lemma_grows_trans(*index, index3, index1);
            lemma_grows_trans(*index, index1, *old(index));
            if store {
                lemma_grows_keeps_blits(*index, index1, blits1);
                if blits@ != blits1 {
                    let k = blits1.len() as int;
                    assert(blits@[k] == (c, olit));
                    assert(index.stored()[k] == c);
                    assert(linked_to(index@[olit].clauses, k));
                    assert forall|q: int| 0 <= q < blits@.len() implies {
                        &&& index.stored()[q] == (#[trigger] blits@[q]).0
                        &&& index@.contains_key(blits@[q].1)
                        &&& linked_to(index@[blits@[q].1].clauses, q)
                    } by {
                        if q < k {
                            assert(blits@[q] == blits1[q]);
                        }
                    }
                }
            }
            let t1 = softs@.take(i);
            let t2 = softs@.take(i + 1);
            assert(t2.drop_last() =~= t1);
            assert(t2.last() == softs@[i]);
            assert forall|j: int| 0 <= j < t2.len() && (#[trigger] t2[j]).0@.len() != 1 implies
                has_blit(
                blits@,
                t2[j].0@,
            ) by {
                if j < i {
                    assert(t1[j] == t2[j]);
                    assert(has_blit(blits1, t1[j].0@));
                    if blits@ != blits1 {
                        lemma_soft_lit_push(blits1, (c, olit), t1[j].0@);
                    }
                } else {
                    if blits@ != blits1 {
                        lemma_soft_lit_push(blits1, (c, olit), c);
                    }
                }
            }
            assert(lits@ =~= soft_lits(blits@, t2)) by {
                assert forall|j: int| 0 <= j < t2.len() implies
                    lits@[j] == soft_lits(blits@, t2)[j] by {
                    if j < i {
                        assert(t1[j] == t2[j]);
                        assert(lits@[j] == soft_lits(blits1, t1)[j]);
                        if t1[j].0@.len() != 1 {
                            assert(has_blit(blits1, t1[j].0@));
                        }
                        if blits@ != blits1 {
                            lemma_soft_lit_push(blits1, (c, olit), t1[j].0@);
                        }
                    }
                }
            }
            assert forall|j: int| 0 <= j < lits@.len() implies index@.contains_key(
                (#[trigger] lits@[j]).0,
            ) && lits@[j].0.spec_vidx() < var_manager.next_var by {
                if j < i {
                    assert(index1@.contains_key(lits@[j].0));
                }
            }
        }
    }
    proof {
        assert(softs@.take(softs@.len() as int) =~= softs@);
    }
    proof {
        lemma_soft_weights(blits@, softs@);
    }
    // Classify the objective and make its encoder
    let objective = match Objective::new(lits, offset) {
        Ok(o) => o,
        Err(e) => {
            return Err(InitError::Objective(e));
        },
    };
    proof {
        lemma_need_within(objective, lits@, softs@);
    }
    let encoding = match &objective {
        Objective::Weighted { lits, .. } => ObjEncoding::new_weighted(
            lits,
            opts.reserve_enc_vars,
            var_manager,
        ),
        Objective::Unweighted { lits, .. } => ObjEncoding::new_unweighted(
            lits,
            opts.reserve_enc_vars,
            var_manager,
        ),
        Objective::Constant { .. } => Ok(ObjEncoding::Constant),
    };
    let encoding = match encoding {
        Ok(enc) => enc,
        Err(e) => {
            return Err(InitError::OutOfVariables);
        },
    };
    proof {
        assert forall|j: int| 0 <= j < objective.spec_iter().len() implies index@.contains_key(
            (#[trigger] objective.spec_iter()[j]).0,
        ) && objective.spec_iter()[j].0.spec_vidx() < var_manager.next_var by {
            let l = objective.spec_iter()[j].0;
            assert(crate::objective::has_lit(lits@, l));
            let k = choose|k: int| 0 <= k < lits@.len() && (#[trigger] lits@[k]).0 == l;
            assert(index@.contains_key(lits@[k].0));
        }
    }
    proof {
        assert forall|l: Lit|
            #![trigger crate::objective::has_lit(lits@, l)]
            crate::objective::has_lit(lits@, l) <==> crate::objective::has_lit(
                objective.spec_iter(),
                l,
            ) by {
            if crate::objective::has_lit(lits@, l) {
                let j = choose|j: int| 0 <= j < lits@.len() && (#[trigger] lits@[j]).0 == l;
                assert(crate::objective::has_lit(objective.spec_iter(), lits@[j].0));
            }
            if crate::objective::has_lit(objective.spec_iter(), l) {
                let j = choose|j: int|
                    0 <= j < objective.spec_iter().len() && (#[trigger] objective.spec_iter()[j]).0
                        == l;
                assert(crate::objective::has_lit(lits@, objective.spec_iter()[j].0));
            }
        }
        lemma_objs_linked_push(*index, *old(index), old(objs)@, objective, lits@);
    }
    objs.push(objective);
    obj_encs.push(encoding);
    proof {
        assert(objs@.drop_last() =~= old(objs)@);
        assert(obj_encs@.drop_last() =~= old(obj_encs)@);
        assert forall|i: int, j: int|
            0 <= i < objs@.len() && 0 <= j < objs@[i].spec_iter().len() implies {
            &&& index@.contains_key((#[trigger] objs@[i].spec_iter()[j]).0)
            &&& objs@[i].spec_iter()[j].0.spec_vidx() < var_manager.next_var
        } by {
            if i < old(objs)@.len() {
                assert(objs@[i] == old(objs)@[i]);
                assert(old(index)@.contains_key(old(objs)@[i].spec_iter()[j].0));
            }
        }
    }
    Ok(cnf)
}

/// A clause that has an entry in a table keeps its entry and its objective
/// literal in every table that the table is a prefix of.
pub proof fn lemma_soft_lit_extend(t: Seq<(Seq<Lit>, Lit)>, u: Seq<(Seq<Lit>, Lit)>, c: Seq<Lit>)
    requires
        t.is_prefix_of(u),
        c.len() == 1 || has_blit(t, c),
    ensures
        c.len() == 1 || has_blit(u, c),
        soft_lit(u, c) == soft_lit(t, c),
    decreases u.len() - t.len(),
{
    if t.len() == u.len() {
        assert(t =~= u);
    } else {
        let v = u.drop_last();
        assert(t.is_prefix_of(v)) by {
            assert(t =~= v.subrange(0, t.len() as int));
        }
        lemma_soft_lit_extend(t, v, c);
        assert(v.push(u.last()) =~= u);
        lemma_soft_lit_push(v, u.last(), c);
    }
}

/// The objective literals of soft clauses that a table has relaxed are the
/// same in every table that the table is a prefix of.
pub proof fn lemma_soft_lits_extend(
    t: Seq<(Seq<Lit>, Lit)>,
    u: Seq<(Seq<Lit>, Lit)>,
    softs: Seq<(Clause, usize)>,
)
    requires
        t.is_prefix_of(u),
        softs_relaxed(t, softs),
    ensures
        softs_relaxed(u, softs),
        soft_lits(u, softs) == soft_lits(t, softs),
{
    assert forall|i: int| 0 <= i < softs.len() implies
        soft_lit(u, (#[trigger] softs[i]).0@) == soft_lit(
        t,
        softs[i].0@,
    ) && (softs[i].0@.len() != 1 ==> has_blit(u, softs[i].0@)) by {
        lemma_soft_lit_extend(t, u, softs[i].0@);
    }
    assert(soft_lits(u, softs) =~= soft_lits(t, softs));
}

/// Whether some literal of the clause is an objective literal.
fn mentions_objective(index: &ObjIndex, clause: &Clause) -> (b: bool)
    ensures
        b == exists|j: int| 0 <= j < clause@.len() && index@.contains_key(#[trigger] clause@[j]),
{
    let mut j: usize = 0;
    while j < clause.len()
        invariant
            j <= clause@.len(),
            forall|k: int| 0 <= k < j ==> !index@.contains_key(#[trigger] clause@[k]),
        decreases clause@.len() - j,
    {
        if index.contains(clause.get(j)) {
            return true;
        }
        j += 1;
    }
    false
}

/// Links every objective literal of the stored clause at place `at` to
/// that place, once for each of its occurrences in the clause.
fn link_clause(index: &mut ObjIndex, at: usize)
    requires
        old(index).wf(),
        index_links_in_range(*old(index)),
        at < old(index).stored().len(),
    ensures
        final(index).wf(),
        index_links_in_range(*final(index)),
        final(index).stored() == old(index).stored(),
        final(index)@.dom() == old(index)@.dom(),
        final(index).grows_from(*old(index)),
        clause_linked(*final(index), at as int),
        forall|l: Lit| #[trigger]
            final(index)@.contains_key(l) ==> final(index)@[l].objs == old(index)@[l].objs,
{
    let n = index.clause(at).len();
    let mut j: usize = 0;
    proof {
        assert(index.grows_from(*index)) by {
            assert(index.stored().is_prefix_of(index.stored()));
        }
    }
    while j < n
        invariant
            j <= n,
            index.wf(),
            index_links_in_range(*index),
            index.stored() == old(index).stored(),
            at < index.stored().len(),
            n == index.stored()[at as int].len(),
            index@.dom() == old(index)@.dom(),
            index.grows_from(*old(index)),
            forall|q: int|
                0 <= q < j && index@.contains_key(#[trigger] index.stored()[at as int][q]) ==>
                    linked_to(
                    index@[index.stored()[at as int][q]].clauses,
                    at as int,
                ),
            forall|l: Lit| #[trigger] index@.contains_key(l) ==>
                index@[l].objs == old(index)@[l].objs,
        decreases n - j,
    {
        let lit = index.clause(at).get(j);
        let ghost before = *index;
        if index.contains(lit) {
            index.link(lit, at);
            proof {
                assert forall|l: Lit| #[trigger] index@.contains_key(l) implies links_in_range(
                    index@[l].clauses,
                    index.stored(),
                ) by {
                    assert(before@.contains_key(l));
                    assert(links_in_range(before@[l].clauses, before.stored()));
                }
                lemma_grows_trans(*index, before, *old(index));
                assert(index@[lit].clauses.contains(at));
                let p = choose|p: int| 0 <= p < index@[lit].clauses.len() &&
                    index@[lit].clauses[p] == at;
                assert(linked_to(index@[lit].clauses, at as int));
                assert forall|l: Lit| #[trigger] index@.contains_key(l) implies
                    index@[l].objs == old(index)@[l].objs by {
                    assert(before@.dom().contains(l));
                    assert(before@.contains_key(l));
                }
            }
        }
        proof {
            assert forall|q: int|
                0 <= q < j + 1 && index@.contains_key(
                    #[trigger] index.stored()[at as int][q],
                ) implies linked_to(index@[index.stored()[at as int][q]].clauses, at as int) by {
                let l = index.stored()[at as int][q];
                if q < j {
                    assert(before@.dom().contains(l));
                    assert(before@.contains_key(before.stored()[at as int][q]));
                    if before != *index {
                        lemma_grows_keeps_link(*index, before, l, at as int);
                    }
                }
            }
        }
        j += 1;
    }
}

/// Every objective of the instance is well weighted.
pub open spec fn all_well_weighted(inst: Instance) -> bool {
    forall|i: int|
        0 <= i < inst.objectives@.len() ==> well_weighted(
            (#[trigger] inst.objectives@[i]).softs@,
            inst.objectives@[i].offset,
        )
}

/// The error has its reason in the instance and the options: an objective
/// is refused only where one is not well weighted, and variables run out
/// only where there is no room for the instance, the blocking literals and,
/// where the encoders reserve theirs, what the encoders can take. The
/// oracle takes every clause, so it is never the reason.
pub open spec fn refusal_explained(inst: Instance, opts: Options, e: InitError) -> bool {
    match e {
        InitError::Objective(oe) => exists|i: int|
            0 <= i < inst.objectives@.len() && !well_weighted(
                (#[trigger] inst.objectives@[i]).softs@,
                inst.objectives@[i].offset,
            ) && (oe == ObjectiveError::ZeroWeight) == zero_weighted(inst.objectives@[i].softs@),
        InitError::OutOfVariables => !roomy_for(inst, opts.reserve_enc_vars),
        InitError::Oracle(_) => false,
    }
}

impl<BCG: BlockingClauseGen, L: WriteSolverLog, T: Terminator> PMinimal<BCG, L, T> {
    /// The solver is what the construction makes of the instance, the
    /// options and an oracle that held the clauses `given`: nothing is found
    /// or counted yet, each objective costs what its soft clauses say, and
    /// the oracle holds the hard clauses and the relaxed soft clauses on top
    /// of what it held. The highest variable in use is the highest that a
    /// solution of the solver speaks of.
    pub open spec fn built_from(self, inst: Instance, opts: Options, given: Seq<Seq<Lit>>) -> bool {
        &&& self.wf()
        &&& self.pareto_front.ndoms@.len() == 0
        &&& self.opts == opts
        &&& self.lims == Limits::spec_none()
        &&& self.stats == (Stats {
            n_objs: inst.objectives@.len() as usize,
            n_orig_clauses: inst.clauses@.len() as usize,
            ..Stats::spec_default()
        })
        &&& self.loggers.slots@.len() == 0
        &&& self.term_cb.is_none()
        &&& self.objs@.len() == inst.objectives@.len()
        &&& forall|i: int|
            0 <= i < inst.objectives@.len() ==> {
                &&& softs_relaxed(self.blits@, (#[trigger] inst.objectives@[i]).softs@)
                &&& self.objs@[i].spec_offset() == inst.objectives@[i].offset
                &&& crate::objective::classified(
                    self.objs@[i],
                    soft_lits(self.blits@, inst.objectives@[i].softs@),
                )
                &&& forall|a: Seq<crate::types::TernaryVal>| #[trigger]
                    self.objs@[i].external_cost(a) == inst.objectives@[i].offset
                        + crate::objective::weighted_cost(
                        soft_lits(self.blits@, inst.objectives@[i].softs@),
                        a,
                    )
            }
        &&& self.oracle.clauses() == given + clause_views(inst.clauses@) + relaxed_from(
            self.blits@,
            0,
        )
        &&& opts.heuristic_improvements.spec_must_store_clauses() ==> index_complete(
            self.index,
            self.blits@,
            clause_views(inst.clauses@),
        )
        &&& is_bare(inst) ==> self.max_orig_var.is_none()
        &&& self.max_orig_var == (if self.var_manager.next_var == 0 {
            None::<Var>
        } else {
            Some(Var { idx: (self.var_manager.next_var - 1) as u32 })
        })
        &&& all_well_weighted(inst)
        &&& objs_linked(self.index, self.objs@)
        &&& self.hard@ == clause_views(inst.clauses@)
        &&& self.sound()
        &&& self.fed()
    }

    /// Builds a solver for the instance on top of the given oracle, which
    /// may hold clauses of its own.
    ///
    /// The soft clauses are relaxed and the objectives classified and given
    /// their encoders. Where the options ask for heuristic improvements the
    /// clauses that hold objective literals are stored and linked to those
    /// literals. Then the hard clauses and the relaxed soft clauses go to
    /// the oracle. The highest variable in use by then bounds the solutions
    /// that the solver reports.
    pub fn init_with_oracle_and_options(
        inst: Instance,
        oracle: Oracle,
        opts: Options,
        block_clause_gen: BCG,
    ) -> (r: Result<Self, InitError>)
        ensures
            r matches Ok(s) ==> s.built_from(inst, opts, oracle.clauses()),
            r matches Err(e) ==> refusal_explained(inst, opts, e),
            is_bare(inst) ==> r is Ok,
            all_well_weighted(inst) && roomy_for(inst, opts.reserve_enc_vars) ==> r is Ok,
    {
        let bound = instance_bound(&inst);
        proof {
            if is_bare(inst) {
                lemma_bare(inst);
            }
            if roomy(inst) {
                let n = choose|n: int| fits(inst, n) &&
                    n + n_softs(inst.objectives@) <= MAX_VAR_IDX;
                assert(bound <= n);
            }
            if roomy_for(inst, opts.reserve_enc_vars) {
                let n = choose|n: int|
                    fits(inst, n) && n + softs_room(inst.objectives@, opts.reserve_enc_vars)
                        <= MAX_VAR_IDX;
                assert(bound <= n);
            }
            assert(inst.objectives@.take(0) =~= Seq::<SoftObjective>::empty());
        }
        if bound > MAX_VAR_IDX as u64 {
            return Err(InitError::OutOfVariables);
        }
        let Instance { clauses, n_vars: _, objectives } = inst;
        let mut var_manager = VarManager::from_next_free(bound as u32);
        let mut objs: Vec<Objective> = Vec::new();
        let mut obj_encs: Vec<ObjEncoding> = Vec::new();
        let mut index = ObjIndex::new();
        let mut blits = BlitTable::new();
        let store = opts.heuristic_improvements.must_store_clauses();
        let n_objs = objectives.len();
        let n_orig_clauses = clauses.len();
        // Add the objectives
        let mut obj_cnf: Vec<Clause> = Vec::new();
        proof {
            assert(clause_views(obj_cnf@) =~= relaxed_from(blits@, 0));
            assert(index.stored() =~= keys_from(blits@, 0));
        }
        for obj in it: objectives
            invariant
                it.seq() == objectives@,
                objectives@ == inst.objectives@,
                store == opts.heuristic_improvements.spec_must_store_clauses(),
                index.wf(),
                blits.wf(),
                index_links_in_range(index),
                var_manager.wf(),
                bound <= var_manager.next_var,
                forall|k: int|
                    0 <= k < objectives@.len() ==> softs_below(
                        (#[trigger] objectives@[k]).softs@,
                        bound as int,
                    ),
                objs@.len() == it.index(),
                obj_encs@.len() == it.index(),
                lits_known(objs@, index, var_manager.next_var as int),
                blits_below(blits@, var_manager.next_var as int),
                forall|i: int| 0 <= i < objs@.len() ==> (#[trigger] objs@[i]).wf(),
                forall|i: int|
                    0 <= i < objs@.len() ==> encodes(#[trigger] obj_encs@[i], objs@[i])
                        && crate::pminimal::budgeted(
                        obj_encs@[i],
                        objs@[i],
                        opts.reserve_enc_vars,
                    ) && obj_encs@[i].spec_clauses().len() == 0,
                forall|i: int|
                    0 <= i < objs@.len() ==> {
                        &&& softs_relaxed(blits@, (#[trigger] objectives@[i]).softs@)
                        &&& objs@[i].spec_offset() == objectives@[i].offset
                        &&& crate::objective::classified(
                            objs@[i],
                            soft_lits(blits@, objectives@[i].softs@),
                        )
                        &&& forall|a: Seq<crate::types::TernaryVal>| #[trigger]
                            objs@[i].external_cost(a) == objectives@[i].offset
                                + crate::objective::weighted_cost(
                                soft_lits(blits@, objectives@[i].softs@),
                                a,
                            )
                    },
                clause_views(obj_cnf@) == relaxed_from(blits@, 0),
                store ==> index.stored() == keys_from(blits@, 0),
                !store ==> index.stored().len() == 0,
                store ==> blits_linked(index, blits@),
                objs_linked(index, objs@),
                !opts.reserve_enc_vars ==> var_manager.next_var <= bound + n_softs(
                    objectives@.take(it.index()),
                ),
                roomy(inst) ==> bound + n_softs(inst.objectives@) <= MAX_VAR_IDX,
                var_manager.next_var <= bound + softs_room(
                    objectives@.take(it.index()),
                    opts.reserve_enc_vars,
                ),
                roomy_for(inst, opts.reserve_enc_vars) ==> bound + softs_room(
                    inst.objectives@,
                    opts.reserve_enc_vars,
                ) <= MAX_VAR_IDX,
                is_bare(inst) ==> roomy(inst) && all_well_weighted(inst) && bound == 0
                    && var_manager.next_var == 0,
                blits@.len() <= n_softs(objectives@.take(it.index())),
                forall|i: int|
                    0 <= i < objs@.len() ==> well_weighted(
                        (#[trigger] objectives@[i]).softs@,
                        objectives@[i].offset,
                    ),
        {
            let ghost k = it.index();
            let ghost blits1 = blits@;
            let ghost objs1 = objs@;
            let ghost encs1 = obj_encs@;
            let ghost cnf1 = clause_views(obj_cnf@);
            proof {
                lemma_n_softs_prefix(objectives@, k);
                lemma_n_softs_prefix(objectives@, k + 1);
                lemma_softs_room_prefix(objectives@, opts.reserve_enc_vars, k);
                lemma_softs_room_prefix(objectives@, opts.reserve_enc_vars, k + 1);
                assert(objectives@[k] == obj);
                if all_well_weighted(inst) {
                    assert(well_weighted(inst.objectives@[k].softs@, inst.objectives@[k].offset));
                }
                if is_bare(inst) {
                    lemma_n_softs_zero(inst.objectives@);
                    assert(inst.objectives@[k].softs@.len() == 0);
                }
                assert(softs_below(objectives@[k].softs@, bound as int));
                assert forall|i: int| 0 <= i < obj.softs@.len() implies clause_below(
                    (#[trigger] obj.softs@[i]).0@,
                    var_manager.next_var as int,
                ) by {
                    assert(clause_below(obj.softs@[i].0@, bound as int));
                }
            }
            let mut cnf = match add_objective(
                obj,
                &mut objs,
                &mut obj_encs,
                &mut blits,
                &mut index,
                &mut var_manager,
                &opts,
            ) {
                Ok(cnf) => cnf,
                Err(e) => {
                    return Err(e);
                },
            };
            let ghost added = clause_views(cnf@);
            obj_cnf.append(&mut cnf);
            proof {
                assert(objs@.drop_last() == objs1);
                assert(obj_encs@.drop_last() == encs1);
                assert forall|i: int| 0 <= i < objs@.len() implies (#[trigger] objs@[i]).wf() by {
                    if i < k {
                        assert(objs@.drop_last()[i] == objs@[i]);
                    }
                }
                assert forall|i: int| 0 <= i < objs@.len() implies encodes(
                    #[trigger] obj_encs@[i],
                    objs@[i],
                ) && crate::pminimal::budgeted(obj_encs@[i], objs@[i], opts.reserve_enc_vars)
                    && obj_encs@[i].spec_clauses().len() == 0 by {
                    if i < k {
                        assert(objs@.drop_last()[i] == objs@[i]);
                        assert(obj_encs@.drop_last()[i] == obj_encs@[i]);
                    }
                }
                assert forall|i: int| 0 <= i < objs@.len() implies {
                    &&& softs_relaxed(blits@, (#[trigger] objectives@[i]).softs@)
                    &&& objs@[i].spec_offset() == objectives@[i].offset
                    &&& crate::objective::classified(
                        objs@[i],
                        soft_lits(blits@, objectives@[i].softs@),
                    )
                    &&& forall|a: Seq<crate::types::TernaryVal>| #[trigger]
                        objs@[i].external_cost(a) == objectives@[i].offset
                            + crate::objective::weighted_cost(
                            soft_lits(blits@, objectives@[i].softs@),
                            a,
                        )
                } by {
                    if i < k {
                        assert(objs@.drop_last()[i] == objs@[i]);
                        lemma_soft_lits_extend(blits1, blits@, objectives@[i].softs@);
                    }
                }
                assert(clause_views(obj_cnf@) =~= cnf1 + added);
                assert(relaxed_from(blits@, 0) =~= relaxed_from(blits1, 0) + relaxed_from(
                    blits@,
                    blits1.len() as int,
                )) by {
                    assert(blits1 =~= blits@.subrange(0, blits1.len() as int));
                }
                if store {
                    assert(keys_from(blits@, 0) =~= keys_from(blits1, 0) + keys_from(
                        blits@,
                        blits1.len() as int,
                    )) by {
                        assert(blits1 =~= blits@.subrange(0, blits1.len() as int));
                    }
                }
            }
        }
        let ghost keys = index@.dom();
        let ghost listed = index;
        if store {
            // Soft clauses may hold objective literals of other clauses
            let n_soft = index.n_clauses();
            let mut idx: usize = 0;
            while idx < n_soft
                invariant
                    idx <= n_soft,
                    n_soft == index.stored().len(),
                    index.wf(),
                    index_links_in_range(index),
                    index@.dom() == keys,
                    blits_linked(index, blits@),
                    forall|k: int| 0 <= k < idx ==> #[trigger] clause_linked(index, k),
                    forall|l: Lit| #[trigger] index@.contains_key(l) ==>
                        index@[l].objs == listed@[l].objs,
                decreases n_soft - idx,
            {
                let ghost before = index;
                link_clause(&mut index, idx);
                proof {
                    lemma_grows_keeps_blits(index, before, blits@);
                    assert forall|k: int| 0 <= k < idx + 1 implies
                        #[trigger] clause_linked(index, k) by {
                        if k < idx {
                            lemma_grows_keeps_linked(index, before, k);
                        }
                    }
                }
                idx += 1;
            }
            // Keep the hard clauses that hold objective literals
            let mut c: usize = 0;
            while c < clauses.len()
                invariant
                    c <= clauses@.len(),
                    index.wf(),
                    index_links_in_range(index),
                    index@.dom() == keys,
                    blits_linked(index, blits@),
                    links_complete(index),
                    hard_kept(index, clause_views(clauses@.subrange(0, c as int))),
                    forall|l: Lit| #[trigger] index@.contains_key(l) ==>
                        index@[l].objs == listed@[l].objs,
                decreases clauses.len() - c,
            {
                let ghost start = index;
                if mentions_objective(&index, &clauses[c]) {
                    let ghost before = index;
                    let at = index.store(clauses[c].duplicate());
                    let ghost mid = index;
                    proof {
                        assert forall|l: Lit| #[trigger] index@.contains_key(l) implies
                            links_in_range(
                            index@[l].clauses,
                            index.stored(),
                        ) by {
                            assert(before@.contains_key(l));
                            assert(links_in_range(before@[l].clauses, before.stored()));
                        }
                    }
                    link_clause(&mut index, at);
                    proof {
                        lemma_grows_trans(index, mid, before);
                        lemma_grows_keeps_blits(index, before, blits@);
                        assert forall|k: int| 0 <= k < index.stored().len() implies
                            #[trigger] clause_linked(
                            index,
                            k,
                        ) by {
                            if k < before.stored().len() {
                                assert(clause_linked(before, k));
                                lemma_grows_keeps_linked(index, before, k);
                            }
                        }
                        assert(index.stored()[at as int] == clauses@[c as int]@);
                        assert(is_stored(index, clauses@[c as int]@));
                    }
                }
                proof {
                    let done = clause_views(clauses@.subrange(0, c as int));
                    let next = clause_views(clauses@.subrange(0, c + 1));
                    assert forall|i: int| 0 <= i < next.len() &&
                        mentions(index, #[trigger] next[i]) implies is_stored(
                        index,
                        next[i],
                    ) by {
                        if i < c {
                            assert(next[i] == done[i]);
                            let j = choose|j: int|
                                0 <= j < next[i].len() &&
                                    index@.contains_key(#[trigger] next[i][j]);
                            assert(start@.dom().contains(next[i][j]));
                            assert(mentions(start, done[i]));
                            assert(is_stored(start, done[i]));
                            let k = choose|k: int|
                                0 <= k < start.stored().len() &&
                                    #[trigger] start.stored()[k] == done[i];
                            if start != index {
                                assert(start.stored()[k] == index.stored().subrange(
                                    0,
                                    start.stored().len() as int,
                                )[k]);
                            }
                            assert(index.stored()[k] == next[i]);
                        } else {
                            assert(next[i] == clauses@[c as int]@);
                            let j = choose|j: int|
                                0 <= j < next[i].len() &&
                                    index@.contains_key(#[trigger] next[i][j]);
                            assert(start@.dom().contains(next[i][j]));
                            assert(start@.contains_key(clauses@[c as int]@[j]));
                        }
                    }
                }
                c += 1;
            }
            proof {
                assert(clauses@.subrange(0, clauses@.len() as int) =~= clauses@);
            }
        }
        proof {
            assert(objectives@.take(objectives@.len() as int) =~= objectives@);
            if is_bare(inst) {
                assert(clause_views(obj_cnf@).len() == 0);
            }
            assert(all_well_weighted(inst));
        }
        proof {
            assert(objs_linked(index, objs@)) by {
                assert forall|l: Lit| index.links(l).objs == listed.links(l).objs by {
                    assert(index@.contains_key(l) == keys.contains(l));
                    assert(listed@.contains_key(l) == keys.contains(l));
                }
                assert forall|l: Lit|
                    #![trigger index@.contains_key(l)]
                    index@.contains_key(l) <==> crate::tightening::is_objective_lit(objs@, l) by {
                    assert(index@.contains_key(l) == keys.contains(l));
                    assert(listed@.contains_key(l) == keys.contains(l));
                }
                assert forall|l: Lit, x: usize|
                    #![trigger index.links(l).objs.contains(x)]
                    index.links(l).objs.contains(x) <==> x < objs@.len() &&
                        crate::objective::has_lit(
                        objs@[x as int].spec_iter(),
                        l,
                    ) by {
                    assert(index.links(l).objs == listed.links(l).objs);
                    assert(listed.links(l).objs.contains(x) <==> x < objs@.len()
                        && crate::objective::has_lit(objs@[x as int].spec_iter(), l));
                }
            }
        }
        // Hand the clauses to the oracle
        let max_orig_var = var_manager.max_var();
        let mut oracle = oracle;
        let ghost given_len = oracle.clauses().len() as int;
        if let Some(max_var) = max_orig_var {
            match oracle.reserve(max_var) {
                Ok(()) => {},
                Err(e) => {
                    return Err(InitError::Oracle(e));
                },
            }
        }
        match oracle.add_cnf(&clauses) {
            Ok(()) => {},
            Err(e) => {
                return Err(InitError::Oracle(e));
            },
        }
        match oracle.add_cnf(&obj_cnf) {
            Ok(()) => {},
            Err(e) => {
                return Err(InitError::Oracle(e));
            },
        }
        let solver = PMinimal {
            oracle,
            var_manager,
            objs,
            obj_encs,
            index,
            blits,
            max_orig_var,
            block_clause_gen,
            pareto_front: ParetoFront::new(),
            opts,
            stats: Stats {
                n_solve_calls: 0,
                n_solutions: 0,
                n_pareto_points: 0,
                n_candidates: 0,
                n_oracle_calls: 0,
                n_objs,
                n_orig_clauses,
            },
            lims: Limits::none(),
            loggers: Loggers::new(),
            term_cb: None,
            hard: Ghost(clause_views(clauses@)),
        };
        proof {
            assert forall|i: int, j: int|
                0 <= i < solver.objs@.len() && 0 <= j < solver.objs@[i].spec_iter().len() implies {
                &&& solver.index@.contains_key((#[trigger] solver.objs@[i].spec_iter()[j]).0)
                &&& solver.max_orig_var matches Some(v) &&
                    solver.objs@[i].spec_iter()[j].0.spec_vidx()
                    <= v.idx
            } by {
                let l = solver.objs@[i].spec_iter()[j].0;
                assert(keys.contains(l));
                assert(l.spec_vidx() < solver.var_manager.next_var);
            }
            assert(solver.max_orig_var.is_none() ==> forall|i: int|
                0 <= i < solver.objs@.len() ==>
                    (#[trigger] solver.objs@[i]).spec_iter().len() == 0) by {
                if solver.max_orig_var.is_none() {
                    assert forall|i: int| 0 <= i < solver.objs@.len() implies (
                    #[trigger] solver.objs@[i]).spec_iter().len() == 0 by {
                        if solver.objs@[i].spec_iter().len() > 0 {
                            let l = solver.objs@[i].spec_iter()[0].0;
                            assert(l.spec_vidx() < 0);
                        }
                    }
                }
            }
            assert forall|i: int| 0 <= i < solver.hard@.len() implies clause_below(
                #[trigger] solver.hard@[i],
                solver.orig_len(),
            ) && solver.oracle.clauses().contains(solver.hard@[i]) by {
                assert(clause_below(clauses@[i]@, bound as int));
                let at = given_len + i;
                assert(solver.oracle.clauses()[at] == solver.hard@[i]);
            }
        }
        Ok(solver)
    }

    /// Builds a solver for the instance on top of a fresh oracle.
    pub fn init_with_options(inst: Instance, opts: Options, block_clause_gen: BCG) -> (r: Result<
        Self,
        InitError,
    >)
        ensures
            r matches Ok(s) ==> s.built_from(inst, opts, Seq::empty()),
            r matches Err(e) ==> refusal_explained(inst, opts, e),
            is_bare(inst) ==> r is Ok,
            all_well_weighted(inst) && roomy_for(inst, opts.reserve_enc_vars) ==> r is Ok,
    {
        Self::init_with_oracle_and_options(inst, Oracle::new(), opts, block_clause_gen)
    }
}

impl<L: WriteSolverLog, T: Terminator> PMinimal<DefaultBlocking, L, T> {
    /// Builds a solver with the default options, a fresh oracle and the
    /// default blocking clauses.
    pub fn default_init(inst: Instance) -> (r: Result<Self, InitError>)
        ensures
            r matches Ok(s) ==> s.built_from(inst, Options::spec_default(), Seq::empty()),
            r matches Err(e) ==> refusal_explained(inst, Options::spec_default(), e),
            is_bare(inst) ==> r is Ok,
            all_well_weighted(inst) && roomy_for(inst, Options::spec_default().reserve_enc_vars) ==> r is Ok,
    {
        Self::init_with_options(inst, Options::default(), DefaultBlocking)
    }

    /// Builds a solver with a fresh oracle and the default blocking
    /// clauses.
    pub fn default_init_with_options(inst: Instance, opts: Options) -> (r: Result<Self, InitError>)
        ensures
            r matches Ok(s) ==> s.built_from(inst, opts, Seq::empty()),
            r matches Err(e) ==> refusal_explained(inst, opts, e),
            is_bare(inst) ==> r is Ok,
            all_well_weighted(inst) && roomy_for(inst, opts.reserve_enc_vars) ==> r is Ok,
    {
        Self::init_with_options(inst, opts, DefaultBlocking)
    }

    /// Builds a solver on top of the given oracle with the default blocking
    /// clauses.
    pub fn default_init_with_oracle_and_options(
        inst: Instance,
        oracle: Oracle,
        opts: Options,
    ) -> (r: Result<Self, InitError>)
        ensures
            r matches Ok(s) ==> s.built_from(inst, opts, oracle.clauses()),
            r matches Err(e) ==> refusal_explained(inst, opts, e),
            is_bare(inst) ==> r is Ok,
            all_well_weighted(inst) && roomy_for(inst, opts.reserve_enc_vars) ==> r is Ok,
    {
        Self::init_with_oracle_and_options(inst, oracle, opts, DefaultBlocking)
    }
}

} // verus!
