//! The upper-bound encoders of the objectives, and the adapter that shifts
//! bounds by an offset before it hands them to an encoder.

use rustsat::encodings::card::{
    BoundUpper as _, BoundUpperIncremental as _, EncodeIncremental as _,
};
use rustsat::encodings::pb::{
    BoundUpper as _, BoundUpperIncremental as _, Encode as _, EncodeIncremental as _,
};
use rustsat::encodings::EncodeStats as _;
use rustsat::instances::ManageVars as _;
use std::ops::Range;
use vstd::multiset::Multiset;
use vstd::prelude::*;

use crate::objective::{count_true, distinct_lits, has_zero_weight, total_weight, weighted_cost};
use crate::options::EncodingError;
use crate::oracle::{clause_views, models};
use crate::types::{Clause, Lit, TernaryVal, Var, MAX_VAR_IDX};

verus! {

/// The cardinality encoder: the totalizer of `rustsat`.
#[verifier::external_type_specification]
#[verifier::external_body]
pub struct ExTotalizer(rustsat::encodings::card::Totalizer);

/// The pseudo-Boolean encoder: the generalized totalizer of `rustsat`.
#[verifier::external_type_specification]
#[verifier::external_body]
pub struct ExGeneralizedTotalizer(rustsat::encodings::pb::GeneralizedTotalizer);

/// Hands out fresh variables, one after the other.
#[derive(Clone, Copy, PartialEq, Eq, Structural, Debug)]
pub struct VarManager {
    /// The index of the next variable that is handed out.
    pub next_var: u32,
}

impl VarManager {
    pub open spec fn wf(self) -> bool {
        self.next_var <= MAX_VAR_IDX
    }

    /// A manager for which the variables below `next_var` are in use.
    pub fn from_next_free(next_var: u32) -> (vm: VarManager)
        requires
            next_var <= MAX_VAR_IDX,
        ensures
            vm.next_var == next_var,
            vm.wf(),
    {
        VarManager { next_var }
    }

    /// A fresh variable, or `None` where all variables are in use.
    pub fn new_var(&mut self) -> (v: Option<Var>)
        requires
            old(self).wf(),
        ensures
            final(self).wf(),
            old(self).next_var < MAX_VAR_IDX ==> v == Some(Var { idx: old(self).next_var })
                && final(self).next_var == old(self).next_var + 1,
            old(self).next_var == MAX_VAR_IDX ==> v.is_none() && *final(self) == *old(self),
    {
        if self.next_var < MAX_VAR_IDX {
            let v = Var { idx: self.next_var };
            self.next_var = self.next_var + 1;
            Some(v)
        } else {
            None
        }
    }

    /// The highest variable in use, if there is one.
    pub fn max_var(&self) -> (v: Option<Var>)
        requires
            self.wf(),
        ensures
            self.next_var == 0 ==> v.is_none(),
            self.next_var > 0 ==> v == Some(Var { idx: (self.next_var - 1) as u32 }),
            v matches Some(var) ==> var.idx < MAX_VAR_IDX,
    {
        if self.next_var == 0 {
            None
        } else {
            Some(Var { idx: self.next_var - 1 })
        }
    }

    /// The number of variables in use.
    pub fn n_used(&self) -> (n: u32)
        ensures
            n == self.next_var,
    {
        self.next_var
    }
}

/// The input literals of the totalizer: the literals that it counts, each
/// as often as it was given.
pub uninterp spec fn card_inputs(enc: rustsat::encodings::card::Totalizer) -> Multiset<Lit>;

/// The bounds that the totalizer can enforce as it stands: those for which
/// `enforce_ub` has an answer.
pub uninterp spec fn card_encoded(enc: rustsat::encodings::card::Totalizer) -> Set<int>;

/// The assumptions with which the totalizer enforces the bound `ub`,
/// where it can.
pub uninterp spec fn card_assumps(enc: rustsat::encodings::card::Totalizer, ub: int) -> Seq<Lit>;

/// The ranges of bounds that the totalizer has encoded as it stands: those
/// for which `encode_ub_change` finds nothing to do and leaves the encoder
/// as it is.
pub uninterp spec fn card_settled(enc: rustsat::encodings::card::Totalizer) -> Set<(int, int)>;

/// What is left of the bound on the variables of the totalizer: what it
/// can take over its life, less those that it holds.
pub uninterp spec fn card_left(enc: rustsat::encodings::card::Totalizer) -> nat;

/// Whether the totalizer holds a variable for every output that it can ever
/// have, as it does once it has reserved them.
pub uninterp spec fn card_holds_all(enc: rustsat::encodings::card::Totalizer) -> bool;

/// The clauses that the totalizer has emitted, oldest first.
pub uninterp spec fn card_clauses(enc: rustsat::encodings::card::Totalizer) -> Seq<Seq<Lit>>;

/// The totalizer's count of the clauses that it has emitted.
pub uninterp spec fn card_emitted(enc: rustsat::encodings::card::Totalizer) -> nat;

/// The totalizer's count of the variables that it has taken while encoding.
pub uninterp spec fn card_taken(enc: rustsat::encodings::card::Totalizer) -> nat;

/// The input literals of the generalized totalizer, each with its weight.
pub uninterp spec fn pb_inputs(enc: rustsat::encodings::pb::GeneralizedTotalizer) -> Multiset<
    (Lit, usize),
>;

/// The sum of the weights of the input literals of the generalized
/// totalizer.
pub uninterp spec fn pb_weight_sum(enc: rustsat::encodings::pb::GeneralizedTotalizer) -> nat;

/// The bounds that the generalized totalizer can enforce as it stands:
/// those for which `enforce_ub` has an answer.
pub uninterp spec fn pb_encoded(enc: rustsat::encodings::pb::GeneralizedTotalizer) -> Set<int>;

/// The assumptions with which the generalized totalizer enforces the bound
/// `ub`, where it can.
pub uninterp spec fn pb_assumps(
    enc: rustsat::encodings::pb::GeneralizedTotalizer,
    ub: int,
) -> Seq<Lit>;

/// The ranges of bounds that the generalized totalizer has encoded as it
/// stands: those for which `encode_ub_change` finds nothing to do and
/// leaves the encoder as it is.
pub uninterp spec fn pb_settled(enc: rustsat::encodings::pb::GeneralizedTotalizer) -> Set<
    (int, int),
>;

/// What is left of the bound on the variables of the generalized
/// totalizer: what it can take over its life, less those that it holds.
pub uninterp spec fn pb_left(enc: rustsat::encodings::pb::GeneralizedTotalizer) -> nat;

/// Whether the generalized totalizer holds a variable for every output that
/// it can ever have, as it does once it has reserved them.
pub uninterp spec fn pb_holds_all(enc: rustsat::encodings::pb::GeneralizedTotalizer) -> bool;

/// The values of the sum that the generalized totalizer represents as it
/// stands: those for which its tree has an output.
pub uninterp spec fn pb_values(enc: rustsat::encodings::pb::GeneralizedTotalizer) -> Set<int>;

/// The clauses that the generalized totalizer has emitted, oldest first.
pub uninterp spec fn pb_clauses(enc: rustsat::encodings::pb::GeneralizedTotalizer) -> Seq<
    Seq<Lit>,
>;

/// The generalized totalizer's count of the clauses that it has emitted.
pub uninterp spec fn pb_emitted(enc: rustsat::encodings::pb::GeneralizedTotalizer) -> nat;

/// The generalized totalizer's count of the variables that it has taken
/// while encoding.
pub uninterp spec fn pb_taken(enc: rustsat::encodings::pb::GeneralizedTotalizer) -> nat;

/// Every input literal of the generalized totalizer has a weight above
/// zero.
pub open spec fn pb_positive(enc: rustsat::encodings::pb::GeneralizedTotalizer) -> bool {
    forall|p: (Lit, usize)| pb_inputs(enc).count(p) > 0 ==> p.1 > 0
}

/// A bound on the variables that the totalizer takes over its life. It
/// takes one for each output of each inner node of a balanced tree over its
/// input literals: a node has as many outputs as it has literals below it,
/// and the tree is no deeper than a `usize` has bits.
pub open spec fn card_need(enc: rustsat::encodings::card::Totalizer) -> nat {
    64 * card_inputs(enc).len()
}

/// A bound on the variables that the generalized totalizer takes over its
/// life. It takes one for each output of each inner node of a tree over its
/// input literals: there are fewer inner nodes than literals, and a node
/// has at most one output for each value up to the sum of the weights.
pub open spec fn pb_need(enc: rustsat::encodings::pb::GeneralizedTotalizer) -> nat {
    pb_inputs(enc).len() * pb_weight_sum(enc)
}

/// After `next_var` there is room for `need` more variables.
pub open spec fn room_for(next_var: u32, need: nat) -> bool {
    next_var + need <= MAX_VAR_IDX
}

/// `Totalizer::from_iter`: a cardinality encoder whose input literals are
/// the literals given. Its counts start at zero.
#[verifier::external_body]
fn card_from_lits(lits: &Vec<Lit>) -> (enc: rustsat::encodings::card::Totalizer)
    ensures
        card_inputs(enc) == lits@.to_multiset(),
        card_emitted(enc) == 0,
        card_taken(enc) == 0,
        card_left(enc) == card_need(enc),
        card_clauses(enc) == Seq::<Seq<Lit>>::empty(),
{
    lits.iter().map(|l| rustsat::types::Var::new(l.vidx()).lit(l.is_neg())).collect()
}

/// `GeneralizedTotalizer::from_iter`: a pseudo-Boolean encoder over the
/// weighted literals. Where no literal comes twice, they are its input
/// literals. (Of a literal that comes twice it keeps the last weight.) Its
/// counts start at zero.
#[verifier::external_body]
fn pb_from_lits(lits: &Vec<(Lit, usize)>) -> (enc: rustsat::encodings::pb::GeneralizedTotalizer)
    requires
        !has_zero_weight(lits@),
    ensures
        distinct_lits(lits@) ==> pb_inputs(enc) == lits@.to_multiset() && pb_weight_sum(enc)
            == total_weight(lits@),
        pb_emitted(enc) == 0,
        pb_taken(enc) == 0,
        pb_left(enc) == pb_need(enc),
        pb_clauses(enc) == Seq::<Seq<Lit>>::empty(),
{
    lits.iter().map(|l| (rustsat::types::Var::new(l.0.vidx()).lit(l.0.is_neg()), l.1)).collect()
}

/// `EncodeIncremental::reserve` of the totalizer, with a variable manager
/// whose next free variable is `next_var`. Returns the manager's next free
/// variable after the call: variables are only ever taken. The input
/// literals stay, and so do the encoder's counts, which leave out what is
/// reserved. There must be room for the variables that the encoder can
/// take: the manager cannot count beyond the highest variable. The encoder
/// takes no more than that, and afterwards it holds every variable that it
/// can ever use.
#[verifier::external_body]
fn card_reserve(enc: &mut rustsat::encodings::card::Totalizer, next_var: u32) -> (next: u32)
    requires
        room_for(next_var, card_left(*old(enc))),
    ensures
        next >= next_var,
        next - next_var <= card_left(*old(enc)),
        card_left(*final(enc)) == card_left(*old(enc)) - (next - next_var),
        card_holds_all(*final(enc)),
        card_clauses(*final(enc)) == card_clauses(*old(enc)),
        card_inputs(*final(enc)) == card_inputs(*old(enc)),
        card_emitted(*final(enc)) == card_emitted(*old(enc)),
        card_taken(*final(enc)) == card_taken(*old(enc)),
{
    let mut vm = rustsat::instances::BasicVarManager::from_next_free(
        rustsat::types::Var::new(next_var),
    );
    enc.reserve(&mut vm);
    vm.n_used()
}

/// `EncodeIncremental::reserve` of the generalized totalizer; see
/// `card_reserve`. The encoder does not take a weight of zero.
#[verifier::external_body]
fn pb_reserve(enc: &mut rustsat::encodings::pb::GeneralizedTotalizer, next_var: u32) -> (next: u32)
    requires
        pb_positive(*old(enc)),
        room_for(next_var, pb_left(*old(enc))),
    ensures
        next >= next_var,
        next - next_var <= pb_left(*old(enc)),
        pb_left(*final(enc)) == pb_left(*old(enc)) - (next - next_var),
        pb_holds_all(*final(enc)),
        pb_clauses(*final(enc)) == pb_clauses(*old(enc)),
        pb_inputs(*final(enc)) == pb_inputs(*old(enc)),
        pb_weight_sum(*final(enc)) == pb_weight_sum(*old(enc)),
        pb_emitted(*final(enc)) == pb_emitted(*old(enc)),
        pb_taken(*final(enc)) == pb_taken(*old(enc)),
{
    let mut vm = rustsat::instances::BasicVarManager::from_next_free(
        rustsat::types::Var::new(next_var),
    );
    enc.reserve(&mut vm);
    vm.n_used()
}

/// `BoundUpperIncremental::encode_ub_change` of the totalizer for the bounds
/// `start .. end`, with a variable manager whose next free variable is
/// `next_var`. Returns the clauses that the encoder emitted and the
/// manager's next free variable after the call, or nothing where the
/// encoder ran out of memory.
///
/// The input literals stay. After a call that succeeded the encoder can
/// enforce every bound of the range, and has added to its counts the
/// clauses that it emitted and the variables that it took; a call that
/// failed leaves the counts as they were. Where the range
/// is empty, or starts at or above the number of input literals, the
/// encoder returns at once: it emits no clause and takes no variable.
/// Otherwise there must be room for the variables that it can take, unless
/// it holds them all: then it takes none. A
/// range that was encoded is not encoded again, nor is a part of it: the
/// encoder finds every output defined, emits and takes nothing, and is
/// left as it is.
#[verifier::external_body]
fn card_encode_ub_change(
    enc: &mut rustsat::encodings::card::Totalizer,
    start: usize,
    end: usize,
    next_var: u32,
) -> (r: Option<(Vec<Clause>, u32)>)
    requires
        next_var <= MAX_VAR_IDX,
        start < end && start < card_inputs(*old(enc)).len() ==> card_holds_all(*old(enc))
            || room_for(next_var, card_left(*old(enc))),
    ensures
        r matches Some(out) ==> out.1 >= next_var,
        card_holds_all(*old(enc)) ==> card_holds_all(*final(enc)),
        r matches Some(out) ==> card_clauses(*final(enc)) == card_clauses(*old(enc)) + clause_views(
            out.0@,
        ),
        r is None ==> card_clauses(*old(enc)).is_prefix_of(card_clauses(*final(enc))),
        r matches Some(out) ==> card_holds_all(*old(enc)) ==> out.1 == next_var,
        r matches Some(out) ==> out.1 - next_var <= card_left(*old(enc)) && card_left(*final(enc))
            == card_left(*old(enc)) - (out.1 - next_var),
        r is None ==> card_left(*final(enc)) <= card_left(*old(enc)) && card_taken(*final(enc))
            == card_taken(*old(enc)) && card_emitted(*final(enc)) == card_emitted(*old(enc)),
        card_inputs(*final(enc)) == card_inputs(*old(enc)),
        r matches Some(out) ==> forall|ub: int|
            start <= ub < end ==> #[trigger] card_encoded(*final(enc)).contains(ub),
        r matches Some(out) ==> card_emitted(*final(enc)) == card_emitted(*old(enc))
            + out.0@.len() && card_taken(*final(enc)) == card_taken(*old(enc)) + (out.1
            - next_var),
        start >= end || start >= card_inputs(*old(enc)).len() ==> (r matches Some(out)
            && out.0@.len() == 0 && out.1 == next_var),
        r matches Some(out) ==> forall|a: int, b: int|
            start <= a && b <= end ==> #[trigger] card_settled(*final(enc)).contains((a, b)),
        card_settled(*old(enc)).contains((start as int, end as int)) ==> (r matches Some(out)
            && out.0@.len() == 0 && out.1 == next_var),
        card_settled(*old(enc)).contains((start as int, end as int)) || start >= end || start
            >= card_inputs(*old(enc)).len() ==> *final(enc) == *old(enc),
{
    let mut vm = rustsat::instances::BasicVarManager::from_next_free(
        rustsat::types::Var::new(next_var),
    );
    let mut cnf = rustsat::instances::Cnf::new();
    enc.encode_ub_change(start..end, &mut cnf, &mut vm).ok()?;
    let cls = cnf.into_iter().map(
        |c| Clause { lits: c.into_iter().map(|l| Lit::new(l.vidx32(), l.is_neg())).collect() },
    ).collect();
    Some((cls, vm.n_used()))
}

/// `BoundUpperIncremental::encode_ub_change` of the generalized totalizer;
/// see `card_encode_ub_change`. Here the range counts as empty where it
/// starts at or above the sum of the weights. The encoder does not take a
/// weight of zero, and it adds a weight to a bound: twice the sum of the
/// weights must fit in `usize`.
#[verifier::external_body]
fn pb_encode_ub_change(
    enc: &mut rustsat::encodings::pb::GeneralizedTotalizer,
    start: usize,
    end: usize,
    next_var: u32,
) -> (r: Option<(Vec<Clause>, u32)>)
    requires
        next_var <= MAX_VAR_IDX,
        pb_positive(*old(enc)),
        2 * pb_weight_sum(*old(enc)) <= usize::MAX,
        start < end && start < pb_weight_sum(*old(enc)) ==> pb_holds_all(*old(enc)) || room_for(
            next_var,
            pb_left(*old(enc)),
        ),
    ensures
        r matches Some(out) ==> out.1 >= next_var,
        pb_holds_all(*old(enc)) ==> pb_holds_all(*final(enc)),
        r matches Some(out) ==> pb_clauses(*final(enc)) == pb_clauses(*old(enc)) + clause_views(
            out.0@,
        ),
        r is None ==> pb_clauses(*old(enc)).is_prefix_of(pb_clauses(*final(enc))),
        r matches Some(out) ==> pb_holds_all(*old(enc)) ==> out.1 == next_var,
        r matches Some(out) ==> out.1 - next_var <= pb_left(*old(enc)) && pb_left(*final(enc))
            == pb_left(*old(enc)) - (out.1 - next_var),
        r is None ==> pb_left(*final(enc)) <= pb_left(*old(enc)) && pb_taken(*final(enc))
            == pb_taken(*old(enc)) && pb_emitted(*final(enc)) == pb_emitted(*old(enc)),
        pb_inputs(*final(enc)) == pb_inputs(*old(enc)),
        pb_weight_sum(*final(enc)) == pb_weight_sum(*old(enc)),
        r matches Some(out) ==> forall|ub: int|
            start <= ub < end ==> #[trigger] pb_encoded(*final(enc)).contains(ub),
        r matches Some(out) ==> pb_emitted(*final(enc)) == pb_emitted(*old(enc)) + out.0@.len()
            && pb_taken(*final(enc)) == pb_taken(*old(enc)) + (out.1 - next_var),
        start >= end || start >= pb_weight_sum(*old(enc)) ==> (r matches Some(out)
            && out.0@.len() == 0 && out.1 == next_var),
        r matches Some(out) ==> forall|a: int, b: int|
            start <= a && b <= end ==> #[trigger] pb_settled(*final(enc)).contains((a, b)),
        pb_settled(*old(enc)).contains((start as int, end as int)) ==> (r matches Some(out)
            && out.0@.len() == 0 && out.1 == next_var),
        pb_settled(*old(enc)).contains((start as int, end as int)) || start >= end || start
            >= pb_weight_sum(*old(enc)) ==> *final(enc) == *old(enc),
{
    let mut vm = rustsat::instances::BasicVarManager::from_next_free(
        rustsat::types::Var::new(next_var),
    );
    let mut cnf = rustsat::instances::Cnf::new();
    enc.encode_ub_change(start..end, &mut cnf, &mut vm).ok()?;
    let cls = cnf.into_iter().map(
        |c| Clause { lits: c.into_iter().map(|l| Lit::new(l.vidx32(), l.is_neg())).collect() },
    ).collect();
    Some((cls, vm.n_used()))
}

/// `BoundUpper::enforce_ub` of the totalizer: the assumptions that enforce
/// the bound, or nothing where the bound is not encoded. A bound at or
/// above the number of input literals needs no assumption; any other is
/// enforced by one. Values that make the assumptions true and every clause
/// that the encoder has emitted make no more input literals true than the
/// bound says.
#[verifier::external_body]
fn card_enforce_ub(enc: &rustsat::encodings::card::Totalizer, ub: usize) -> (r: Option<Vec<Lit>>)
    ensures
        card_encoded(*enc).contains(ub as int) == r.is_some(),
        r matches Some(lits) ==> forall|m: Seq<TernaryVal>, s: Seq<Lit>|
            s.to_multiset() == card_inputs(*enc) && #[trigger] models(
                m,
                card_clauses(*enc),
                lits@,
            ) ==> #[trigger] count_true(s, m) <= ub,
        r matches Some(lits) ==> lits@ == card_assumps(*enc, ub as int),
        ub >= card_inputs(*enc).len() ==> r is Some,
        r matches Some(lits) ==> (ub >= card_inputs(*enc).len() && lits@.len() == 0 || ub
            < card_inputs(*enc).len() && lits@.len() == 1),
{
    let lits = enc.enforce_ub(ub).ok()?;
    Some(lits.into_iter().map(|l| Lit::new(l.vidx32(), l.is_neg())).collect())
}

/// `BoundUpper::enforce_ub` of the generalized totalizer: the assumptions
/// that enforce the bound, or the encoder's error, which is that the bound
/// is not encoded. A bound at or above the sum of the weights needs no
/// assumption. Under values that make the assumptions true and every
/// clause that the encoder has emitted, the input literals that are true
/// weigh no more than the bound says. The encoder adds a weight to the bound: twice the sum of the
/// weights must fit in `usize`.
#[verifier::external_body]
fn pb_enforce_ub(enc: &rustsat::encodings::pb::GeneralizedTotalizer, ub: usize) -> (r: Result<
    Vec<Lit>,
    EncodingError,
>)
    requires
        2 * pb_weight_sum(*enc) <= usize::MAX,
    ensures
        pb_encoded(*enc).contains(ub as int) == r.is_ok(),
        r matches Ok(lits) ==> forall|m: Seq<TernaryVal>, s: Seq<(Lit, usize)>|
            s.to_multiset() == pb_inputs(*enc) && #[trigger] models(m, pb_clauses(*enc), lits@)
                ==> #[trigger] weighted_cost(s, m) <= ub,
        r matches Ok(lits) ==> lits@ == pb_assumps(*enc, ub as int),
        ub >= pb_weight_sum(*enc) ==> r is Ok,
        r matches Ok(lits) ==> (ub >= pb_weight_sum(*enc) ==> lits@.len() == 0),
        r matches Err(e) ==> e == EncodingError::NotEncoded,
{
    match enc.enforce_ub(ub) {
        Ok(lits) => Ok(lits.into_iter().map(|l| Lit::new(l.vidx32(), l.is_neg())).collect()),
        Err(rustsat::encodings::EnforceError::NotEncoded) => Err(EncodingError::NotEncoded),
        Err(rustsat::encodings::EnforceError::Unsat) => Err(EncodingError::Unsat),
    }
}

/// `Encode::next_higher` of the generalized totalizer: the smallest value
/// above `val` that the encoder represents, and `val + 1` where it
/// represents none. The encoder may add a weight to the value.
#[verifier::external_body]
fn pb_next_higher(enc: &rustsat::encodings::pb::GeneralizedTotalizer, val: usize) -> (next: usize)
    requires
        val + pb_weight_sum(*enc) < usize::MAX,
    ensures
        next == next_above(pb_values(*enc), val as int),
{
    enc.next_higher(val)
}

/// `Encode::weight_sum` of the generalized totalizer: the sum of the
/// weights of its input literals, which must fit in `usize`.
#[verifier::external_body]
fn pb_sum_weights(enc: &rustsat::encodings::pb::GeneralizedTotalizer) -> (sum: usize)
    requires
        pb_weight_sum(*enc) <= usize::MAX,
    ensures
        sum == pb_weight_sum(*enc),
{
    enc.weight_sum()
}

/// `BoundUpper::coarse_ub` of the generalized totalizer: the next bound at
/// or below `ub` that is cheap to encode. The generalized totalizer keeps
/// what the trait gives by default, which is `ub` itself.
#[verifier::external_body]
fn pb_coarse_ub(enc: &rustsat::encodings::pb::GeneralizedTotalizer, ub: usize) -> (coarse: usize)
    ensures
        coarse == ub,
{
    enc.coarse_ub(ub)
}

/// `EncodeStats::n_clauses` of the totalizer: the encoder's count of the
/// clauses that it has emitted.
#[verifier::external_body]
fn card_n_clauses(enc: &rustsat::encodings::card::Totalizer) -> (n: usize)
    ensures
        n == card_emitted(*enc),
{
    enc.n_clauses()
}

/// `EncodeStats::n_vars` of the totalizer: the encoder's count of the
/// variables that it has taken while encoding.
#[verifier::external_body]
fn card_n_vars(enc: &rustsat::encodings::card::Totalizer) -> (n: u32)
    ensures
        n == card_taken(*enc),
{
    enc.n_vars()
}

/// `EncodeStats::n_clauses` of the generalized totalizer: the encoder's
/// count of the clauses that it has emitted.
#[verifier::external_body]
fn pb_n_clauses(enc: &rustsat::encodings::pb::GeneralizedTotalizer) -> (n: usize)
    ensures
        n == pb_emitted(*enc),
{
    enc.n_clauses()
}

/// `EncodeStats::n_vars` of the generalized totalizer: the encoder's count
/// of the variables that it has taken while encoding.
#[verifier::external_body]
fn pb_n_vars(enc: &rustsat::encodings::pb::GeneralizedTotalizer) -> (n: u32)
    ensures
        n == pb_taken(*enc),
{
    enc.n_vars()
}

/// Whether a weighted encoder over `n` literals that weigh `total` in all
/// has room for the variables that it can take.
pub fn weighted_room(n: usize, total: usize, next_var: u32) -> (b: bool)
    requires
        next_var <= MAX_VAR_IDX,
    ensures
        b == room_for(next_var, (n * total) as nat),
{
    let left: usize = (MAX_VAR_IDX - next_var) as usize;
    match n.checked_mul(total) {
        Some(need) => need <= left,
        None => {
            assert(n * total > left);
            false
        },
    }
}

/// Whether an unweighted encoder over `n` literals has room for the
/// variables that it can take.
pub fn unweighted_room(n: usize, next_var: u32) -> (b: bool)
    requires
        next_var <= MAX_VAR_IDX,
    ensures
        b == room_for(next_var, (64 * n) as nat),
{
    let left: usize = (MAX_VAR_IDX - next_var) as usize;
    n <= left / 64
}

/// Takes up what an encoder gave: the clauses that it emitted and the next
/// free variable after those that it took, or nothing where it ran out of
/// memory. The clauses are appended to `collector` and the variables are
/// taken from `var_manager`, unless the encoder took more than there are:
/// then nothing is taken up.
pub fn take_up(
    out: Option<(Vec<Clause>, u32)>,
    collector: &mut Vec<Clause>,
    var_manager: &mut VarManager,
) -> (r: Result<(), EncodingError>)
    ensures
        match out {
            Some((clauses, next)) => if next <= MAX_VAR_IDX {
                &&& r is Ok
                &&& final(collector)@ == old(collector)@ + clauses@
                &&& final(var_manager).next_var == next
            } else {
                &&& r == Err::<(), EncodingError>(EncodingError::OutOfVariables)
                &&& final(collector)@ == old(collector)@
                &&& *final(var_manager) == *old(var_manager)
            },
            None => {
                &&& r == Err::<(), EncodingError>(EncodingError::OutOfMemory)
                &&& final(collector)@ == old(collector)@
                &&& *final(var_manager) == *old(var_manager)
            },
        },
{
    match out {
        Some((mut clauses, next)) => {
            if next > MAX_VAR_IDX {
                return Err(EncodingError::OutOfVariables);
            }
            var_manager.next_var = next;
            collector.append(&mut clauses);
            Ok(())
        },
        None => Err(EncodingError::OutOfMemory),
    }
}

/// Whether there is room for what is left of `need` variables once `taken`
/// of them are taken.
pub fn room_left(need: Option<u64>, taken: u32, next_var: u32) -> (b: bool)
    requires
        next_var <= MAX_VAR_IDX,
    ensures
        need matches Some(n) ==> b == (taken > n || room_for(next_var, (n - taken) as nat)),
        need is None ==> !b,
{
    let left: u64 = (MAX_VAR_IDX - next_var) as u64;
    match need {
        Some(n) => {
            if taken as u64 > n {
                true
            } else {
                n - taken as u64 <= left
            }
        },
        None => false,
    }
}

/// The smallest of `values` above `val`, and `val + 1` where there is none.
pub open spec fn next_above(values: Set<int>, val: int) -> int {
    if exists|v: int| values.contains(v) && v > val {
        choose|n: int| values.contains(n) && n > val && forall|v: int|
            values.contains(v) && v > val ==> n <= v
    } else {
        val + 1
    }
}

/// `bound` in the units of an encoder whose costs start at `offset`: the
/// difference, and zero where `bound` lies below `offset`.
pub open spec fn shifted(bound: usize, offset: usize) -> usize {
    if bound >= offset {
        (bound - offset) as usize
    } else {
        0
    }
}

/// The encoder of one objective, with the cost at which the encoder's own
/// scale starts.
pub enum ObjEncoding {
    Weighted(rustsat::encodings::pb::GeneralizedTotalizer, usize),
    Unweighted(rustsat::encodings::card::Totalizer, usize),
    Constant,
}

impl ObjEncoding {
    pub open spec fn spec_offset(self) -> usize {
        match self {
            ObjEncoding::Weighted(_, offset) => offset,
            ObjEncoding::Unweighted(_, offset) => offset,
            ObjEncoding::Constant => 0,
        }
    }

    /// The highest value that the sum of the encoder can take, on the
    /// encoder's own scale: the sum of the weights, or the number of
    /// literals.
    pub open spec fn spec_size(self) -> nat {
        match self {
            ObjEncoding::Weighted(enc, _) => pb_weight_sum(enc),
            ObjEncoding::Unweighted(enc, _) => card_inputs(enc).len(),
            ObjEncoding::Constant => 0,
        }
    }

    /// The number of clauses that the encoder has emitted.
    pub open spec fn spec_n_clauses(self) -> nat {
        match self {
            ObjEncoding::Weighted(enc, _) => pb_emitted(enc),
            ObjEncoding::Unweighted(enc, _) => card_emitted(enc),
            ObjEncoding::Constant => 0,
        }
    }

    /// The number of variables that the encoder has taken while encoding;
    /// those that it reserved when it was built are not counted.
    pub open spec fn spec_n_vars(self) -> nat {
        match self {
            ObjEncoding::Weighted(enc, _) => pb_taken(enc),
            ObjEncoding::Unweighted(enc, _) => card_taken(enc),
            ObjEncoding::Constant => 0,
        }
    }

    /// The encoder sums up the weighted literals `lits`.
    pub open spec fn sums(self, lits: Seq<(Lit, usize)>) -> bool {
        match self {
            ObjEncoding::Weighted(enc, _) => pb_inputs(enc) == lits.to_multiset()
                && pb_weight_sum(enc) == total_weight(lits),
            _ => false,
        }
    }

    /// The encoder counts the literals `lits`.
    pub open spec fn counts(self, lits: Seq<Lit>) -> bool {
        match self {
            ObjEncoding::Unweighted(enc, _) => card_inputs(enc) == lits.to_multiset(),
            _ => false,
        }
    }

    /// `self` is the encoder `before` at a later time: it has the same
    /// shape, the same offset and the same input literals.
    pub open spec fn same_inputs(self, before: Self) -> bool {
        match (self, before) {
            (ObjEncoding::Weighted(a, x), ObjEncoding::Weighted(b, y)) => x == y && pb_inputs(a)
                == pb_inputs(b) && pb_weight_sum(a) == pb_weight_sum(b),
            (ObjEncoding::Unweighted(a, x), ObjEncoding::Unweighted(b, y)) => x == y
                && card_inputs(a) == card_inputs(b),
            (ObjEncoding::Constant, ObjEncoding::Constant) => true,
            _ => false,
        }
    }

    /// Whether the encoder can enforce the bound `ub` as it stands: the
    /// bound is not below the offset, and the encoder has encoded it on its
    /// own scale. A constant objective meets every bound.
    pub open spec fn can_enforce(self, ub: usize) -> bool {
        match self {
            ObjEncoding::Weighted(enc, offset) => ub >= offset && pb_encoded(enc).contains(
                ub - offset,
            ),
            ObjEncoding::Unweighted(enc, offset) => ub >= offset && card_encoded(enc).contains(
                ub - offset,
            ),
            ObjEncoding::Constant => true,
        }
    }

    /// The assumptions with which the encoder enforces the bound `ub`,
    /// where it can: those of the encoder for the bound on its own scale,
    /// and none for a constant objective.
    pub open spec fn spec_assumps(self, ub: usize) -> Seq<Lit> {
        match self {
            ObjEncoding::Weighted(enc, offset) => pb_assumps(enc, ub - offset),
            ObjEncoding::Unweighted(enc, offset) => card_assumps(enc, ub - offset),
            ObjEncoding::Constant => Seq::empty(),
        }
    }

    /// Whether the encoder has encoded the bounds `start .. end` as it
    /// stands, so that it has nothing left to do for them. A constant
    /// objective has nothing to encode.
    pub open spec fn settled(self, start: usize, end: usize) -> bool {
        match self {
            ObjEncoding::Weighted(enc, offset) => pb_settled(enc).contains(
                (shifted(start, offset) as int, shifted(end, offset) as int),
            ),
            ObjEncoding::Unweighted(enc, offset) => card_settled(enc).contains(
                (shifted(start, offset) as int, shifted(end, offset) as int),
            ),
            ObjEncoding::Constant => true,
        }
    }

    /// The encoder of a weighted objective has no literal of weight zero,
    /// and its arithmetic on bounds stays within `usize`: twice the sum of
    /// the weights does.
    pub open spec fn wf(self) -> bool {
        self matches ObjEncoding::Weighted(enc, _) ==> pb_positive(enc) && 2 * pb_weight_sum(enc)
            <= usize::MAX
    }

    /// A bound on the variables that the encoder takes over its life.
    pub open spec fn spec_need(self) -> nat {
        match self {
            ObjEncoding::Weighted(enc, _) => pb_need(enc),
            ObjEncoding::Unweighted(enc, _) => card_need(enc),
            ObjEncoding::Constant => 0,
        }
    }

    /// The clauses that the encoder has emitted, oldest first.
    pub open spec fn spec_clauses(self) -> Seq<Seq<Lit>> {
        match self {
            ObjEncoding::Weighted(enc, _) => pb_clauses(enc),
            ObjEncoding::Unweighted(enc, _) => card_clauses(enc),
            ObjEncoding::Constant => Seq::empty(),
        }
    }

    /// Under the values `m` the literals that the encoder sums up cost no
    /// more than `ub`, offset included.
    pub open spec fn bounds(self, m: Seq<TernaryVal>, ub: usize) -> bool {
        &&& forall|s: Seq<(Lit, usize)>|
            self.sums(s) ==> #[trigger] weighted_cost(s, m) + self.spec_offset() <= ub
        &&& forall|s: Seq<Lit>|
            self.counts(s) ==> #[trigger] count_true(s, m) + self.spec_offset() <= ub
    }

    /// What is left of the bound on the variables of the encoder.
    pub open spec fn spec_left(self) -> nat {
        match self {
            ObjEncoding::Weighted(enc, _) => pb_left(enc),
            ObjEncoding::Unweighted(enc, _) => card_left(enc),
            ObjEncoding::Constant => 0,
        }
    }

    /// Whether the encoder holds every variable that it can ever use, as
    /// it does once it has reserved them: then it takes no more.
    pub open spec fn holds_all(self) -> bool {
        match self {
            ObjEncoding::Weighted(enc, _) => pb_holds_all(enc),
            ObjEncoding::Unweighted(enc, _) => card_holds_all(enc),
            ObjEncoding::Constant => true,
        }
    }

    /// Whether the encoder has anything to encode for the bounds
    /// `start .. end`: the range, shifted to the encoder's scale, is not
    /// empty and starts below the highest value of the sum.
    pub open spec fn has_work(self, start: usize, end: usize) -> bool {
        &&& !(self is Constant)
        &&& shifted(start, self.spec_offset()) < shifted(end, self.spec_offset())
        &&& shifted(start, self.spec_offset()) < self.spec_size()
    }

    /// An encoding for a weighted objective, with offset zero. No literal
    /// may come twice or weigh nothing, and twice the weights must add up in
    /// `usize`. Where `reserve` is set the encoder takes all the variables
    /// it may ever need; where there is no room for those that it can take,
    /// it is not built.
    pub fn new_weighted(
        lits: &Vec<(Lit, usize)>,
        reserve: bool,
        var_manager: &mut VarManager,
    ) -> (r: Result<ObjEncoding, EncodingError>)
        requires
            old(var_manager).wf(),
            distinct_lits(lits@),
            !has_zero_weight(lits@),
            2 * total_weight(lits@) <= usize::MAX,
        ensures
            final(var_manager).wf(),
            final(var_manager).next_var >= old(var_manager).next_var,
            !reserve ==> r is Ok && *final(var_manager) == *old(var_manager),
            reserve ==> (r is Ok <==> room_for(
                old(var_manager).next_var,
                lits@.len() * total_weight(lits@),
            )),
            r is Ok ==> final(var_manager).next_var - old(var_manager).next_var <= lits@.len()
                * total_weight(lits@),
            r matches Ok(enc) ==> enc is Weighted && enc.spec_offset() == 0 && enc.sums(lits@)
                && enc.spec_n_clauses() == 0 && enc.spec_n_vars() == 0 && enc.wf(),
            r matches Ok(enc) ==> enc.spec_left() <= lits@.len() * total_weight(lits@) && (
            reserve ==> enc.holds_all()) && enc.spec_clauses().len() == 0,
            r matches Err(e) ==>
                e == EncodingError::OutOfVariables && *final(var_manager) == *old(var_manager),
    {
        let mut encoding = pb_from_lits(lits);
        proof {
            lits@.to_multiset_ensures();
            assert forall|p: (Lit, usize)| pb_inputs(encoding).count(p) > 0 implies p.1 > 0 by {
                assert(lits@.contains(p));
                let j = choose|j: int| 0 <= j < lits@.len() && lits@[j] == p;
                assert(lits@[j].1 != 0);
            }
        }
        if reserve {
            let total = crate::objective::weigh(lits);
            if !weighted_room(lits.len(), total, var_manager.next_var) {
                return Err(EncodingError::OutOfVariables);
            }
            var_manager.next_var = pb_reserve(&mut encoding, var_manager.next_var);
        }
        Ok(ObjEncoding::Weighted(encoding, 0))
    }

    /// An encoding for an unweighted objective, with offset zero. Where
    /// `reserve` is set the encoder takes all the variables it may ever
    /// need; where there is no room for those that it can take, it is not
    /// built.
    pub fn new_unweighted(
        lits: &Vec<Lit>,
        reserve: bool,
        var_manager: &mut VarManager,
    ) -> (r: Result<ObjEncoding, EncodingError>)
        requires
            old(var_manager).wf(),
        ensures
            final(var_manager).wf(),
            final(var_manager).next_var >= old(var_manager).next_var,
            !reserve ==> r is Ok && *final(var_manager) == *old(var_manager),
            reserve ==> (r is Ok <==> room_for(old(var_manager).next_var, 64 * lits@.len())),
            r is Ok ==> final(var_manager).next_var - old(var_manager).next_var <= 64
                * lits@.len(),
            r matches Ok(enc) ==> enc is Unweighted && enc.spec_offset() == 0 && enc.counts(
                lits@,
            ) && enc.spec_n_clauses() == 0 && enc.spec_n_vars() == 0,
            r matches Ok(enc) ==> enc.spec_left() <= 64 * lits@.len() && (reserve
                ==> enc.holds_all()) && enc.spec_clauses().len() == 0,
            r matches Err(e) ==>
                e == EncodingError::OutOfVariables && *final(var_manager) == *old(var_manager),
    {
        let mut encoding = card_from_lits(lits);
        proof {
            lits@.to_multiset_ensures();
        }
        if reserve {
            if !unweighted_room(lits.len(), var_manager.next_var) {
                return Err(EncodingError::OutOfVariables);
            }
            var_manager.next_var = card_reserve(&mut encoding, var_manager.next_var);
        }
        Ok(ObjEncoding::Unweighted(encoding, 0))
    }

    /// The cost at which the encoder's own scale starts.
    pub fn offset(&self) -> (o: usize)
        ensures
            o == self.spec_offset(),
    {
        match self {
            ObjEncoding::Weighted(_, offset) => *offset,
            ObjEncoding::Unweighted(_, offset) => *offset,
            ObjEncoding::Constant => 0,
        }
    }

    /// `bound` in the encoder's own units.
    pub fn shift(&self, bound: usize) -> (s: usize)
        ensures
            s == shifted(bound, self.spec_offset()),
    {
        let offset = self.offset();
        if bound >= offset {
            bound - offset
        } else {
            0
        }
    }

    /// What `next_higher` answers when the encoder of a weighted objective
    /// answered `inner` for the shifted value: `inner` shifted back, and the
    /// highest `usize` where that does not fit.
    pub open spec fn spec_outer_value(inner: usize, offset: usize) -> usize {
        if inner + offset <= usize::MAX {
            (inner + offset) as usize
        } else {
            usize::MAX
        }
    }

    /// What `next_higher` answers for a weighted objective: the smallest
    /// value above `val` that the encoder represents on its own scale,
    /// shifted back, or `val + 1` where it represents none.
    pub open spec fn spec_next_higher(self, val: usize) -> usize {
        match self {
            ObjEncoding::Weighted(enc, offset) => Self::spec_outer_value(
                next_above(pb_values(enc), val - offset) as usize,
                offset,
            ),
            _ => val,
        }
    }

    /// Shifts a value of the encoder's scale back by `offset`.
    pub fn outer_value(inner: usize, offset: usize) -> (v: usize)
        ensures
            v == Self::spec_outer_value(inner, offset),
    {
        match inner.checked_add(offset) {
            Some(v) => v,
            None => usize::MAX,
        }
    }

    /// The next objective value above `val` that is worth a look: `val + 1`
    /// for an unweighted objective, `val` for a constant one, and for a
    /// weighted one the smallest value above `val` that the encoder
    /// represents on its own scale, shifted back, or `val + 1` where it
    /// represents none.
    pub fn next_higher(&self, val: usize) -> (next: usize)
        requires
            val < usize::MAX,
            val >= self.spec_offset(),
            self is Weighted ==> val - self.spec_offset() + self.spec_size() < usize::MAX,
        ensures
            self is Unweighted ==> next == val + 1,
            self is Constant ==> next == val,
            self is Weighted ==> next == self.spec_next_higher(val),
    {
        match self {
            ObjEncoding::Weighted(enc, offset) => {
                let inner = pb_next_higher(enc, val - *offset);
                Self::outer_value(inner, *offset)
            },
            ObjEncoding::Unweighted(..) => val + 1,
            ObjEncoding::Constant => val,
        }
    }

    /// `next_higher` for every value: there is no answer for a value below
    /// the offset, for the highest `usize`, and for a value of a weighted
    /// objective to which the encoder cannot add its weights.
    pub fn try_next_higher(&self, val: usize) -> (next: Option<usize>)
        requires
            self.wf(),
        ensures
            next is Some <==> val < usize::MAX && val >= self.spec_offset() && (self is Weighted
                ==> val - self.spec_offset() + self.spec_size() < usize::MAX),
            next matches Some(n) ==> {
                &&& self is Unweighted ==> n == val + 1
                &&& self is Constant ==> n == val
                &&& self is Weighted ==> n == self.spec_next_higher(val)
            },
    {
        if val == usize::MAX || val < self.offset() {
            return None;
        }
        match self {
            ObjEncoding::Weighted(enc, offset) => {
                let sum = pb_sum_weights(enc);
                if val - *offset >= usize::MAX - sum {
                    return None;
                }
            },
            _ => {},
        }
        Some(self.next_higher(val))
    }

    /// Has the encoder emit what it takes to enforce the bounds of `range`
    /// later on. The bounds are shifted to the encoder's scale, the clauses
    /// are appended to `collector`, and the variables that the encoder needs
    /// are taken from `var_manager`. A constant objective has nothing to
    /// encode.
    ///
    /// After a call that succeeded the encoder can enforce every bound of
    /// `range` that is not below the offset. Where the shifted range is
    /// empty, or starts at or above the highest value of the sum, nothing is
    /// emitted and no variable is taken; nor is anything where the encoder
    /// has encoded the range before, or a range that holds it, and nothing
    /// else since. The encoder is then left as it is.
    pub fn encode_ub_change(
        &mut self,
        range: Range<usize>,
        collector: &mut Vec<Clause>,
        var_manager: &mut VarManager,
    ) -> (r: Result<(), EncodingError>)
        requires
            old(var_manager).wf(),
            old(self).wf(),
            old(self).has_work(range.start, range.end) ==> old(self).holds_all() || room_for(
                old(var_manager).next_var,
                old(self).spec_left(),
            ),
        ensures
            old(self).holds_all() ==> final(self).holds_all(),
            r is Ok && old(self).holds_all() ==> *final(var_manager) == *old(var_manager),
            final(self).spec_left() <= old(self).spec_left(),
            final(self).spec_left() + final(self).spec_n_vars() <= old(self).spec_left() + old(
                self,
            ).spec_n_vars(),
            r is Ok ==> final(self).spec_left() == old(self).spec_left() - (
            final(var_manager).next_var - old(var_manager).next_var),
            final(var_manager).wf(),
            final(self).wf(),
            final(var_manager).next_var >= old(var_manager).next_var,
            old(collector)@.is_prefix_of(final(collector)@),
            final(self).spec_offset() == old(self).spec_offset(),
            (*old(self) is Weighted) <==> (*final(self) is Weighted),
            (*old(self) is Unweighted) <==> (*final(self) is Unweighted),
            final(self).same_inputs(*old(self)),
            r is Ok ==> final(self).spec_n_clauses() == old(self).spec_n_clauses()
                + final(collector)@.len() - old(collector)@.len(),
            r is Ok ==> final(self).spec_clauses() == old(self).spec_clauses() + clause_views(
                final(collector)@.subrange(
                    old(collector)@.len() as int,
                    final(collector)@.len() as int,
                ),
            ),
            old(self).spec_clauses().is_prefix_of(final(self).spec_clauses()),
            r is Ok ==> final(self).spec_n_vars() == old(self).spec_n_vars()
                + final(var_manager).next_var - old(var_manager).next_var,
            r is Ok ==> forall|b: usize|
                range.start <= b < range.end && b >= old(self).spec_offset()
                    ==> #[trigger] final(self).can_enforce(b),
            !old(self).has_work(range.start, range.end) ==>
                r is Ok && final(collector)@ == old(collector)@ &&
                    *final(var_manager) == *old(var_manager),
            r is Ok ==> forall|a: usize, b: usize|
                range.start <= a && b <= range.end ==> #[trigger] final(self).settled(a, b),
            old(self).settled(range.start, range.end) ==>
                r is Ok && final(collector)@ == old(collector)@ &&
                    *final(var_manager) == *old(var_manager),
            old(self).settled(range.start, range.end) || !old(self).has_work(
                range.start,
                range.end,
            ) ==> *final(self) == *old(self),
            r matches Err(e) ==> (e == EncodingError::OutOfMemory || e
                == EncodingError::OutOfVariables) && final(collector)@ == old(collector)@
                && *final(var_manager) == *old(var_manager),
    {
        let start = self.shift(range.start);
        let end = self.shift(range.end);
        let out = match self {
            ObjEncoding::Weighted(enc, _) => pb_encode_ub_change(
                enc,
                start,
                end,
                var_manager.next_var,
            ),
            ObjEncoding::Unweighted(enc, _) => card_encode_ub_change(
                enc,
                start,
                end,
                var_manager.next_var,
            ),
            ObjEncoding::Constant => {
                return Ok(());
            },
        };
        take_up(out, collector, var_manager)
    }

    /// The assumptions under which the objective's cost is at most `ub`.
    /// A constant objective needs none. A bound below the offset cannot be
    /// met: the answer is `Unsat`, and no encoder is asked. Otherwise the
    /// encoder answers for the bound on its own scale: with `NotEncoded`
    /// where it has not encoded the bound, without assumptions where the
    /// bound is at or above the highest value of the sum, and for an
    /// unweighted objective with one assumption otherwise. Values that make
    /// the assumptions true and every clause that the encoder has emitted
    /// cost no more than `ub`.
    pub fn enforce_ub(&self, ub: usize) -> (r: Result<Vec<Lit>, EncodingError>)
        requires
            self.wf(),
        ensures
            r is Ok <==> self.can_enforce(ub),
            r matches Ok(lits) ==> lits@ == self.spec_assumps(ub),
            r matches Ok(lits) ==> forall|m: Seq<TernaryVal>| #[trigger]
                models(m, self.spec_clauses(), lits@) ==> self.bounds(m, ub),
            self is Constant ==> (r matches Ok(lits) && lits@.len() == 0),
            !(self is Constant) && ub < self.spec_offset() ==> r == Err::<Vec<Lit>, EncodingError>(
                EncodingError::Unsat,
            ),
            r is Err && ub >= self.spec_offset() ==> r == Err::<Vec<Lit>, EncodingError>(
                EncodingError::NotEncoded,
            ),
            ub >= self.spec_offset() + self.spec_size() ==> (r matches Ok(lits) && lits@.len()
                == 0),
            self is Unweighted ==> (r matches Ok(lits) ==> lits@.len() == (if ub
                >= self.spec_offset() + self.spec_size() {
                0nat
            } else {
                1nat
            })),
    {
        match self {
            ObjEncoding::Weighted(enc, offset) => {
                if ub >= *offset {
                    pb_enforce_ub(enc, ub - *offset)
                } else {
                    Err(EncodingError::Unsat)
                }
            },
            ObjEncoding::Unweighted(enc, offset) => {
                if ub >= *offset {
                    match card_enforce_ub(enc, ub - *offset) {
                        Some(lits) => Ok(lits),
                        None => Err(EncodingError::NotEncoded),
                    }
                } else {
                    Err(EncodingError::Unsat)
                }
            },
            ObjEncoding::Constant => Ok(Vec::new()),
        }
    }

    /// The number of clauses that the encoder has emitted; none for a
    /// constant objective.
    pub fn n_clauses(&self) -> (n: usize)
        ensures
            n == self.spec_n_clauses(),
            self is Constant ==> n == 0,
    {
        match self {
            ObjEncoding::Weighted(enc, _) => pb_n_clauses(enc),
            ObjEncoding::Unweighted(enc, _) => card_n_clauses(enc),
            ObjEncoding::Constant => 0,
        }
    }

    /// The number of variables that the encoder has taken while encoding;
    /// none for a constant objective.
    pub fn n_vars(&self) -> (n: u32)
        ensures
            n == self.spec_n_vars(),
            self is Constant ==> n == 0,
    {
        match self {
            ObjEncoding::Weighted(enc, _) => pb_n_vars(enc),
            ObjEncoding::Unweighted(enc, _) => card_n_vars(enc),
            ObjEncoding::Constant => 0,
        }
    }

    /// A bound at most `ub` that the encoder can enforce cheaply: for a
    /// weighted objective what the encoder answers on its own scale, shifted
    /// back, and `ub` itself otherwise. The encoder in use coarsens nothing,
    /// so the answer is `ub` throughout.
    pub fn coarse_ub(&self, ub: usize) -> (coarse: usize)
        ensures
            coarse == ub,
    {
        match self {
            ObjEncoding::Weighted(enc, offset) => {
                if ub >= *offset {
                    let inner = pb_coarse_ub(enc, ub - *offset);
                    Self::outer_value(inner, *offset)
                } else {
                    ub
                }
            },
            _ => ub,
        }
    }
}

} // verus!
