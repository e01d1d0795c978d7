//! The objective model: a weighted sum of literals with an offset, stored in
//! the cheapest of three shapes.

use vstd::prelude::*;

use crate::litmap::LitMap;
use crate::types::{lit_true, Assignment, Lit, TernaryVal};

verus! {

/// Weights that sum up to `total` fit in `isize`, alone and together with
/// the offset.
pub open spec fn sum_fits(offset: isize, total: nat) -> bool {
    total <= isize::MAX && offset + total <= isize::MAX
}

/// The sum of all weights of `s`.
pub open spec fn total_weight(s: Seq<(Lit, usize)>) -> nat
    decreases s.len(),
{
    if s.len() == 0 {
        0
    } else {
        total_weight(s.drop_last()) + s.last().1 as nat
    }
}

/// The sum of the weights of the literals of `s` that `a` makes true. A
/// literal that occurs several times counts each time.
pub open spec fn weighted_cost(s: Seq<(Lit, usize)>, a: Seq<TernaryVal>) -> nat
    decreases s.len(),
{
    if s.len() == 0 {
        0
    } else {
        weighted_cost(s.drop_last(), a) + if lit_true(a, s.last().0) {
            s.last().1 as nat
        } else {
            0
        }
    }
}

/// The number of literals of `s`, with repetitions, that `a` makes true.
pub open spec fn count_true(s: Seq<Lit>, a: Seq<TernaryVal>) -> nat
    decreases s.len(),
{
    if s.len() == 0 {
        0
    } else {
        count_true(s.drop_last(), a) + if lit_true(a, s.last()) {
            1nat
        } else {
            0nat
        }
    }
}

/// Whether some entry of `s` is for literal `l`.
pub open spec fn has_lit(s: Seq<(Lit, usize)>, l: Lit) -> bool {
    exists|i: int| 0 <= i < s.len() && (#[trigger] s[i]).0 == l
}

/// An index at which `s` holds literal `l`.
pub open spec fn index_of_lit(s: Seq<(Lit, usize)>, l: Lit) -> int {
    choose|i: int| 0 <= i < s.len() && (#[trigger] s[i]).0 == l
}

/// No literal has two entries in `s`.
pub open spec fn distinct_lits(s: Seq<(Lit, usize)>) -> bool {
    forall|i: int, j: int|
        0 <= i < s.len() && 0 <= j < s.len() && i != j ==>
            (#[trigger] s[i]).0 != (#[trigger] s[j]).0
}

/// `s` with the entries of each literal merged into one, at the place of the
/// literal's first entry, holding the sum of its weights. (The sum is taken
/// in `usize`: it is the true sum where `total_weight(s)` fits.)
pub open spec fn merged(s: Seq<(Lit, usize)>) -> Seq<(Lit, usize)>
    decreases s.len(),
{
    if s.len() == 0 {
        Seq::empty()
    } else {
        let m = merged(s.drop_last());
        let l = s.last().0;
        let w = s.last().1;
        if has_lit(m, l) {
            let p = index_of_lit(m, l);
            m.update(p, (l, (m[p].1 + w) as usize))
        } else {
            m.push((l, w))
        }
    }
}

/// The literals of `s`, without their weights.
pub open spec fn lits_of(s: Seq<(Lit, usize)>) -> Seq<Lit> {
    Seq::new(s.len(), |i: int| s[i].0)
}

/// Every entry of `s` has weight `u`.
pub open spec fn uniform(s: Seq<(Lit, usize)>, u: usize) -> bool {
    forall|i: int| 0 <= i < s.len() ==> (#[trigger] s[i]).1 == u
}

/// `obj` has the shape that the weighted literals `lits` give it: it is
/// constant without literals, unweighted with the literals as they come
/// where all weigh the same, and weighted with the merged literals where
/// they do not.
pub open spec fn classified(obj: Objective, lits: Seq<(Lit, usize)>) -> bool {
    if lits.len() == 0 {
        obj is Constant
    } else if uniform(lits, lits[0].1) {
        obj matches Objective::Unweighted { unit_weight, lits: ls, .. } && unit_weight == lits[0].1
            && ls@ == lits_of(lits)
    } else {
        obj matches Objective::Weighted { lits: ls, .. } && ls@ == merged(lits)
    }
}

pub open spec fn has_zero_weight(s: Seq<(Lit, usize)>) -> bool {
    exists|i: int| 0 <= i < s.len() && (#[trigger] s[i]).1 == 0
}

/// The sum of the weights.
pub fn weigh(lits: &Vec<(Lit, usize)>) -> (total: usize)
    requires
        total_weight(lits@) <= usize::MAX,
    ensures
        total == total_weight(lits@),
{
    let mut total: usize = 0;
    let mut i: usize = 0;
    while i < lits.len()
        invariant
            i <= lits@.len(),
            total == total_weight(lits@.subrange(0, i as int)),
            total_weight(lits@) <= usize::MAX,
        decreases lits.len() - i,
    {
        proof {
            assert(lits@.subrange(0, i + 1).drop_last() =~= lits@.subrange(0, i as int));
            lemma_total_weight_prefix(lits@, i + 1);
        }
        total = total + lits[i].1;
        i += 1;
    }
    proof {
        assert(lits@.subrange(0, lits@.len() as int) =~= lits@);
    }
    total
}

pub proof fn lemma_total_weight_push(s: Seq<(Lit, usize)>, e: (Lit, usize))
    ensures
        total_weight(s.push(e)) == total_weight(s) + e.1,
{
    assert(s.push(e).drop_last() =~= s);
}

pub proof fn lemma_weighted_cost_push(s: Seq<(Lit, usize)>, e: (Lit, usize), a: Seq<TernaryVal>)
    ensures
        weighted_cost(s.push(e), a) == weighted_cost(s, a) + if lit_true(a, e.0) {
            e.1 as nat
        } else {
            0
        },
{
    assert(s.push(e).drop_last() =~= s);
}

/// Each prefix of a list weighs no more than the list.
pub proof fn lemma_total_weight_prefix(s: Seq<(Lit, usize)>, n: int)
    requires
        0 <= n <= s.len(),
    ensures
        total_weight(s.subrange(0, n)) <= total_weight(s),
    decreases s.len() - n,
{
    if n == s.len() {
        assert(s.subrange(0, n) =~= s);
    } else {
        lemma_total_weight_prefix(s, n + 1);
        assert(s.subrange(0, n + 1).drop_last() =~= s.subrange(0, n));
    }
}

/// No entry weighs more than the whole list.
pub proof fn lemma_entry_le_total(s: Seq<(Lit, usize)>, i: int)
    requires
        0 <= i < s.len(),
    ensures
        s[i].1 <= total_weight(s),
    decreases s.len(),
{
    if i < s.len() - 1 {
        lemma_entry_le_total(s.drop_last(), i);
    }
}

/// The cost under an assignment is at most the total weight.
pub proof fn lemma_cost_le_total(s: Seq<(Lit, usize)>, a: Seq<TernaryVal>)
    ensures
        weighted_cost(s, a) <= total_weight(s),
    decreases s.len(),
{
    if s.len() > 0 {
        lemma_cost_le_total(s.drop_last(), a);
    }
}

pub proof fn lemma_count_le_len(s: Seq<Lit>, a: Seq<TernaryVal>)
    ensures
        count_true(s, a) <= s.len(),
    decreases s.len(),
{
    if s.len() > 0 {
        lemma_count_le_len(s.drop_last(), a);
    }
}

/// Raising the weight of one entry by `w` raises the total by `w`, and the
/// cost by `w` where the entry's literal is true.
pub proof fn lemma_update_adds(s: Seq<(Lit, usize)>, p: int, w: usize, a: Seq<TernaryVal>)
    requires
        0 <= p < s.len(),
        s[p].1 + w <= usize::MAX,
    ensures
        total_weight(s.update(p, (s[p].0, (s[p].1 + w) as usize))) == total_weight(s) + w,
        weighted_cost(s.update(p, (s[p].0, (s[p].1 + w) as usize)), a) == weighted_cost(s, a)
            + if lit_true(a, s[p].0) {
            w as nat
        } else {
            0
        },
    decreases s.len(),
{
    let u = s.update(p, (s[p].0, (s[p].1 + w) as usize));
    if p == s.len() - 1 {
        assert(u.drop_last() =~= s.drop_last());
    } else {
        lemma_update_adds(s.drop_last(), p, w, a);
        assert(u.drop_last() =~= s.drop_last().update(
            p,
            (s[p].0, (s[p].1 + w) as usize),
        ));
    }
}

/// Merging keeps the literals distinct, and where the total weight fits in
/// `usize` it keeps the total weight and the cost under every assignment.
pub proof fn lemma_merged(s: Seq<(Lit, usize)>, a: Seq<TernaryVal>)
    requires
        total_weight(s) <= usize::MAX,
    ensures
        distinct_lits(merged(s)),
        total_weight(merged(s)) == total_weight(s),
        weighted_cost(merged(s), a) == weighted_cost(s, a),
        merged(s).len() <= s.len(),
        s.len() > 0 ==> merged(s).len() > 0,
        forall|l: Lit| has_lit(merged(s), l) <==> has_lit(s, l),
        !has_zero_weight(s) ==> !has_zero_weight(merged(s)),
    decreases s.len(),
{
    if s.len() > 0 {
        let t = s.drop_last();
        lemma_merged(t, a);
        let m = merged(t);
        let l = s.last().0;
        let w = s.last().1;
        if has_lit(m, l) {
            let p = index_of_lit(m, l);
            lemma_entry_le_total(m, p);
            lemma_update_adds(m, p, w, a);
            let r = m.update(p, (l, (m[p].1 + w) as usize));
            assert(r == merged(s));
            assert forall|x: Lit| has_lit(r, x) <==> has_lit(s, x) by {
                if has_lit(r, x) {
                    let i = choose|i: int| 0 <= i < r.len() && (#[trigger] r[i]).0 == x;
                    assert(m[i].0 == x);
                    assert(has_lit(t, x));
                    let j = choose|j: int| 0 <= j < t.len() && (#[trigger] t[j]).0 == x;
                    assert(s[j].0 == x);
                }
                if has_lit(s, x) {
                    let j = choose|j: int| 0 <= j < s.len() && (#[trigger] s[j]).0 == x;
                    if j < t.len() {
                        assert(t[j].0 == x);
                        assert(has_lit(t, x));
                        assert(has_lit(m, x));
                        let i = choose|i: int| 0 <= i < m.len() && (#[trigger] m[i]).0 == x;
                        assert(r[i].0 == x);
                    } else {
                        assert(x == l);
                        assert(r[p].0 == x);
                    }
                }
            }
            if !has_zero_weight(s) {
                assert forall|i: int| 0 <= i < r.len() implies (#[trigger] r[i]).1 != 0 by {
                    if i != p {
                        assert(m[i].1 != 0) by {
                            if has_zero_weight(t) {
                                let j = choose|j: int| 0 <= j < t.len() && (#[trigger] t[j]).1 == 0;
                                assert(s[j].1 == 0);
                            }
                        }
                    } else {
                        assert(s[s.len() - 1].1 != 0);
                    }
                }
            }
        } else {
            lemma_total_weight_push(m, (l, w));
            lemma_weighted_cost_push(m, (l, w), a);
            let r = m.push((l, w));
            assert(r == merged(s));
            assert forall|i: int, j: int|
                0 <= i < r.len() && 0 <= j < r.len() && i != j implies (#[trigger] r[i]).0 != (
            #[trigger] r[j]).0 by {
                if i == m.len() {
                    assert(m[j].0 != l);
                } else if j == m.len() {
                    assert(m[i].0 != l);
                }
            }
            assert forall|x: Lit| has_lit(r, x) <==> has_lit(s, x) by {
                if has_lit(r, x) {
                    let i = choose|i: int| 0 <= i < r.len() && (#[trigger] r[i]).0 == x;
                    if i < m.len() {
                        assert(m[i].0 == x);
                        assert(has_lit(t, x));
                        let j = choose|j: int| 0 <= j < t.len() && (#[trigger] t[j]).0 == x;
                        assert(s[j].0 == x);
                    } else {
                        assert(s[s.len() - 1].0 == x);
                    }
                }
                if has_lit(s, x) {
                    let j = choose|j: int| 0 <= j < s.len() && (#[trigger] s[j]).0 == x;
                    if j < t.len() {
                        assert(t[j].0 == x);
                        assert(has_lit(t, x));
                        assert(has_lit(m, x));
                        let i = choose|i: int| 0 <= i < m.len() && (#[trigger] m[i]).0 == x;
                        assert(r[i].0 == x);
                    } else {
                        assert(r[m.len() as int].0 == x);
                    }
                }
            }
            if !has_zero_weight(s) {
                assert forall|i: int| 0 <= i < r.len() implies (#[trigger] r[i]).1 != 0 by {
                    if i < m.len() {
                        assert(m[i].1 != 0) by {
                            if has_zero_weight(t) {
                                let j = choose|j: int| 0 <= j < t.len() && (#[trigger] t[j]).1 == 0;
                                assert(s[j].1 == 0);
                            }
                        }
                    } else {
                        assert(s[s.len() - 1].1 != 0);
                    }
                }
            }
        }
    }
}

/// With one weight `u` throughout, the total is `u` times the length and the
/// cost is `u` times the number of true literals.
pub proof fn lemma_uniform(s: Seq<(Lit, usize)>, u: usize, a: Seq<TernaryVal>)
    requires
        uniform(s, u),
    ensures
        total_weight(s) == u * s.len(),
        weighted_cost(s, a) == u * count_true(lits_of(s), a),
    decreases s.len(),
{
    if s.len() > 0 {
        let t = s.drop_last();
        lemma_uniform(t, u, a);
        assert(lits_of(s).drop_last() =~= lits_of(t));
        assert(lits_of(s).last() == s.last().0);
        assert(s.last().1 == u);
        assert(u * s.len() == u * t.len() + u) by (nonlinear_arith)
            requires
                s.len() == t.len() + 1,
        ;
        let c = count_true(lits_of(t), a);
        assert(u * (c + 1) == u * c + u) by (nonlinear_arith);
    } else {
        assert(u * 0 == 0) by (nonlinear_arith);
    }
}

/// Why a list of weighted literals is no objective.
#[derive(Clone, Copy, PartialEq, Eq, Structural, Debug)]
pub enum ObjectiveError {
    /// Some literal has weight zero.
    ZeroWeight,
    /// The offset plus all weights does not fit in `isize`.
    Overflow,
}

/// A weighted sum of literals and an offset.
#[derive(Clone, Debug)]
#[allow(inconsistent_fields)]
pub enum Objective {
    /// Literals with their weights; no literal occurs twice.
    Weighted { offset: isize, lits: Vec<(Lit, usize)> },
    /// Literals that all weigh `unit_weight`.
    Unweighted { offset: isize, unit_weight: usize, lits: Vec<Lit> },
    /// No literals.
    Constant { offset: isize },
}

impl Objective {
    pub open spec fn spec_offset(self) -> isize {
        match self {
            Objective::Weighted { offset, .. } => offset,
            Objective::Unweighted { offset, .. } => offset,
            Objective::Constant { offset } => offset,
        }
    }

    /// The literals with the weight that each has in internal units:
    /// its own weight, or one where all weights are equal.
    pub open spec fn spec_iter(self) -> Seq<(Lit, usize)> {
        match self {
            Objective::Weighted { lits, .. } => lits@,
            Objective::Unweighted { lits, .. } => Seq::new(lits@.len(), |i: int| (lits@[i], 1usize)),
            Objective::Constant { .. } => Seq::empty(),
        }
    }

    /// The literals with the weight that each adds to the external cost.
    pub open spec fn spec_weighted(self) -> Seq<(Lit, usize)> {
        match self {
            Objective::Weighted { lits, .. } => lits@,
            Objective::Unweighted { lits, unit_weight, .. } => Seq::new(
                lits@.len(),
                |i: int| (lits@[i], unit_weight),
            ),
            Objective::Constant { .. } => Seq::empty(),
        }
    }

    /// The factor between internal and external cost.
    pub open spec fn spec_unit(self) -> nat {
        match self {
            Objective::Unweighted { unit_weight, .. } => unit_weight as nat,
            _ => 1,
        }
    }

    /// The highest internal cost that an assignment can have.
    pub open spec fn max_internal(self) -> nat {
        match self {
            Objective::Weighted { lits, .. } => total_weight(lits@),
            Objective::Unweighted { lits, .. } => lits@.len(),
            Objective::Constant { .. } => 0,
        }
    }

    /// The cost of `a` in internal units, which start at zero and leave out
    /// the unit weight.
    pub open spec fn internal_cost(self, a: Seq<TernaryVal>) -> nat {
        match self {
            Objective::Weighted { lits, .. } => weighted_cost(lits@, a),
            Objective::Unweighted { lits, .. } => count_true(lits@, a),
            Objective::Constant { .. } => 0,
        }
    }

    /// The external cost that belongs to internal cost `c`.
    pub open spec fn externalized(self, c: int) -> int {
        self.spec_offset() + self.spec_unit() * c
    }

    /// The internal cost that belongs to external cost `e`.
    pub open spec fn internalized(self, e: int) -> int {
        (e - self.spec_offset()) / (self.spec_unit() as int)
    }

    /// The cost of `a` as the user sees it.
    pub open spec fn external_cost(self, a: Seq<TernaryVal>) -> int {
        self.externalized(self.internal_cost(a) as int)
    }

    pub open spec fn wf(self) -> bool {
        match self {
            Objective::Weighted { offset, lits } => {
                &&& lits@.len() > 0
                &&& !has_zero_weight(lits@)
                &&& distinct_lits(lits@)
                &&& sum_fits(offset, total_weight(lits@))
            },
            Objective::Unweighted { offset, unit_weight, lits } => {
                &&& lits@.len() > 0
                &&& unit_weight > 0
                &&& sum_fits(offset, (unit_weight * lits@.len()) as nat)
            },
            Objective::Constant { .. } => true,
        }
    }

    /// Builds the objective `offset + sum of w * l` over the pairs `(l, w)`
    /// of `lits`.
    ///
    /// Without literals the objective is constant. Where all weights are
    /// equal it is unweighted and keeps the literals as they come. Otherwise
    /// it is weighted and holds each literal once, with the sum of its
    /// weights. A weight of zero is refused, and so is a list whose weights
    /// do not add up in `isize`, alone or together with the offset.
    pub fn new(lits: Vec<(Lit, usize)>, offset: isize) -> (r: Result<Objective, ObjectiveError>)
        ensures
            has_zero_weight(lits@) <==> r == Err::<Objective, ObjectiveError>(
                ObjectiveError::ZeroWeight,
            ),
            !has_zero_weight(lits@) && !sum_fits(offset, total_weight(lits@)) <==> r == Err::<
                Objective,
                ObjectiveError,
            >(ObjectiveError::Overflow),
            r is Ok <==> !has_zero_weight(lits@) && sum_fits(offset, total_weight(lits@)),
            r matches Ok(obj) ==> {
                &&& obj.wf()
                &&& obj.spec_offset() == offset
                &&& classified(obj, lits@)
                &&& lits@.len() == 0 ==> obj == (Objective::Constant { offset })
                &&& lits@.len() > 0 && uniform(lits@, lits@[0].1) ==> {
                    &&& obj matches Objective::Unweighted { unit_weight, lits: ls, .. }
                    &&& unit_weight == lits@[0].1
                    &&& ls@ == lits_of(lits@)
                }
                &&& lits@.len() > 0 && !uniform(lits@, lits@[0].1) ==> {
                    &&& obj matches Objective::Weighted { lits: ls, .. }
                    &&& ls@ == merged(lits@)
                }
                &&& forall|a: Seq<TernaryVal>| #[trigger]
                    obj.external_cost(a) == offset + weighted_cost(lits@, a)
                &&& forall|j: int|
                    0 <= j < obj.spec_iter().len() ==> has_lit(
                        lits@,
                        (#[trigger] obj.spec_iter()[j]).0,
                    )
                &&& forall|j: int|
                    0 <= j < lits@.len() ==> has_lit(obj.spec_iter(), (#[trigger] lits@[j]).0)
            },
    {
        // Refuse zero weights and sums that do not fit.
        let mut total: usize = 0;
        let mut i: usize = 0;
        while i < lits.len()
            invariant
                i <= lits@.len(),
                total == total_weight(lits@.subrange(0, i as int)),
                sum_fits(offset, total as nat),
                forall|j: int| 0 <= j < i ==> (#[trigger] lits@[j]).1 != 0,
            decreases lits.len() - i,
        {
            let w = lits[i].1;
            if w == 0 {
                return Err(ObjectiveError::ZeroWeight);
            }
            proof {
                assert(lits@.subrange(0, i + 1).drop_last() =~= lits@.subrange(0, i as int));
                lemma_total_weight_prefix(lits@, i + 1);
            }
            let fits = match total.checked_add(w) {
                Some(t) => t <= isize::MAX as usize && (offset as i128) + (t as i128) <= (
                isize::MAX as i128),
                None => false,
            };
            if !fits {
                proof {
                    // a zero weight further on would have to be reported first
                    if has_zero_weight(lits@) {
                        let j = choose|j: int| 0 <= j < lits@.len() && (#[trigger] lits@[j]).1 == 0;
                    }
                }
                return Self::refuse(&lits, i + 1, offset);
            }
            total = total + w;
            i += 1;
        }
        proof {
            assert(lits@.subrange(0, lits@.len() as int) =~= lits@);
        }
        if lits.len() == 0 {
            assert forall|a: Seq<TernaryVal>| #[trigger]
                (Objective::Constant { offset }).external_cost(a) == offset + weighted_cost(
                    lits@,
                    a,
                ) by {
                assert(1 * 0 == 0);
            }
            return Ok(Objective::Constant { offset });
        }
        let unit_weight = lits[0].1;
        let weighted = Self::detect_weighted(&lits, unit_weight);
        if weighted {
            let ls = Self::merge(&lits);
            let obj = Objective::Weighted { offset, lits: ls };
            proof {
                lemma_merged(lits@, Seq::empty());
                assert forall|j: int| 0 <= j < obj.spec_iter().len() implies has_lit(
                    lits@,
                    (#[trigger] obj.spec_iter()[j]).0,
                ) by {
                    assert(has_lit(merged(lits@), merged(lits@)[j].0));
                }
                assert forall|j: int| 0 <= j < lits@.len() implies has_lit(
                    obj.spec_iter(),
                    (#[trigger] lits@[j]).0,
                ) by {
                    assert(has_lit(lits@, lits@[j].0));
                }
                assert forall|a: Seq<TernaryVal>| #[trigger]
                    obj.external_cost(a) == offset + weighted_cost(lits@, a) by {
                    lemma_merged(lits@, a);
                    assert(1 * (weighted_cost(merged(lits@), a) as int) == weighted_cost(
                        merged(lits@),
                        a,
                    )) by (nonlinear_arith);
                }
            }
            Ok(obj)
        } else {
            let ls = Self::strip_weights(&lits);
            let obj = Objective::Unweighted { offset, unit_weight, lits: ls };
            proof {
                lemma_uniform(lits@, unit_weight, Seq::empty());
                assert forall|j: int| 0 <= j < obj.spec_iter().len() implies has_lit(
                    lits@,
                    (#[trigger] obj.spec_iter()[j]).0,
                ) by {
                    assert(lits@[j].0 == obj.spec_iter()[j].0);
                }
                assert forall|j: int| 0 <= j < lits@.len() implies has_lit(
                    obj.spec_iter(),
                    (#[trigger] lits@[j]).0,
                ) by {
                    assert(obj.spec_iter()[j].0 == lits@[j].0);
                }
                assert forall|a: Seq<TernaryVal>| #[trigger]
                    obj.external_cost(a) == offset + weighted_cost(lits@, a) by {
                    lemma_uniform(lits@, unit_weight, a);
                }
            }
            Ok(obj)
        }
    }

    /// Tells a zero weight at or after `from` from a sum that does not fit.
    fn refuse(lits: &Vec<(Lit, usize)>, from: usize, offset: isize) -> (r: Result<
        Objective,
        ObjectiveError,
    >)
        requires
            from <= lits@.len(),
            forall|j: int| 0 <= j < from ==> (#[trigger] lits@[j]).1 != 0,
            !sum_fits(offset, total_weight(lits@.subrange(0, from as int))),
        ensures
            has_zero_weight(lits@) <==> r == Err::<Objective, ObjectiveError>(
                ObjectiveError::ZeroWeight,
            ),
            !has_zero_weight(lits@) <==> r == Err::<Objective, ObjectiveError>(
                ObjectiveError::Overflow,
            ),
            !sum_fits(offset, total_weight(lits@)),
    {
        proof {
            lemma_total_weight_prefix(lits@, from as int);
        }
        let mut i: usize = from;
        while i < lits.len()
            invariant
                from <= i <= lits@.len(),
                forall|j: int| 0 <= j < i ==> (#[trigger] lits@[j]).1 != 0,
                !sum_fits(offset, total_weight(lits@)),
            decreases lits.len() - i,
        {
            if lits[i].1 == 0 {
                return Err(ObjectiveError::ZeroWeight);
            }
            i += 1;
        }
        Err(ObjectiveError::Overflow)
    }

    /// Whether some weight differs from `unit_weight`.
    fn detect_weighted(lits: &Vec<(Lit, usize)>, unit_weight: usize) -> (b: bool)
        ensures
            b == !uniform(lits@, unit_weight),
    {
        let mut i: usize = 0;
        while i < lits.len()
            invariant
                i <= lits@.len(),
                forall|j: int| 0 <= j < i ==> (#[trigger] lits@[j]).1 == unit_weight,
            decreases lits.len() - i,
        {
            if lits[i].1 != unit_weight {
                return true;
            }
            i += 1;
        }
        false
    }

    fn strip_weights(lits: &Vec<(Lit, usize)>) -> (ls: Vec<Lit>)
        ensures
            ls@ == lits_of(lits@),
    {
        let mut ls: Vec<Lit> = Vec::new();
        let mut i: usize = 0;
        while i < lits.len()
            invariant
                i <= lits@.len(),
                ls@.len() == i,
                forall|j: int| 0 <= j < i ==> ls@[j] == (#[trigger] lits@[j]).0,
            decreases lits.len() - i,
        {
            ls.push(lits[i].0);
            i += 1;
        }
        assert(ls@ =~= lits_of(lits@));
        ls
    }

    /// Merges the entries of each literal.
    fn merge(lits: &Vec<(Lit, usize)>) -> (out: Vec<(Lit, usize)>)
        requires
            total_weight(lits@) <= usize::MAX,
        ensures
            out@ == merged(lits@),
    {
        let mut out: Vec<(Lit, usize)> = Vec::new();
        let mut pos = LitMap::new();
        let mut i: usize = 0;
        while i < lits.len()
            invariant
                i <= lits@.len(),
                total_weight(lits@) <= usize::MAX,
                out@ == merged(lits@.subrange(0, i as int)),
                distinct_lits(out@),
                forall|l: Lit| pos@.contains_key(l) <==> has_lit(out@, l),
                forall|l: Lit| #[trigger]
                    pos@.contains_key(l) ==> 0 <= pos@[l] < out@.len() && out@[pos@[l] as int].0
                        == l,
            decreases lits.len() - i,
        {
            let l = lits[i].0;
            let w = lits[i].1;
            proof {
                assert(lits@.subrange(0, i + 1).drop_last() =~= lits@.subrange(0, i as int));
                assert(lits@.subrange(0, i + 1).last() == lits@[i as int]);
                lemma_total_weight_prefix(lits@, i + 1);
                lemma_merged(lits@.subrange(0, i + 1), Seq::empty());
                lemma_merged(lits@.subrange(0, i as int), Seq::empty());
            }
            match pos.get(l) {
                Some(p) => {
                    let ghost m = out@;
                    proof {
                        assert(has_lit(m, l));
                        let q = index_of_lit(m, l);
                        assert(q == p);
                        lemma_update_adds(m, p as int, 0, Seq::empty());
                        lemma_entry_le_total(m, p as int);
                        lemma_total_weight_prefix(lits@, i as int);
                    }
                    let old_w = out[p].1;
                    out.set(p, (l, old_w + w));
                    proof {
                        assert(out@ == merged(lits@.subrange(0, i + 1)));
                        assert forall|x: Lit| pos@.contains_key(x) <==> has_lit(out@, x) by {
                            if has_lit(out@, x) {
                                let k = choose|k: int|
                                    0 <= k < out@.len() && (#[trigger] out@[k]).0 == x;
                                assert(m[k].0 == x);
                            }
                            if has_lit(m, x) {
                                let k = choose|k: int| 0 <= k < m.len() && (#[trigger] m[k]).0 == x;
                                assert(out@[k].0 == x);
                            }
                        }
                    }
                },
                None => {
                    let ghost m = out@;
                    let at = out.len();
                    out.push((l, w));
                    pos.insert(l, at);
                    proof {
                        assert(!has_lit(m, l));
                        assert(out@ == merged(lits@.subrange(0, i + 1)));
                        assert forall|x: Lit| pos@.contains_key(x) <==> has_lit(out@, x) by {
                            if has_lit(out@, x) {
                                let k = choose|k: int|
                                    0 <= k < out@.len() && (#[trigger] out@[k]).0 == x;
                                if k < m.len() {
                                    assert(m[k].0 == x);
                                }
                            }
                            if has_lit(m, x) {
                                let k = choose|k: int| 0 <= k < m.len() && (#[trigger] m[k]).0 == x;
                                assert(out@[k].0 == x);
                            }
                            if x == l {
                                assert(out@[at as int].0 == x);
                            }
                        }
                    }
                },
            }
            i += 1;
        }
        proof {
            assert(lits@.subrange(0, lits@.len() as int) =~= lits@);
        }
        out
    }

    pub fn offset(&self) -> (o: isize)
        ensures
            o == self.spec_offset(),
    {
        match self {
            Objective::Weighted { offset, .. } => *offset,
            Objective::Unweighted { offset, .. } => *offset,
            Objective::Constant { offset } => *offset,
        }
    }

    /// The number of literals.
    pub fn n_lits(&self) -> (n: usize)
        ensures
            n == self.spec_iter().len(),
    {
        match self {
            Objective::Weighted { lits, .. } => lits.len(),
            Objective::Unweighted { lits, .. } => lits.len(),
            Objective::Constant { .. } => 0,
        }
    }

    /// The literal at place `i` with its weight in internal units.
    pub fn lit_at(&self, i: usize) -> (e: (Lit, usize))
        requires
            i < self.spec_iter().len(),
        ensures
            e == self.spec_iter()[i as int],
    {
        match self {
            Objective::Weighted { lits, .. } => lits[i],
            Objective::Unweighted { lits, .. } => (lits[i], 1),
            Objective::Constant { .. } => (Lit { code: 0 }, 0),
        }
    }

    /// All literals with their weights in internal units.
    pub fn iter(&self) -> (v: Vec<(Lit, usize)>)
        ensures
            v@ == self.spec_iter(),
    {
        let n = self.n_lits();
        let mut v: Vec<(Lit, usize)> = Vec::new();
        let mut i: usize = 0;
        while i < n
            invariant
                i <= n,
                n == self.spec_iter().len(),
                v@ == self.spec_iter().subrange(0, i as int),
            decreases n - i,
        {
            v.push(self.lit_at(i));
            assert(self.spec_iter().subrange(0, i as int).push(self.spec_iter()[i as int])
                =~= self.spec_iter().subrange(0, i + 1));
            i += 1;
        }
        assert(self.spec_iter().subrange(0, n as int) =~= self.spec_iter());
        v
    }

    /// The internal cost of `sol`.
    pub fn eval_internal(&self, sol: &Assignment) -> (c: usize)
        requires
            self.wf(),
        ensures
            c == self.internal_cost(sol@),
            c <= self.max_internal(),
    {
        match self {
            Objective::Weighted { lits, .. } => {
                let mut c: usize = 0;
                let mut i: usize = 0;
                while i < lits.len()
                    invariant
                        i <= lits@.len(),
                        c == weighted_cost(lits@.subrange(0, i as int), sol@),
                        total_weight(lits@) <= usize::MAX,
                    decreases lits.len() - i,
                {
                    proof {
                        assert(lits@.subrange(0, i + 1).drop_last() =~= lits@.subrange(0, i as int));
                        lemma_cost_le_total(lits@.subrange(0, i + 1), sol@);
                        lemma_total_weight_prefix(lits@, i + 1);
                    }
                    if sol.lit_value(lits[i].0) == TernaryVal::True {
                        c = c + lits[i].1;
                    }
                    i += 1;
                }
                proof {
                    assert(lits@.subrange(0, lits@.len() as int) =~= lits@);
                    lemma_cost_le_total(lits@, sol@);
                }
                c
            },
            Objective::Unweighted { lits, .. } => {
                let mut c: usize = 0;
                let mut i: usize = 0;
                while i < lits.len()
                    invariant
                        i <= lits@.len(),
                        c == count_true(lits@.subrange(0, i as int), sol@),
                        c <= i,
                    decreases lits.len() - i,
                {
                    proof {
                        assert(lits@.subrange(0, i + 1).drop_last() =~= lits@.subrange(0, i as int));
                    }
                    if sol.lit_value(lits[i]) == TernaryVal::True {
                        c = c + 1;
                    }
                    i += 1;
                }
                proof {
                    assert(lits@.subrange(0, lits@.len() as int) =~= lits@);
                }
                c
            },
            Objective::Constant { .. } => 0,
        }
    }

    /// Turns an internal cost into the external one.
    pub fn externalize(&self, cost: usize) -> (e: isize)
        requires
            self.wf(),
            cost <= self.max_internal(),
        ensures
            e == self.externalized(cost as int),
    {
        match self {
            Objective::Weighted { offset, .. } => {
                assert(1 * (cost as int) == cost) by (nonlinear_arith);
                ((*offset as i128) + (cost as i128)) as isize
            },
            Objective::Unweighted { offset, unit_weight, lits } => {
                assert(unit_weight * cost <= unit_weight * lits@.len()) by (nonlinear_arith)
                    requires
                        cost <= lits@.len(),
                ;
                assert(0 <= unit_weight * cost) by (nonlinear_arith);
                let m: i128 = (*unit_weight as i128) * (cost as i128);
                ((*offset as i128) + m) as isize
            },
            Objective::Constant { offset } => {
                assert(1 * (cost as int) == cost) by (nonlinear_arith);
                *offset
            },
        }
    }

    /// The external cost of `sol`.
    pub fn eval(&self, sol: &Assignment) -> (e: isize)
        requires
            self.wf(),
        ensures
            e == self.external_cost(sol@),
    {
        let c = self.eval_internal(sol);
        self.externalize(c)
    }
}

/// Two assignments that agree on the literals of a list give it the same
/// cost.
pub proof fn lemma_weighted_cost_agree(s: Seq<(Lit, usize)>, a: Seq<TernaryVal>, b: Seq<TernaryVal>)
    requires
        forall|i: int| 0 <= i < s.len() ==> lit_true(a, (#[trigger] s[i]).0) == lit_true(b, s[i].0),
    ensures
        weighted_cost(s, a) == weighted_cost(s, b),
    decreases s.len(),
{
    if s.len() > 0 {
        let t = s.drop_last();
        assert forall|i: int| 0 <= i < t.len() implies lit_true(a, (#[trigger] t[i]).0) == lit_true(
            b,
            t[i].0,
        ) by {
            assert(t[i] == s[i]);
        }
        lemma_weighted_cost_agree(t, a, b);
        assert(s[s.len() - 1] == s.last());
    }
}

/// Where `b` makes no literal of the list true that `a` makes false, the
/// list costs no more under `b` than under `a`.
pub proof fn lemma_weighted_cost_mono(s: Seq<(Lit, usize)>, a: Seq<TernaryVal>, b: Seq<TernaryVal>)
    requires
        forall|i: int| 0 <= i < s.len() ==>
            (lit_true(b, (#[trigger] s[i]).0) ==> lit_true(a, s[i].0)),
    ensures
        weighted_cost(s, b) <= weighted_cost(s, a),
    decreases s.len(),
{
    if s.len() > 0 {
        let t = s.drop_last();
        assert forall|i: int| 0 <= i < t.len() && lit_true(b, (#[trigger] t[i]).0) implies lit_true(
            a,
            t[i].0,
        ) by {
            assert(t[i] == s[i]);
        }
        lemma_weighted_cost_mono(t, a, b);
        assert(s[s.len() - 1] == s.last());
    }
}

/// The internal cost of an objective is the cost of its literals in
/// internal units.
pub proof fn lemma_internal_cost_is_weighted(obj: Objective, a: Seq<TernaryVal>)
    ensures
        obj.internal_cost(a) == weighted_cost(obj.spec_iter(), a),
{
    match obj {
        Objective::Weighted { .. } => {},
        Objective::Unweighted { lits, .. } => {
            lemma_uniform(obj.spec_iter(), 1, a);
            assert(lits_of(obj.spec_iter()) =~= lits@);
        },
        Objective::Constant { .. } => {},
    }
}

/// Two assignments that agree on the literals of an objective give it the
/// same cost.
pub proof fn lemma_cost_agree(obj: Objective, a: Seq<TernaryVal>, b: Seq<TernaryVal>)
    requires
        forall|i: int|
            0 <= i < obj.spec_iter().len() ==> lit_true(a, (#[trigger] obj.spec_iter()[i]).0)
                == lit_true(b, obj.spec_iter()[i].0),
    ensures
        obj.internal_cost(a) == obj.internal_cost(b),
        obj.external_cost(a) == obj.external_cost(b),
{
    lemma_internal_cost_is_weighted(obj, a);
    lemma_internal_cost_is_weighted(obj, b);
    lemma_weighted_cost_agree(obj.spec_iter(), a, b);
}

/// The external cost of an assignment is the offset plus the weights of
/// the literals that the assignment makes true.
pub proof fn lemma_external_cost_is_sum(obj: Objective, a: Seq<TernaryVal>)
    ensures
        obj.external_cost(a) == obj.spec_offset() + weighted_cost(obj.spec_weighted(), a),
{
    match obj {
        Objective::Weighted { lits, .. } => {
            assert(1 * (weighted_cost(lits@, a) as int) == weighted_cost(lits@, a)) by (nonlinear_arith);
        },
        Objective::Unweighted { lits, unit_weight, .. } => {
            lemma_uniform(obj.spec_weighted(), unit_weight, a);
            assert(lits_of(obj.spec_weighted()) =~= lits@);
        },
        Objective::Constant { .. } => {
            assert(1 * 0 == 0);
        },
    }
}

/// Turning an internal cost into the external one and back gives the cost
/// again.
pub proof fn lemma_externalize_round_trip(obj: Objective, c: int)
    requires
        obj.wf(),
    ensures
        obj.internalized(obj.externalized(c)) == c,
{
    let u = obj.spec_unit() as int;
    assert(u > 0);
    assert((u * c) / u == c) by (nonlinear_arith)
        requires
            u > 0,
    ;
}

} // verus!
