//! Variables, literals, clauses and assignments.
//!
//! A literal is kept as one `u32`: twice the index of its variable, plus one
//! when it is negated. Every `u32` is a literal, and the two literals of a
//! variable are neighbours.

use vstd::prelude::*;

verus! {

/// The highest index a variable can have.
pub const MAX_VAR_IDX: u32 = 2147483647;

/// A Boolean variable, named by its index.
#[derive(Clone, Copy, PartialEq, Eq, Structural, Debug, Hash)]
pub struct Var {
    pub idx: u32,
}

impl Var {
    /// A variable is well formed when its index can be doubled in a `u32`.
    pub open spec fn wf(self) -> bool {
        self.idx <= MAX_VAR_IDX
    }

    pub fn new(idx: u32) -> (v: Var)
        requires
            idx <= MAX_VAR_IDX,
        ensures
            v.idx == idx,
            v.wf(),
    {
        Var { idx }
    }

    pub fn idx(self) -> (i: u32)
        ensures
            i == self.idx,
    {
        self.idx
    }

    pub fn pos_lit(self) -> (l: Lit)
        requires
            self.wf(),
        ensures
            l == Lit::spec_new(self.idx, false),
    {
        Lit { code: self.idx * 2 }
    }

    pub fn neg_lit(self) -> (l: Lit)
        requires
            self.wf(),
        ensures
            l == Lit::spec_new(self.idx, true),
    {
        Lit { code: self.idx * 2 + 1 }
    }
}

/// A variable or its negation.
#[derive(Clone, Copy, PartialEq, Eq, Structural, Debug, Hash)]
pub struct Lit {
    pub code: u32,
}

impl Lit {
    pub open spec fn spec_new(idx: u32, negated: bool) -> Lit {
        Lit {
            code: if negated {
                (idx * 2 + 1) as u32
            } else {
                (idx * 2) as u32
            },
        }
    }

    /// The index of the literal's variable.
    pub open spec fn spec_vidx(self) -> u32 {
        self.code / 2
    }

    pub open spec fn spec_is_neg(self) -> bool {
        self.code % 2 == 1
    }

    /// The literal of the same variable with the opposite polarity.
    pub open spec fn spec_not(self) -> Lit {
        Lit {
            code: if self.code % 2 == 0 {
                (self.code + 1) as u32
            } else {
                (self.code - 1) as u32
            },
        }
    }

    pub fn new(idx: u32, negated: bool) -> (l: Lit)
        requires
            idx <= MAX_VAR_IDX,
        ensures
            l == Lit::spec_new(idx, negated),
            l.spec_vidx() == idx,
            l.spec_is_neg() == negated,
    {
        if negated {
            Lit { code: idx * 2 + 1 }
        } else {
            Lit { code: idx * 2 }
        }
    }

    pub fn positive(idx: u32) -> (l: Lit)
        requires
            idx <= MAX_VAR_IDX,
        ensures
            l == Lit::spec_new(idx, false),
    {
        Lit { code: idx * 2 }
    }

    pub fn negative(idx: u32) -> (l: Lit)
        requires
            idx <= MAX_VAR_IDX,
        ensures
            l == Lit::spec_new(idx, true),
    {
        Lit { code: idx * 2 + 1 }
    }

    pub fn vidx(self) -> (i: u32)
        ensures
            i == self.spec_vidx(),
            i <= MAX_VAR_IDX,
    {
        self.code / 2
    }

    pub fn var(self) -> (v: Var)
        ensures
            v.idx == self.spec_vidx(),
            v.wf(),
    {
        Var { idx: self.code / 2 }
    }

    pub fn is_neg(self) -> (b: bool)
        ensures
            b == self.spec_is_neg(),
    {
        self.code % 2 == 1
    }

    pub fn is_pos(self) -> (b: bool)
        ensures
            b == !self.spec_is_neg(),
    {
        self.code % 2 == 0
    }

    /// Negates the literal.
    pub fn not(self) -> (l: Lit)
        ensures
            l == self.spec_not(),
            l.spec_vidx() == self.spec_vidx(),
            l.spec_is_neg() == !self.spec_is_neg(),
            l.spec_not() == self,
    {
        if self.code % 2 == 0 {
            Lit { code: self.code + 1 }
        } else {
            Lit { code: self.code - 1 }
        }
    }
}

/// Negating twice gives the literal back, and a literal differs from its
/// negation.
pub proof fn lemma_not_involutive(l: Lit)
    ensures
        l.spec_not().spec_not() == l,
        l.spec_not() != l,
        l.spec_not().spec_vidx() == l.spec_vidx(),
        l.spec_not().spec_is_neg() == !l.spec_is_neg(),
{
}

/// What an assignment says of a variable or a literal.
#[derive(Clone, Copy, PartialEq, Eq, Structural, Debug)]
pub enum TernaryVal {
    True,
    False,
    DontCare,
}

impl TernaryVal {
    pub open spec fn spec_flip(self) -> TernaryVal {
        match self {
            TernaryVal::True => TernaryVal::False,
            TernaryVal::False => TernaryVal::True,
            TernaryVal::DontCare => TernaryVal::DontCare,
        }
    }

    pub fn flip(self) -> (r: TernaryVal)
        ensures
            r == self.spec_flip(),
    {
        match self {
            TernaryVal::True => TernaryVal::False,
            TernaryVal::False => TernaryVal::True,
            TernaryVal::DontCare => TernaryVal::DontCare,
        }
    }
}

/// The value of variable `idx` under the values `a`: what `a` holds at
/// `idx`, and `DontCare` beyond its end.
pub open spec fn var_value(a: Seq<TernaryVal>, idx: int) -> TernaryVal {
    if 0 <= idx < a.len() {
        a[idx]
    } else {
        TernaryVal::DontCare
    }
}

/// The value of a literal: that of its variable, flipped when the literal is
/// negated.
pub open spec fn lit_value(a: Seq<TernaryVal>, l: Lit) -> TernaryVal {
    if l.spec_is_neg() {
        var_value(a, l.spec_vidx() as int).spec_flip()
    } else {
        var_value(a, l.spec_vidx() as int)
    }
}

pub open spec fn lit_true(a: Seq<TernaryVal>, l: Lit) -> bool {
    lit_value(a, l) == TernaryVal::True
}

/// The values `a` after literal `l` was made true: `a` is padded with
/// `DontCare` up to the variable of `l` where it is shorter.
pub open spec fn assign(a: Seq<TernaryVal>, l: Lit) -> Seq<TernaryVal> {
    let idx = l.spec_vidx() as int;
    let val = if l.spec_is_neg() {
        TernaryVal::False
    } else {
        TernaryVal::True
    };
    Seq::new(
        if idx < a.len() {
            a.len()
        } else {
            (idx + 1) as nat
        },
        |i: int|
            if i == idx {
                val
            } else {
                var_value(a, i)
            },
    )
}

/// Assigning a literal makes it true and leaves every other variable as it
/// was.
pub proof fn lemma_assign(a: Seq<TernaryVal>, l: Lit)
    ensures
        lit_true(assign(a, l), l),
        lit_value(assign(a, l), l.spec_not()) == TernaryVal::False,
        forall|i: int| i != l.spec_vidx() ==> var_value(assign(a, l), i) == var_value(a, i),
        forall|m: Lit|
            m.spec_vidx() != l.spec_vidx() ==> lit_value(assign(a, l), m) == lit_value(a, m),
        assign(a, l).len() >= a.len(),
{
}

/// The literals that `a` makes true among the first `n` variables, by
/// rising variable.
pub open spec fn true_lits(a: Seq<TernaryVal>, n: int) -> Seq<Lit>
    decreases n,
{
    if n <= 0 {
        Seq::empty()
    } else {
        let rest = true_lits(a, n - 1);
        match a[n - 1] {
            TernaryVal::True => rest.push(Lit::spec_new((n - 1) as u32, false)),
            TernaryVal::False => rest.push(Lit::spec_new((n - 1) as u32, true)),
            TernaryVal::DontCare => rest,
        }
    }
}

/// A partial assignment: one value for each of the first `len` variables.
#[derive(Clone, PartialEq, Eq, Debug)]
pub struct Assignment {
    pub vals: Vec<TernaryVal>,
}

impl View for Assignment {
    type V = Seq<TernaryVal>;

    open spec fn view(&self) -> Seq<TernaryVal> {
        self.vals@
    }
}

impl Assignment {
    /// The assignment that says nothing.
    pub fn empty() -> (a: Assignment)
        ensures
            a@ == Seq::<TernaryVal>::empty(),
    {
        Assignment { vals: Vec::new() }
    }

    pub fn from_vec(vals: Vec<TernaryVal>) -> (a: Assignment)
        ensures
            a@ == vals@,
    {
        Assignment { vals }
    }

    pub fn len(&self) -> (n: usize)
        ensures
            n == self@.len(),
    {
        self.vals.len()
    }

    pub fn is_empty(&self) -> (b: bool)
        ensures
            b == (self@.len() == 0),
    {
        self.vals.len() == 0
    }

    pub fn var_value(&self, var: Var) -> (v: TernaryVal)
        ensures
            v == var_value(self@, var.idx as int),
    {
        let idx = var.idx as usize;
        if idx < self.vals.len() {
            self.vals[idx]
        } else {
            TernaryVal::DontCare
        }
    }

    pub fn lit_value(&self, lit: Lit) -> (v: TernaryVal)
        ensures
            v == lit_value(self@, lit),
    {
        let v = self.var_value(lit.var());
        if lit.is_neg() {
            v.flip()
        } else {
            v
        }
    }

    /// A copy of the assignment.
    pub fn duplicate(&self) -> (a: Assignment)
        ensures
            a@ == self@,
    {
        let mut vals: Vec<TernaryVal> = Vec::new();
        let mut i: usize = 0;
        while i < self.vals.len()
            invariant
                i <= self.vals@.len(),
                vals@ == self.vals@.subrange(0, i as int),
            decreases self.vals.len() - i,
        {
            vals.push(self.vals[i]);
            assert(self.vals@.subrange(0, i as int).push(self.vals@[i as int]) =~= self.vals@.subrange(
                0,
                i as int + 1,
            ));
            i += 1;
        }
        assert(self.vals@.subrange(0, self.vals@.len() as int) =~= self.vals@);
        Assignment { vals }
    }

    /// The literals that the assignment makes true, by rising variable.
    /// Variables above the highest index that a variable can have are left
    /// out.
    pub fn iter(&self) -> (lits: Vec<Lit>)
        ensures
            self@.len() <= MAX_VAR_IDX + 1 ==> lits@ == true_lits(self@, self@.len() as int),
    {
        let mut lits: Vec<Lit> = Vec::new();
        let n = if self.vals.len() <= MAX_VAR_IDX as usize + 1 {
            self.vals.len()
        } else {
            MAX_VAR_IDX as usize + 1
        };
        let mut i: usize = 0;
        while i < n
            invariant
                i <= n,
                n <= self@.len(),
                n <= MAX_VAR_IDX + 1,
                lits@ == true_lits(self@, i as int),
            decreases n - i,
        {
            match self.vals[i] {
                TernaryVal::True => {
                    lits.push(Lit::new(i as u32, false));
                },
                TernaryVal::False => {
                    lits.push(Lit::new(i as u32, true));
                },
                TernaryVal::DontCare => {},
            }
            i += 1;
        }
        lits
    }

    /// Makes `lit` true.
    pub fn assign_lit(&mut self, lit: Lit)
        ensures
            final(self)@ == assign(old(self)@, lit),
    {
        let idx = lit.vidx() as usize;
        while self.vals.len() <= idx
            invariant
                old(self)@.len() <= self.vals@.len(),
                self.vals@.len() <= idx + 1 || self.vals@.len() == old(self)@.len(),
                forall|i: int| 0 <= i < self.vals@.len() ==>
                    self.vals@[i] == var_value(old(self)@, i),
                idx == lit.spec_vidx(),
            decreases idx + 1 - self.vals.len(),
        {
            self.vals.push(TernaryVal::DontCare);
        }
        let val = if lit.is_neg() {
            TernaryVal::False
        } else {
            TernaryVal::True
        };
        self.vals.set(idx, val);
        assert(self.vals@ =~= assign(old(self)@, lit));
    }

    /// Drops the values of the variables above `max_var`.
    pub fn truncate(self, max_var: Var) -> (a: Assignment)
        ensures
            a@ == truncated(self@, max_var.idx as int),
    {
        let mut vals = self.vals;
        let keep = max_var.idx as usize;
        if keep < vals.len() {
            vals.truncate(keep + 1);
        }
        assert(vals@ =~= truncated(self@, max_var.idx as int));
        Assignment { vals }
    }
}

/// The values `a` cut down to the variables `0 ..= max_idx`.
pub open spec fn truncated(a: Seq<TernaryVal>, max_idx: int) -> Seq<TernaryVal> {
    if 0 <= max_idx < a.len() {
        a.subrange(0, max_idx + 1)
    } else {
        a
    }
}

/// Cutting an assignment down keeps the value of every literal whose variable
/// stays.
pub proof fn lemma_truncated_keeps(a: Seq<TernaryVal>, max_idx: int, l: Lit)
    requires
        0 <= max_idx,
        l.spec_vidx() <= max_idx,
    ensures
        lit_value(truncated(a, max_idx), l) == lit_value(a, l),
{
}

/// A disjunction of literals.
#[derive(Clone, PartialEq, Eq, Debug, Hash)]
pub struct Clause {
    pub lits: Vec<Lit>,
}

impl View for Clause {
    type V = Seq<Lit>;

    open spec fn view(&self) -> Seq<Lit> {
        self.lits@
    }
}

impl Clause {
    pub fn new() -> (c: Clause)
        ensures
            c@ == Seq::<Lit>::empty(),
    {
        Clause { lits: Vec::new() }
    }

    pub fn from_vec(lits: Vec<Lit>) -> (c: Clause)
        ensures
            c@ == lits@,
    {
        Clause { lits }
    }

    pub fn len(&self) -> (n: usize)
        ensures
            n == self@.len(),
    {
        self.lits.len()
    }

    pub fn is_empty(&self) -> (b: bool)
        ensures
            b == (self@.len() == 0),
    {
        self.lits.len() == 0
    }

    pub fn get(&self, i: usize) -> (l: Lit)
        requires
            i < self@.len(),
        ensures
            l == self@[i as int],
    {
        self.lits[i]
    }

    pub fn add(&mut self, lit: Lit)
        ensures
            final(self)@ == old(self)@.push(lit),
    {
        self.lits.push(lit);
    }

    /// A copy of the clause.
    pub fn duplicate(&self) -> (c: Clause)
        ensures
            c@ == self@,
    {
        let mut lits: Vec<Lit> = Vec::new();
        let mut i: usize = 0;
        while i < self.lits.len()
            invariant
                i <= self.lits@.len(),
                lits@ == self.lits@.subrange(0, i as int),
            decreases self.lits.len() - i,
        {
            lits.push(self.lits[i]);
            assert(self.lits@.subrange(0, i as int).push(self.lits@[i as int])
                =~= self.lits@.subrange(0, i as int + 1));
            i += 1;
        }
        assert(self.lits@.subrange(0, self.lits@.len() as int) =~= self.lits@);
        Clause { lits }
    }

    /// Whether the two clauses hold the same literals in the same order.
    pub fn same_lits(&self, other: &Clause) -> (b: bool)
        ensures
            b == (self@ == other@),
    {
        if self.lits.len() != other.lits.len() {
            return false;
        }
        let mut i: usize = 0;
        while i < self.lits.len()
            invariant
                i <= self.lits@.len(),
                self.lits@.len() == other.lits@.len(),
                forall|j: int| 0 <= j < i ==> self.lits@[j] == other.lits@[j],
            decreases self.lits.len() - i,
        {
            if self.lits[i] != other.lits[i] {
                return false;
            }
            i += 1;
        }
        assert(self@ =~= other@);
        true
    }
}

/// Some literal of `c` occurs in `c` with its negation.
pub open spec fn tautology(c: Seq<Lit>) -> bool {
    exists|i: int, j: int|
        0 <= i < c.len() && 0 <= j < c.len() && (#[trigger] c[i]) == (#[trigger] c[j]).spec_not()
}

/// The literals of `c` rise strictly by their code: `c` is sorted and holds
/// no literal twice.
pub open spec fn strictly_sorted(c: Seq<Lit>) -> bool {
    forall|i: int, j: int| 0 <= i < j < c.len() ==> (#[trigger] c[i]).code < (#[trigger] c[j]).code
}

/// `rustsat::types::Clause::normalize`: the clause sorted and without
/// repeated literals, or nothing where the clause holds a literal and its
/// negation.
#[verifier::external_body]
fn clause_normalize(c: Clause) -> (r: Option<Clause>)
    ensures
        r is None <==> tautology(c@),
        r matches Some(n) ==>
            strictly_sorted(n@) && forall|l: Lit| n@.contains(l) <==> c@.contains(l),
{
    let cl: rustsat::types::Clause = c.lits.iter().map(
        |l| rustsat::types::Var::new(l.vidx()).lit(l.is_neg()),
    ).collect();
    let n = cl.normalize()?;
    Some(Clause { lits: n.into_iter().map(|l| Lit::new(l.vidx32(), l.is_neg())).collect() })
}

impl Clause {
    /// The clause sorted and without repeated literals, or nothing where
    /// the clause is a tautology.
    pub fn normalize(self) -> (r: Option<Clause>)
        ensures
            r is None <==> tautology(self@),
            r matches Some(n) ==> strictly_sorted(n@) && forall|l: Lit|
                n@.contains(l) <==> self@.contains(l),
    {
        clause_normalize(self)
    }
}

/// Whether the values `a` make some literal of `c` true.
pub open spec fn clause_sat(a: Seq<TernaryVal>, c: Seq<Lit>) -> bool {
    exists|i: int| 0 <= i < c.len() && lit_true(a, #[trigger] c[i])
}

} // verus!
