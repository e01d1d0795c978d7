//! The index of the objective literals: for each of them the objectives and
//! the stored clauses in which it occurs; and the table of the blocking
//! literals that relax soft clauses.

use std::collections::HashMap;
use vstd::prelude::*;
use vstd::std_specs::hash::*;

use crate::litmap::LitMap;
use crate::types::{Clause, Lit};

verus! {

broadcast use vstd::std_specs::hash::group_hash_axioms;

/// What the index knows of one objective literal.
pub struct ObjLitData {
    /// The objectives that the literal occurs in, once for each occurrence.
    pub objs: Vec<usize>,
    /// Places in the list of stored clauses: the clauses that the literal
    /// occurs in, and the soft clause that it relaxes.
    pub clauses: Vec<usize>,
}

/// The two lists of `ObjLitData` as sequences.
pub struct LitLinks {
    pub objs: Seq<usize>,
    pub clauses: Seq<usize>,
}

/// The index of the objective literals, and the clauses stored with it.
pub struct ObjIndex {
    /// The place of each objective literal in `lits` and `data`.
    pub pos: LitMap,
    /// The objective literals, in the order in which they were registered.
    pub lits: Vec<Lit>,
    /// What is known of each literal of `lits`.
    pub data: Vec<ObjLitData>,
    /// The stored clauses.
    pub clauses: Vec<Clause>,
}

impl View for ObjIndex {
    type V = Map<Lit, LitLinks>;

    open spec fn view(&self) -> Map<Lit, LitLinks> {
        Map::new(
            |l: Lit| self.pos@.contains_key(l),
            |l: Lit|
                LitLinks {
                    objs: self.data@[self.pos@[l] as int].objs@,
                    clauses: self.data@[self.pos@[l] as int].clauses@,
                },
        )
    }
}

impl ObjIndex {
    /// The stored clauses as sequences of literals.
    pub open spec fn stored(self) -> Seq<Seq<Lit>> {
        Seq::new(self.clauses@.len(), |i: int| self.clauses@[i]@)
    }

    /// `pos` maps exactly the literals of `lits`, each to its place, and
    /// `data` runs parallel to `lits`.
    pub open spec fn wf(self) -> bool {
        &&& self.data@.len() == self.lits@.len()
        &&& forall|l: Lit| #[trigger]
            self.pos@.contains_key(l) ==>
                self.pos@[l] < self.lits@.len() && self.lits@[self.pos@[l] as int]
                == l
        &&& forall|i: int| 0 <= i < self.lits@.len() ==>
            self.pos@.contains_key(#[trigger] self.lits@[i])
    }

    /// The index knows all that the index `before` knew: the stored clauses,
    /// the objective literals and their links are still there.
    pub open spec fn grows_from(self, before: ObjIndex) -> bool {
        &&& before.stored().is_prefix_of(self.stored())
        &&& forall|l: Lit| before@.contains_key(l) ==> self@.contains_key(l)
        &&& forall|l: Lit, x: usize|
            before@.contains_key(l) && before@[l].clauses.contains(x) ==>
                #[trigger] self@[l].clauses.contains(
                x,
            )
        &&& forall|l: Lit, x: usize|
            before@.contains_key(l) && before@[l].objs.contains(x) ==>
                #[trigger] self@[l].objs.contains(
                x,
            )
    }

    /// The links of `l`, and empty links where `l` is no objective literal.
    pub open spec fn links(self, l: Lit) -> LitLinks {
        if self@.contains_key(l) {
            self@[l]
        } else {
            LitLinks { objs: Seq::empty(), clauses: Seq::empty() }
        }
    }

    pub fn new() -> (idx: ObjIndex)
        ensures
            idx.wf(),
            idx@ == Map::<Lit, LitLinks>::empty(),
            idx.stored() == Seq::<Seq<Lit>>::empty(),
    {
        let idx = ObjIndex {
            pos: LitMap::new(),
            lits: Vec::new(),
            data: Vec::new(),
            clauses: Vec::new(),
        };
        assert(idx@ =~= Map::<Lit, LitLinks>::empty());
        assert(idx.stored() =~= Seq::<Seq<Lit>>::empty());
        idx
    }

    /// Whether `lit` is an objective literal.
    pub fn contains(&self, lit: Lit) -> (b: bool)
        ensures
            b == self@.contains_key(lit),
    {
        self.pos.contains(lit)
    }

    /// The number of stored clauses.
    pub fn n_clauses(&self) -> (n: usize)
        ensures
            n == self.stored().len(),
    {
        self.clauses.len()
    }

    /// The stored clause at place `i`.
    pub fn clause(&self, i: usize) -> (c: &Clause)
        requires
            i < self.stored().len(),
        ensures
            c@ == self.stored()[i as int],
    {
        &self.clauses[i]
    }

    /// What is known of the objective literal `lit`.
    pub fn data_of(&self, lit: Lit) -> (d: &ObjLitData)
        requires
            self.wf(),
            self@.contains_key(lit),
        ensures
            d.objs@ == self@[lit].objs,
            d.clauses@ == self@[lit].clauses,
    {
        let p = self.pos.get(lit).unwrap();
        &self.data[p]
    }

    /// Notes that `lit` occurs in objective `obj`, and makes `lit` an
    /// objective literal where it was none.
    pub fn register(&mut self, lit: Lit, obj: usize)
        requires
            old(self).wf(),
        ensures
            final(self).wf(),
            final(self).stored() == old(self).stored(),
            final(self)@ == old(self)@.insert(
                lit,
                LitLinks {
                    objs: old(self).links(lit).objs.push(obj),
                    clauses: old(self).links(lit).clauses,
                },
            ),
            final(self).grows_from(*old(self)),
            final(self)@[lit].objs.contains(obj),
    {
        match self.pos.get(lit) {
            Some(p) => {
                self.data[p].objs.push(obj);
            },
            None => {
                let p = self.lits.len();
                self.pos.insert(lit, p);
                self.lits.push(lit);
                let mut objs: Vec<usize> = Vec::new();
                objs.push(obj);
                self.data.push(ObjLitData { objs, clauses: Vec::new() });
                assert(Seq::<usize>::empty().push(obj) =~= objs@);
            },
        }
        assert(self@ =~= old(self)@.insert(
            lit,
            LitLinks {
                objs: old(self).links(lit).objs.push(obj),
                clauses: old(self).links(lit).clauses,
            },
        ));
        assert(self.stored() =~= old(self).stored());
        proof {
            let pushed = old(self).links(lit).objs.push(obj);
            assert(pushed[pushed.len() - 1] == obj);
            assert forall|l: Lit, x: usize|
                old(self)@.contains_key(l) && old(self)@[l].objs.contains(x) implies
                    #[trigger] self@[l].objs.contains(
                x,
            ) by {
                if l == lit {
                    let i = choose|i: int|
                        0 <= i < old(self)@[l].objs.len() && old(self)@[l].objs[i] == x;
                    assert(pushed[i] == x);
                }
            }
        }
    }

    /// Notes that the objective literal `lit` has to do with the stored
    /// clause at place `clause`.
    pub fn link(&mut self, lit: Lit, clause: usize)
        requires
            old(self).wf(),
            old(self)@.contains_key(lit),
        ensures
            final(self).wf(),
            final(self).stored() == old(self).stored(),
            final(self)@ == old(self)@.insert(
                lit,
                LitLinks { objs: old(self)@[lit].objs, clauses: old(self)@[lit].clauses.push(clause) },
            ),
            final(self).grows_from(*old(self)),
            final(self)@.dom() == old(self)@.dom(),
            final(self)@[lit].clauses.contains(clause),
    {
        let p = self.pos.get(lit).unwrap();
        self.data[p].clauses.push(clause);
        assert(self@ =~= old(self)@.insert(
            lit,
            LitLinks { objs: old(self)@[lit].objs, clauses: old(self)@[lit].clauses.push(clause) },
        ));
        assert(self.stored() =~= old(self).stored());
        proof {
            assert(self@.dom() =~= old(self)@.dom());
            let pushed = old(self)@[lit].clauses.push(clause);
            assert(pushed[pushed.len() - 1] == clause);
            assert forall|l: Lit, x: usize|
                old(self)@.contains_key(l) && old(self)@[l].clauses.contains(x) implies
                    #[trigger] self@[l].clauses.contains(
                x,
            ) by {
                if l == lit {
                    let i = choose|i: int|
                        0 <= i < old(self)@[l].clauses.len() && old(self)@[l].clauses[i] == x;
                    assert(pushed[i] == x);
                }
            }
        }
    }

    /// Stores a clause and returns its place.
    pub fn store(&mut self, clause: Clause) -> (at: usize)
        requires
            old(self).wf(),
        ensures
            final(self).wf(),
            final(self)@ == old(self)@,
            final(self).stored() == old(self).stored().push(clause@),
            final(self).grows_from(*old(self)),
            at == old(self).stored().len(),
    {
        let at = self.clauses.len();
        self.clauses.push(clause);
        assert(self@ =~= old(self)@);
        assert(self.stored() =~= old(self).stored().push(clause@));
        at
    }
}

/// Some link is to place `k`.
pub open spec fn linked_to(links: Seq<usize>, k: int) -> bool {
    exists|p: int| 0 <= p < links.len() && (#[trigger] links[p]) == k
}

/// Every objective literal of the stored clause at place `k` is linked to
/// that place.
pub open spec fn clause_linked(index: ObjIndex, k: int) -> bool {
    forall|j: int|
        0 <= j < index.stored()[k].len() && index@.contains_key(#[trigger] index.stored()[k][j])
            ==> linked_to(index@[index.stored()[k][j]].clauses, k)
}

/// Every objective literal is linked to all stored clauses that hold it.
pub open spec fn links_complete(index: ObjIndex) -> bool {
    forall|k: int| 0 <= k < index.stored().len() ==> #[trigger] clause_linked(index, k)
}

/// The clauses of the table are the first stored clauses, and each
/// blocking literal is an objective literal that is linked to its clause.
pub open spec fn blits_linked(index: ObjIndex, blits: Seq<(Seq<Lit>, Lit)>) -> bool {
    &&& blits.len() <= index.stored().len()
    &&& forall|k: int|
        0 <= k < blits.len() ==> {
            &&& index.stored()[k] == (#[trigger] blits[k]).0
            &&& index@.contains_key(blits[k].1)
            &&& linked_to(index@[blits[k].1].clauses, k)
        }
}

/// Whether some literal of the clause is an objective literal.
pub open spec fn mentions(index: ObjIndex, c: Seq<Lit>) -> bool {
    exists|j: int| 0 <= j < c.len() && index@.contains_key(#[trigger] c[j])
}

/// Whether the clause is among the stored ones.
pub open spec fn is_stored(index: ObjIndex, c: Seq<Lit>) -> bool {
    exists|k: int| 0 <= k < index.stored().len() && #[trigger] index.stored()[k] == c
}

/// Every clause of `hard` that holds an objective literal is stored.
pub open spec fn hard_kept(index: ObjIndex, hard: Seq<Seq<Lit>>) -> bool {
    forall|i: int| 0 <= i < hard.len() && mentions(index, #[trigger] hard[i]) ==>
        is_stored(index, hard[i])
}

/// The index is complete for the hard clauses `hard` and the soft clauses
/// of the table `blits`: whatever clause holds an objective literal, or is
/// relaxed by one, is stored and linked to that literal.
pub open spec fn index_complete(
    index: ObjIndex,
    blits: Seq<(Seq<Lit>, Lit)>,
    hard: Seq<Seq<Lit>>,
) -> bool {
    &&& links_complete(index)
    &&& blits_linked(index, blits)
    &&& hard_kept(index, hard)
}

/// An index that grew from one that grew from a third grew from the third.
pub proof fn lemma_grows_trans(c: ObjIndex, b: ObjIndex, a: ObjIndex)
    requires
        c.grows_from(b),
        b.grows_from(a),
    ensures
        c.grows_from(a),
{
    let sa = a.stored();
    let sb = b.stored();
    let sc = c.stored();
    assert(sa =~= sc.subrange(0, sa.len() as int)) by {
        assert forall|i: int| 0 <= i < sa.len() implies sa[i] == sc[i] by {
            assert(sa[i] == sb.subrange(0, sa.len() as int)[i]);
            assert(sb[i] == sc.subrange(0, sb.len() as int)[i]);
        }
    }
    assert forall|l: Lit, x: usize|
        a@.contains_key(l) && a@[l].clauses.contains(x) implies
            #[trigger] c@[l].clauses.contains(x) by {
        assert(b@[l].clauses.contains(x));
    }
    assert forall|l: Lit, x: usize|
        a@.contains_key(l) && a@[l].objs.contains(x) implies #[trigger] c@[l].objs.contains(x) by {
        assert(b@[l].objs.contains(x));
    }
}

/// A link that is there stays when the index grows.
pub proof fn lemma_grows_keeps_link(b: ObjIndex, a: ObjIndex, l: Lit, k: int)
    requires
        b.grows_from(a),
        a@.contains_key(l),
        linked_to(a@[l].clauses, k),
    ensures
        b@.contains_key(l),
        linked_to(b@[l].clauses, k),
{
    let p = choose|p: int| 0 <= p < a@[l].clauses.len() && (#[trigger] a@[l].clauses[p]) == k;
    let x = a@[l].clauses[p];
    assert(a@[l].clauses.contains(x));
    assert(b@[l].clauses.contains(x));
    let q = choose|q: int| 0 <= q < b@[l].clauses.len() && b@[l].clauses[q] == x;
    assert(b@[l].clauses[q] == k);
}

/// A stored clause whose objective literals are linked to it keeps them
/// linked when the index grows without new objective literals.
pub proof fn lemma_grows_keeps_linked(b: ObjIndex, a: ObjIndex, k: int)
    requires
        b.grows_from(a),
        b@.dom() == a@.dom(),
        0 <= k < a.stored().len(),
        clause_linked(a, k),
    ensures
        clause_linked(b, k),
{
    assert(b.stored()[k] == a.stored()[k]) by {
        assert(a.stored()[k] == b.stored().subrange(0, a.stored().len() as int)[k]);
    }
    assert forall|j: int|
        0 <= j < b.stored()[k].len() && b@.contains_key(#[trigger] b.stored()[k][j]) implies
            linked_to(
        b@[b.stored()[k][j]].clauses,
        k,
    ) by {
        let l = a.stored()[k][j];
        assert(a@.dom().contains(l));
        lemma_grows_keeps_link(b, a, l, k);
    }
}

/// The blocking literals stay linked to their clauses when the index
/// grows.
pub proof fn lemma_grows_keeps_blits(b: ObjIndex, a: ObjIndex, blits: Seq<(Seq<Lit>, Lit)>)
    requires
        b.grows_from(a),
        blits_linked(a, blits),
    ensures
        blits_linked(b, blits),
{
    assert forall|k: int| 0 <= k < blits.len() implies {
        &&& b.stored()[k] == (#[trigger] blits[k]).0
        &&& b@.contains_key(blits[k].1)
        &&& linked_to(b@[blits[k].1].clauses, k)
    } by {
        assert(a.stored()[k] == b.stored().subrange(0, a.stored().len() as int)[k]);
        lemma_grows_keeps_link(b, a, blits[k].1, k);
    }
}

/// The number by which the hashes of clauses are reduced.
pub const HASH_MODULUS: u64 = 4294967291;

/// A hash of the literals of a clause, in their order.
pub open spec fn clause_hash(c: Seq<Lit>) -> u64
    decreases c.len(),
{
    if c.len() == 0 {
        7
    } else {
        ((clause_hash(c.drop_last()) * 31 + c.last().code) % (HASH_MODULUS as int)) as u64
    }
}

/// Computes the hash of a clause.
fn hash_clause(c: &Clause) -> (h: u64)
    ensures
        h == clause_hash(c@),
{
    let mut h: u64 = 7;
    let mut i: usize = 0;
    while i < c.len()
        invariant
            i <= c@.len(),
            h == clause_hash(c@.subrange(0, i as int)),
            h < HASH_MODULUS,
        decreases c@.len() - i,
    {
        proof {
            assert(c@.subrange(0, i + 1).drop_last() =~= c@.subrange(0, i as int));
            assert(c@.subrange(0, i + 1).last() == c@[i as int]);
        }
        h = (h * 31 + (c.get(i).code as u64)) % HASH_MODULUS;
        i += 1;
    }
    proof {
        assert(c@.subrange(0, c@.len() as int) =~= c@);
    }
    h
}

/// Whether entry `i` is met on the way from entry `from` along the links
/// of `prev`.
pub open spec fn in_chain(prev: Seq<Option<usize>>, from: int, i: int) -> bool
    decreases from,
{
    if from < 0 || from >= prev.len() {
        false
    } else if from == i {
        true
    } else {
        match prev[from] {
            Some(p) => p < from && in_chain(prev, p as int, i),
            None => false,
        }
    }
}

/// A chain stays what it is when an entry is added.
pub proof fn lemma_chain_push(prev: Seq<Option<usize>>, e: Option<usize>, from: int, i: int)
    requires
        in_chain(prev, from, i),
    ensures
        in_chain(prev.push(e), from, i),
    decreases from,
{
    if from != i {
        match prev[from] {
            Some(p) => {
                lemma_chain_push(prev, e, p as int, i);
            },
            None => {},
        }
    }
}

/// The soft clauses that were relaxed, each with its blocking literal. No
/// clause has two entries. The entries are found by the hash of their
/// clause: the entries with one hash form a chain.
pub struct BlitTable {
    /// The clauses with their blocking literals, in the order in which
    /// they were entered.
    pub entries: Vec<(Clause, Lit)>,
    /// For each hash the last entry with that hash.
    pub heads: HashMap<u64, usize>,
    /// For each entry the entry before it with the same hash.
    pub prev: Vec<Option<usize>>,
}

impl View for BlitTable {
    type V = Seq<(Seq<Lit>, Lit)>;

    open spec fn view(&self) -> Seq<(Seq<Lit>, Lit)> {
        Seq::new(self.entries@.len(), |i: int| (self.entries@[i].0@, self.entries@[i].1))
    }
}

/// No clause has two entries in the table.
pub open spec fn distinct_keys(table: Seq<(Seq<Lit>, Lit)>) -> bool {
    forall|i: int, j: int|
        0 <= i < j < table.len() ==> (#[trigger] table[i]).0 != (#[trigger] table[j]).0
}

/// Whether the table has an entry for the clause.
pub open spec fn has_blit(table: Seq<(Seq<Lit>, Lit)>, clause: Seq<Lit>) -> bool {
    exists|i: int| 0 <= i < table.len() && (#[trigger] table[i]).0 == clause
}

/// The first place at which the table has an entry for the clause.
pub open spec fn blit_place(table: Seq<(Seq<Lit>, Lit)>, clause: Seq<Lit>) -> int
    decreases table.len(),
{
    if table.len() == 0 {
        -1
    } else if has_blit(table.drop_last(), clause) {
        blit_place(table.drop_last(), clause)
    } else if table.last().0 == clause {
        table.len() - 1
    } else {
        -1
    }
}

pub proof fn lemma_blit_place(table: Seq<(Seq<Lit>, Lit)>, clause: Seq<Lit>)
    ensures
        has_blit(table, clause) ==>
            0 <= blit_place(table, clause) < table.len() && table[blit_place(
            table,
            clause,
        )].0 == clause,
        has_blit(table, clause) ==> forall|j: int|
            0 <= j < blit_place(table, clause) ==> (#[trigger] table[j]).0 != clause,
        !has_blit(table, clause) ==> blit_place(table, clause) == -1,
    decreases table.len(),
{
    if table.len() > 0 {
        let t = table.drop_last();
        lemma_blit_place(t, clause);
        if has_blit(t, clause) {
            let i = choose|i: int| 0 <= i < t.len() && (#[trigger] t[i]).0 == clause;
            assert(table[i].0 == clause);
            assert forall|j: int| 0 <= j < blit_place(table, clause) implies (#[trigger] table[j]).0
                != clause by {
                assert(t[j].0 != clause);
            }
        } else if table.last().0 == clause {
            assert(table[table.len() - 1].0 == clause);
            assert forall|j: int| 0 <= j < table.len() - 1 implies (#[trigger] table[j]).0
                != clause by {
                assert(t[j] == table[j]);
            }
        } else {
            if has_blit(table, clause) {
                let i = choose|i: int| 0 <= i < table.len() && (#[trigger] table[i]).0 == clause;
                assert(t[i].0 == clause);
            }
        }
    }
}

impl BlitTable {
    /// Every entry is on the chain of its hash, and no clause has two
    /// entries.
    pub open spec fn wf(self) -> bool {
        &&& self.prev@.len() == self.entries@.len()
        &&& forall|i: int|
            0 <= i < self.prev@.len() ==> ((#[trigger] self.prev@[i]) matches Some(p) ==> p < i)
        &&& forall|h: u64| #[trigger]
            self.heads@.contains_key(h) ==> self.heads@[h] < self.entries@.len()
        &&& forall|i: int|
            0 <= i < self@.len() ==> self.heads@.contains_key(clause_hash((#[trigger] self@[i]).0))
                && in_chain(self.prev@, self.heads@[clause_hash(self@[i].0)] as int, i)
        &&& distinct_keys(self@)
    }

    pub fn new() -> (t: BlitTable)
        ensures
            t@ == Seq::<(Seq<Lit>, Lit)>::empty(),
            t.wf(),
    {
        let t = BlitTable { entries: Vec::new(), heads: HashMap::new(), prev: Vec::new() };
        assert(t@ =~= Seq::<(Seq<Lit>, Lit)>::empty());
        t
    }

    pub fn len(&self) -> (n: usize)
        ensures
            n == self@.len(),
    {
        self.entries.len()
    }

    /// The blocking literal of the entry for `clause`, if there is one.
    pub fn lookup(&self, clause: &Clause) -> (r: Option<Lit>)
        requires
            self.wf(),
        ensures
            has_blit(self@, clause@) ==> r == Some(self@[blit_place(self@, clause@)].1),
            !has_blit(self@, clause@) ==> r.is_none(),
    {
        let h = hash_clause(clause);
        let mut cur: Option<usize> = match self.heads.get(&h) {
            Some(i) => Some(*i),
            None => None,
        };
        loop
            invariant
                self.wf(),
                cur matches Some(i) ==> i < self.entries@.len(),
                forall|j: int|
                    0 <= j < self@.len() && (#[trigger] self@[j]).0 == clause@ ==>
                        (cur matches Some(i)
                        && in_chain(self.prev@, i as int, j)),
            decreases
                    (match cur {
                        Some(i) => i + 1,
                        None => 0,
                    }),
        {
            match cur {
                None => {
                    return None;
                },
                Some(i) => {
                    if self.entries[i].0.same_lits(clause) {
                        proof {
                            assert(self@[i as int].0 == clause@);
                            lemma_blit_place(self@, clause@);
                        }
                        return Some(self.entries[i].1);
                    }
                    proof {
                        assert(self@[i as int].0 != clause@);
                    }
                    cur = self.prev[i];
                },
            }
        }
    }

    /// Adds an entry for a clause that has none.
    pub fn insert(&mut self, clause: Clause, blit: Lit)
        requires
            old(self).wf(),
            !has_blit(old(self)@, clause@),
        ensures
            final(self).wf(),
            final(self)@ == old(self)@.push((clause@, blit)),
    {
        let h = hash_clause(&clause);
        let before = match self.heads.get(&h) {
            Some(i) => Some(*i),
            None => None,
        };
        let at = self.entries.len();
        self.prev.push(before);
        self.heads.insert(h, at);
        self.entries.push((clause, blit));
        proof {
            assert(self@ =~= old(self)@.push((clause@, blit)));
            assert forall|i: int| 0 <= i < self@.len() implies self.heads@.contains_key(
                clause_hash((#[trigger] self@[i]).0),
            ) && in_chain(self.prev@, self.heads@[clause_hash(self@[i].0)] as int, i) by {
                if i < at {
                    assert(self@[i] == old(self)@[i]);
                    let hi = clause_hash(self@[i].0);
                    assert(in_chain(old(self).prev@, old(self).heads@[hi] as int, i));
                    lemma_chain_push(old(self).prev@, before, old(self).heads@[hi] as int, i);
                    if hi == h {
                        assert(before == Some(old(self).heads@[hi]));
                    }
                }
            }
            assert forall|i: int, j: int| 0 <= i < j < self@.len() implies
                (#[trigger] self@[i]).0 != (
            #[trigger] self@[j]).0 by {
                if j < at {
                    assert(old(self)@[i].0 != old(self)@[j].0);
                } else {
                    assert(old(self)@[i].0 != clause@);
                }
            }
        }
    }
}

} // verus!
