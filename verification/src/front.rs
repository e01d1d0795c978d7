//! Non-dominated points and the Pareto front.

use vstd::prelude::*;

use crate::types::Assignment;

verus! {

/// `a` is nowhere worse than `b`: both have the same length and `a` is at
/// most `b` in every component.
pub open spec fn weakly_dominates(a: Seq<isize>, b: Seq<isize>) -> bool {
    &&& a.len() == b.len()
    &&& forall|i: int| 0 <= i < a.len() ==> a[i] <= b[i]
}

/// `a` is nowhere worse than `b` and somewhere better.
pub open spec fn dominates(a: Seq<isize>, b: Seq<isize>) -> bool {
    weakly_dominates(a, b) && a != b
}

/// One of the two tuples is nowhere worse than the other. Equal tuples are
/// comparable.
pub open spec fn comparable(a: Seq<isize>, b: Seq<isize>) -> bool {
    weakly_dominates(a, b) || weakly_dominates(b, a)
}

/// Whether one of the two cost tuples is nowhere worse than the other.
pub fn check_comparable(a: &Vec<isize>, b: &Vec<isize>) -> (r: bool)
    ensures
        r == comparable(a@, b@),
{
    if a.len() != b.len() {
        return false;
    }
    let mut le = true;
    let mut ge = true;
    let mut i: usize = 0;
    while i < a.len()
        invariant
            i <= a@.len(),
            a@.len() == b@.len(),
            le == (forall|j: int| 0 <= j < i ==> a@[j] <= b@[j]),
            ge == (forall|j: int| 0 <= j < i ==> b@[j] <= a@[j]),
        decreases a.len() - i,
    {
        if a[i] > b[i] {
            le = false;
        }
        if b[i] > a[i] {
            ge = false;
        }
        i += 1;
    }
    le || ge
}

/// A point of the objective space with the solutions found for it.
#[derive(Clone, PartialEq, Eq, Debug)]
pub struct NonDomPoint<S = Assignment> {
    pub costs: Vec<isize>,
    pub sols: Vec<S>,
}

impl<S> NonDomPoint<S> {
    /// A point without solutions.
    pub fn new(costs: Vec<isize>) -> (p: Self)
        ensures
            p.costs@ == costs@,
            p.sols@ == Seq::<S>::empty(),
    {
        NonDomPoint { costs, sols: Vec::new() }
    }

    pub fn add_sol(&mut self, sol: S)
        ensures
            final(self).costs@ == old(self).costs@,
            final(self).sols@ == old(self).sols@.push(sol),
    {
        self.sols.push(sol);
    }

    /// The number of solutions.
    pub fn n_sols(&self) -> (n: usize)
        ensures
            n == self.sols@.len(),
    {
        self.sols.len()
    }

    /// The cost tuple.
    pub fn costs(&self) -> (c: &Vec<isize>)
        ensures
            c@ == self.costs@,
    {
        &self.costs
    }

    /// The solutions, in the order in which they were added.
    pub fn iter(&self) -> (v: &Vec<S>)
        ensures
            v@ == self.sols@,
    {
        &self.sols
    }

    /// The point with each solution `s` replaced by `conv(s)`.
    pub fn convert_solutions<C, S2>(self, conv: &C) -> (p: NonDomPoint<S2>) where C: Fn(S) -> S2
        requires
            forall|s: S| call_requires(conv, (s,)),
        ensures
            p.costs@ == self.costs@,
            p.sols@.len() == self.sols@.len(),
            forall|i: int|
                0 <= i < self.sols@.len() ==> call_ensures(
                    conv,
                    (self.sols@[i],),
                    #[trigger] p.sols@[i],
                ),
    {
        let NonDomPoint { costs, sols } = self;
        let mut out: Vec<S2> = Vec::new();
        for s in it: sols
            invariant
                forall|s: S| call_requires(conv, (s,)),
                out@.len() == it.index(),
                it.seq() == self.sols@,
                forall|i: int|
                    0 <= i < out@.len() ==>
                        call_ensures(conv, (self.sols@[i],), #[trigger] out@[i]),
        {
            let c = conv(s);
            out.push(c);
        }
        NonDomPoint { costs, sols: out }
    }
}

/// The solutions of the two points are the same assignments, and so are
/// their costs.
pub open spec fn same_point(p: NonDomPoint, q: NonDomPoint) -> bool {
    &&& p.costs@ == q.costs@
    &&& p.sols@.len() == q.sols@.len()
    &&& forall|k: int| 0 <= k < p.sols@.len() ==> (#[trigger] p.sols@[k])@ == q.sols@[k]@
}

impl NonDomPoint<Assignment> {
    /// A copy of the point.
    pub fn duplicate(&self) -> (p: NonDomPoint)
        ensures
            same_point(p, *self),
    {
        let mut costs: Vec<isize> = Vec::new();
        let mut i: usize = 0;
        while i < self.costs.len()
            invariant
                i <= self.costs@.len(),
                costs@ == self.costs@.subrange(0, i as int),
            decreases self.costs.len() - i,
        {
            costs.push(self.costs[i]);
            assert(self.costs@.subrange(0, i as int).push(self.costs@[i as int])
                =~= self.costs@.subrange(0, i + 1));
            i += 1;
        }
        assert(self.costs@.subrange(0, self.costs@.len() as int) =~= self.costs@);
        let mut sols: Vec<Assignment> = Vec::new();
        let mut k: usize = 0;
        while k < self.sols.len()
            invariant
                k <= self.sols@.len(),
                sols@.len() == k,
                forall|j: int| 0 <= j < k ==> (#[trigger] sols@[j])@ == self.sols@[j]@,
            decreases self.sols.len() - k,
        {
            sols.push(self.sols[k].duplicate());
            k += 1;
        }
        NonDomPoint { costs, sols }
    }
}

impl ParetoFront<Assignment> {
    /// A copy of the front.
    pub fn duplicate(&self) -> (f: ParetoFront)
        ensures
            f.ndoms@.len() == self.ndoms@.len(),
            forall|i: int| 0 <= i < f.ndoms@.len() ==>
                same_point(#[trigger] f.ndoms@[i], self.ndoms@[i]),
            f.costs() == self.costs(),
    {
        let mut ndoms: Vec<NonDomPoint> = Vec::new();
        let mut i: usize = 0;
        while i < self.ndoms.len()
            invariant
                i <= self.ndoms@.len(),
                ndoms@.len() == i,
                forall|j: int| 0 <= j < i ==> same_point(#[trigger] ndoms@[j], self.ndoms@[j]),
            decreases self.ndoms.len() - i,
        {
            ndoms.push(self.ndoms[i].duplicate());
            i += 1;
        }
        let f = ParetoFront { ndoms };
        assert(f.costs() =~= self.costs());
        f
    }
}

/// The cost tuples of the points of `pts`.
pub open spec fn costs_of<S>(pts: Seq<NonDomPoint<S>>) -> Seq<Seq<isize>> {
    Seq::new(pts.len(), |i: int| pts[i].costs@)
}

/// No two of the tuples are comparable.
pub open spec fn antichain(costs: Seq<Seq<isize>>) -> bool {
    forall|i: int, j: int|
        0 <= i < costs.len() && 0 <= j < costs.len() && i != j ==> !comparable(
            #[trigger] costs[i],
            #[trigger] costs[j],
        )
}

/// `c` is comparable to none of the tuples.
pub open spec fn admits(costs: Seq<Seq<isize>>, c: Seq<isize>) -> bool {
    forall|i: int| 0 <= i < costs.len() ==> !comparable(#[trigger] costs[i], c)
}

/// The points that a front `front` holds after `pts` were offered to it one
/// by one: each is taken up where no point held by then is comparable with
/// it, and passed over otherwise.
pub open spec fn extended<S>(front: Seq<NonDomPoint<S>>, pts: Seq<NonDomPoint<S>>) -> Seq<
    NonDomPoint<S>,
>
    decreases pts.len(),
{
    if pts.len() == 0 {
        front
    } else {
        let f = extended(front, pts.drop_last());
        if admits(costs_of(f), pts.last().costs@) {
            f.push(pts.last())
        } else {
            f
        }
    }
}

/// The points among `pts` that the front passed over.
pub open spec fn passed_over<S>(front: Seq<NonDomPoint<S>>, pts: Seq<NonDomPoint<S>>) -> Seq<
    NonDomPoint<S>,
>
    decreases pts.len(),
{
    if pts.len() == 0 {
        Seq::empty()
    } else {
        let f = extended(front, pts.drop_last());
        let r = passed_over(front, pts.drop_last());
        if admits(costs_of(f), pts.last().costs@) {
            r
        } else {
            r.push(pts.last())
        }
    }
}

/// Where no two of the points of the front and of `pts` are comparable,
/// the front takes up all of `pts`, in their order, and passes none over.
pub proof fn lemma_extend_appends<S>(front: Seq<NonDomPoint<S>>, pts: Seq<NonDomPoint<S>>)
    requires
        antichain(costs_of(front + pts)),
    ensures
        extended(front, pts) == front + pts,
        passed_over(front, pts) == Seq::<NonDomPoint<S>>::empty(),
    decreases pts.len(),
{
    if pts.len() == 0 {
        assert(front + pts =~= front);
    } else {
        let all = costs_of(front + pts);
        let fewer = costs_of(front + pts.drop_last());
        assert forall|i: int, j: int|
            0 <= i < fewer.len() && 0 <= j < fewer.len() && i != j implies !comparable(
            #[trigger] fewer[i],
            #[trigger] fewer[j],
        ) by {
            assert(fewer[i] == all[i]);
            assert(fewer[j] == all[j]);
        }
        lemma_extend_appends(front, pts.drop_last());
        let f = front + pts.drop_last();
        assert forall|i: int| 0 <= i < costs_of(f).len() implies !comparable(
            #[trigger] costs_of(f)[i],
            pts.last().costs@,
        ) by {
            assert(costs_of(f)[i] == all[i]);
            assert(pts.last().costs@ == all[all.len() - 1]);
        }
        assert(f.push(pts.last()) =~= front + pts);
    }
}

/// The non-dominated points found so far, in the order of their discovery.
#[derive(Clone, PartialEq, Eq, Debug)]
pub struct ParetoFront<S = Assignment> {
    pub ndoms: Vec<NonDomPoint<S>>,
}

impl<S> ParetoFront<S> {
    pub open spec fn costs(self) -> Seq<Seq<isize>> {
        costs_of(self.ndoms@)
    }

    /// No point of the front is comparable with another: none dominates
    /// another and no two have equal costs.
    pub open spec fn wf(self) -> bool {
        antichain(self.costs())
    }

    pub fn new() -> (f: Self)
        ensures
            f.ndoms@ == Seq::<NonDomPoint<S>>::empty(),
            f.wf(),
    {
        ParetoFront { ndoms: Vec::new() }
    }

    /// The number of points.
    pub fn len(&self) -> (n: usize)
        ensures
            n == self.ndoms@.len(),
    {
        self.ndoms.len()
    }

    pub fn is_empty(&self) -> (b: bool)
        ensures
            b == (self.ndoms@.len() == 0),
    {
        self.ndoms.len() == 0
    }

    /// The points, in the order of their discovery.
    pub fn iter(&self) -> (v: &Vec<NonDomPoint<S>>)
        ensures
            v@ == self.ndoms@,
    {
        &self.ndoms
    }

    /// The point at place `index`.
    pub fn index(&self, index: usize) -> (p: &NonDomPoint<S>)
        requires
            index < self.ndoms@.len(),
        ensures
            *p == self.ndoms@[index as int],
    {
        &self.ndoms[index]
    }

    /// Whether no point of the front is comparable with `costs`.
    pub fn admits(&self, costs: &Vec<isize>) -> (b: bool)
        ensures
            b == admits(self.costs(), costs@),
    {
        let mut i: usize = 0;
        while i < self.ndoms.len()
            invariant
                i <= self.ndoms@.len(),
                forall|j: int| 0 <= j < i ==> !comparable(#[trigger] self.costs()[j], costs@),
            decreases self.ndoms.len() - i,
        {
            if check_comparable(&self.ndoms[i].costs, costs) {
                assert(comparable(self.costs()[i as int], costs@));
                return false;
            }
            i += 1;
        }
        true
    }

    /// Adds `pp` where the front admits it, and hands it back otherwise.
    pub fn add_pp(&mut self, pp: NonDomPoint<S>) -> (r: Result<(), NonDomPoint<S>>)
        requires
            old(self).wf(),
        ensures
            final(self).wf(),
            admits(old(self).costs(), pp.costs@) ==> r is Ok && final(self).ndoms@ == old(
                self,
            ).ndoms@.push(pp),
            !admits(old(self).costs(), pp.costs@) ==> r == Err::<(), NonDomPoint<S>>(pp)
                && final(self).ndoms@ == old(self).ndoms@,
    {
        if self.admits(&pp.costs) {
            proof {
                lemma_push_keeps_antichain(self.costs(), pp.costs@);
                assert(costs_of(self.ndoms@.push(pp)) =~= self.costs().push(pp.costs@));
            }
            self.ndoms.push(pp);
            Ok(())
        } else {
            Err(pp)
        }
    }

    /// Offers the points to the front one by one. Where no two of all the
    /// points are comparable, the front holds them all afterwards, the new
    /// ones behind the old. A point that is comparable with one that the
    /// front holds by then is not added: the points passed over are
    /// returned.
    pub fn extend(&mut self, points: Vec<NonDomPoint<S>>) -> (rejected: Vec<NonDomPoint<S>>)
        requires
            old(self).wf(),
        ensures
            final(self).wf(),
            final(self).ndoms@ == extended(old(self).ndoms@, points@),
            rejected@ == passed_over(old(self).ndoms@, points@),
            antichain(costs_of(old(self).ndoms@ + points@)) ==> final(self).ndoms@
                == old(self).ndoms@ + points@ && rejected@.len() == 0,
    {
        let mut rejected: Vec<NonDomPoint<S>> = Vec::new();
        let ghost start = self.ndoms@;
        for p in it: points
            invariant
                self.wf(),
                it.seq() == points@,
                self.ndoms@ == extended(start, points@.take(it.index())),
                rejected@ == passed_over(start, points@.take(it.index())),
        {
            proof {
                let k = it.index();
                assert(points@.take(k + 1).drop_last() =~= points@.take(k));
                assert(points@.take(k + 1).last() == p);
            }
            match self.add_pp(p) {
                Ok(()) => {},
                Err(back) => {
                    rejected.push(back);
                },
            }
        }
        proof {
            assert(points@.take(points@.len() as int) =~= points@);
            if antichain(costs_of(start + points@)) {
                lemma_extend_appends(start, points@);
            }
        }
        rejected
    }

    /// The front with each solution `s` replaced by `conv(s)`.
    pub fn convert_solutions<C, S2>(self, conv: &C) -> (f: ParetoFront<S2>) where C: Fn(S) -> S2
        requires
            forall|s: S| call_requires(conv, (s,)),
        ensures
            f.costs() == self.costs(),
            forall|i: int|
                0 <= i < self.ndoms@.len() ==> (#[trigger] f.ndoms@[i]).sols@.len()
                    == self.ndoms@[i].sols@.len(),
            forall|i: int, k: int|
                0 <= i < self.ndoms@.len() && 0 <= k < self.ndoms@[i].sols@.len() ==> call_ensures(
                    conv,
                    (self.ndoms@[i].sols@[k],),
                    #[trigger] f.ndoms@[i].sols@[k],
                ),
    {
        let ParetoFront { ndoms } = self;
        let mut out: Vec<NonDomPoint<S2>> = Vec::new();
        for p in it: ndoms
            invariant
                forall|s: S| call_requires(conv, (s,)),
                out@.len() == it.index(),
                it.seq() == self.ndoms@,
                forall|i: int| 0 <= i < out@.len() ==>
                    (#[trigger] out@[i]).costs@ == self.ndoms@[i].costs@,
                forall|i: int|
                    0 <= i < out@.len() ==> (#[trigger] out@[i]).sols@.len()
                        == self.ndoms@[i].sols@.len(),
                forall|i: int, k: int|
                    0 <= i < out@.len() && 0 <= k < self.ndoms@[i].sols@.len() ==> call_ensures(
                        conv,
                        (self.ndoms@[i].sols@[k],),
                        #[trigger] out@[i].sols@[k],
                    ),
        {
            let q = p.convert_solutions(conv);
            out.push(q);
        }
        let f = ParetoFront { ndoms: out };
        assert(f.costs() =~= self.costs());
        f
    }
}

/// An antichain stays one when a tuple is added that is comparable with
/// none of its members.
pub proof fn lemma_push_keeps_antichain(costs: Seq<Seq<isize>>, c: Seq<isize>)
    requires
        antichain(costs),
        admits(costs, c),
    ensures
        antichain(costs.push(c)),
{
    let n = costs.push(c);
    assert forall|i: int, j: int| 0 <= i < n.len() && 0 <= j < n.len() && i != j implies
        !comparable(
        #[trigger] n[i],
        #[trigger] n[j],
    ) by {
        if i < costs.len() && j < costs.len() {
            assert(!comparable(costs[i], costs[j]));
        } else if i < costs.len() {
            assert(!comparable(costs[i], c));
        } else {
            assert(!comparable(costs[j], c));
        }
    }
}

/// In a well-formed front no point dominates another, and no two points have
/// the same costs.
pub proof fn lemma_front_minimal<S>(front: ParetoFront<S>, i: int, j: int)
    requires
        front.wf(),
        0 <= i < front.ndoms@.len(),
        0 <= j < front.ndoms@.len(),
        i != j,
    ensures
        !dominates(front.ndoms@[i].costs@, front.ndoms@[j].costs@),
        !dominates(front.ndoms@[j].costs@, front.ndoms@[i].costs@),
        front.ndoms@[i].costs@ != front.ndoms@[j].costs@,
{
    let c = front.costs();
    assert(!comparable(c[i], c[j]));
    if front.ndoms@[i].costs@ == front.ndoms@[j].costs@ {
        assert(weakly_dominates(c[i], c[j]));
    }
}

} // verus!
