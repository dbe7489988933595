use vstd::prelude::*;

verus! {

/// A flock of agents of type `A`, with a square cache of pairwise cells of
/// type `D` (the displacement from one agent to another).
///
/// The cache is rebuilt from the agents at the start of every step; agents
/// added between steps are only reflected in it after the next rebuild.
pub struct Flock<A, D> {
    boids: Vec<A>,
    dist: Vec<Vec<D>>,
}

/// `m` is an `n` by `n` matrix.
pub open spec fn is_square<D>(m: Seq<Seq<D>>, n: nat) -> bool {
    &&& m.len() == n
    &&& forall|i: int| 0 <= i < n ==> (#[trigger] m[i]).len() == n
}

/// `m` is the displacement cache of `agents` as computed by `diff` and `neg`:
/// each cell on or above the diagonal is what `diff` gives from agent `i` to
/// agent `j`, and each cell below it is what `neg` gives on its mirror cell.
pub open spec fn is_cache_of<A, D, F: Fn(&A, &A) -> D, G: Fn(D) -> D>(
    m: Seq<Seq<D>>,
    agents: Seq<A>,
    diff: F,
    neg: G,
) -> bool {
    &&& is_square(m, agents.len())
    &&& forall|i: int, j: int|
        0 <= i <= j < agents.len() ==> call_ensures(diff, (&agents[i], &agents[j]), #[trigger] m[i][j])
    &&& forall|i: int, j: int|
        0 <= j < i < agents.len() ==> call_ensures(neg, (m[j][i],), #[trigger] m[i][j])
}

impl<A, D> Flock<A, D> {
    /// The agents, in insertion order.
    pub closed spec fn agents(&self) -> Seq<A> {
        self.boids@
    }

    /// The cache, row by row.
    pub closed spec fn cache(&self) -> Seq<Seq<D>> {
        self.dist@.map_values(|r: Vec<D>| r@)
    }

    /// The cache is square and never larger than the flock.
    pub open spec fn wf(&self) -> bool {
        &&& self.cache().len() <= self.agents().len()
        &&& is_square(self.cache(), self.cache().len())
    }

    /// Number of agents.
    pub fn len(&self) -> (r: usize)
        ensures
            r == self.agents().len(),
    {
        self.boids.len()
    }

    /// Number of rows (and of columns) of the cache.
    pub fn cache_len(&self) -> (r: usize)
        ensures
            r == self.cache().len(),
    {
        self.dist.len()
    }

    /// The agents, in insertion order.
    pub fn boids(&self) -> (r: &Vec<A>)
        ensures
            r@ == self.agents(),
    {
        &self.boids
    }

    /// Appends an agent. The cache keeps its size until the next step.
    pub fn add_boid(&mut self, boid: A)
        ensures
            old(self).wf() ==> final(self).wf(),
            final(self).agents() == old(self).agents().push(boid),
            final(self).cache() == old(self).cache(),
    {
        self.boids.push(boid);
    }
}

impl<A, D: Copy> Flock<A, D> {
    /// A flock of the given agents, with an `n` by `n` cache of `zero`.
    pub fn new(boids: Vec<A>, zero: D) -> (r: Self)
        ensures
            r.wf(),
            r.agents() == boids@,
            is_square(r.cache(), boids@.len()),
            forall|i: int, j: int|
                0 <= i < boids@.len() && 0 <= j < boids@.len() ==> #[trigger] r.cache()[i][j] == zero,
    {
        let n = boids.len();
        let mut dist: Vec<Vec<D>> = Vec::new();
        let mut i: usize = 0;
        while i < n
            invariant
                i <= n,
                dist@.len() == i,
                forall|k: int| 0 <= k < i ==> (#[trigger] dist@[k])@.len() == n,
                forall|k: int, j: int| 0 <= k < i && 0 <= j < n ==> #[trigger] dist@[k]@[j] == zero,
            decreases n - i,
        {
            let mut row: Vec<D> = Vec::new();
            let mut j: usize = 0;
            while j < n
                invariant
                    j <= n,
                    row@.len() == j,
                    forall|l: int| 0 <= l < j ==> #[trigger] row@[l] == zero,
                decreases n - j,
            {
                row.push(zero);
                j = j + 1;
            }
            dist.push(row);
            i = i + 1;
        }
        let r = Flock { boids, dist };
        assert(is_square(r.cache(), n as nat));
        r
    }

    /// Cell `(i, j)` of the cache, or `None` where the cache has no such cell.
    pub fn displacement(&self, i: usize, j: usize) -> (r: Option<D>)
        ensures
            r == (if i < self.cache().len() && j < self.cache()[i as int].len() {
                Some(self.cache()[i as int][j as int])
            } else {
                None
            }),
    {
        if i < self.dist.len() {
            assert(self.cache()[i as int] == self.dist@[i as int]@);
            if j < self.dist[i].len() {
                return Some(self.dist[i][j]);
            }
        }
        None
    }
}

impl<A, D: Copy> Flock<A, D> {
    /// Rebuilds the cache from scratch out of the current agents: `diff` gives
    /// each cell on or above the diagonal, from agent `i` to agent `j`, and
    /// `neg` mirrors it below the diagonal. The agents are left unchanged.
    pub fn rebuild_cache<F: Fn(&A, &A) -> D, G: Fn(D) -> D>(&mut self, diff: &F, neg: &G)
        requires
            forall|a: &A, b: &A| call_requires(*diff, (a, b)),
            forall|d: D| call_requires(*neg, (d,)),
        ensures
            final(self).wf(),
            final(self).agents() == old(self).agents(),
            is_cache_of(final(self).cache(), old(self).agents(), *diff, *neg),
    {
        let n = self.boids.len();
        let mut dist: Vec<Vec<D>> = Vec::new();
        let mut i: usize = 0;
        while i < n
            invariant
                n == self.boids@.len(),
                i <= n,
                dist@.len() == i,
                forall|a: &A, b: &A| call_requires(*diff, (a, b)),
                forall|d: D| call_requires(*neg, (d,)),
                forall|k: int| 0 <= k < i ==> (#[trigger] dist@[k])@.len() == n,
                forall|k: int, j: int|
                    0 <= k <= j < n && k < i ==> call_ensures(
                        *diff,
                        (&self.boids@[k], &self.boids@[j]),
                        #[trigger] dist@[k]@[j],
                    ),
                forall|k: int, j: int|
                    0 <= j < k < i ==> call_ensures(*neg, (dist@[j]@[k],), #[trigger] dist@[k]@[j]),
            decreases n - i,
        {
            let mut row: Vec<D> = Vec::new();
            let mut j: usize = 0;
            while j < n
                invariant
                    n == self.boids@.len(),
                    i < n,
                    j <= n,
                    row@.len() == j,
                    dist@.len() == i,
                    forall|a: &A, b: &A| call_requires(*diff, (a, b)),
                    forall|d: D| call_requires(*neg, (d,)),
                    forall|k: int| 0 <= k < i ==> (#[trigger] dist@[k])@.len() == n,
                    forall|l: int|
                        0 <= l < j && l < i ==> call_ensures(*neg, (dist@[l]@[i as int],), #[trigger] row@[l]),
                    forall|l: int|
                        0 <= l < j && i <= l ==> call_ensures(
                            *diff,
                            (&self.boids@[i as int], &self.boids@[l]),
                            #[trigger] row@[l],
                        ),
                decreases n - j,
            {
                let d = if j < i {
                    neg(dist[j][i])
                } else {
                    diff(&self.boids[i], &self.boids[j])
                };
                row.push(d);
                j = j + 1;
            }
            dist.push(row);
            i = i + 1;
        }
        self.dist = dist;
        assert(is_square(self.cache(), n as nat));
    }
}

impl<A, D: Copy> Flock<A, D> {
    /// Replaces every agent `i` by what `steer` gives on the flock as it stood
    /// before the pass and on `i`: each agent's steering reads the others as
    /// they were, not as already steered. The cache is left unchanged.
    pub fn steer_all<F: Fn(&Flock<A, D>, usize) -> A>(&mut self, steer: &F)
        requires
            forall|f: &Flock<A, D>, i: usize| call_requires(*steer, (f, i)),
        ensures
            final(self).agents().len() == old(self).agents().len(),
            final(self).cache() == old(self).cache(),
            forall|i: int|
                0 <= i < old(self).agents().len() ==> call_ensures(
                    *steer,
                    (old(self), i as usize),
                    #[trigger] final(self).agents()[i],
                ),
    {
        let n = self.boids.len();
        let mut next: Vec<A> = Vec::new();
        let mut i: usize = 0;
        while i < n
            invariant
                n == self.boids@.len(),
                i <= n,
                next@.len() == i,
                forall|f: &Flock<A, D>, i: usize| call_requires(*steer, (f, i)),
                forall|k: int| 0 <= k < i ==> call_ensures(*steer, (&*self, k as usize), #[trigger] next@[k]),
            decreases n - i,
        {
            let a = steer(&*self, i);
            next.push(a);
            i = i + 1;
        }
        self.boids = next;
    }

    /// Replaces every agent by what `advance` gives on it (its own motion:
    /// boundary handling and integration). The cache is left unchanged.
    pub fn advance_all<F: Fn(&A) -> A>(&mut self, advance: &F)
        requires
            forall|a: &A| call_requires(*advance, (a,)),
        ensures
            final(self).agents().len() == old(self).agents().len(),
            final(self).cache() == old(self).cache(),
            forall|i: int|
                0 <= i < old(self).agents().len() ==> call_ensures(
                    *advance,
                    (&old(self).agents()[i],),
                    #[trigger] final(self).agents()[i],
                ),
    {
        let n = self.boids.len();
        let mut next: Vec<A> = Vec::new();
        let mut i: usize = 0;
        while i < n
            invariant
                n == self.boids@.len(),
                i <= n,
                next@.len() == i,
                forall|a: &A| call_requires(*advance, (a,)),
                forall|k: int| 0 <= k < i ==> call_ensures(*advance, (&self.boids@[k],), #[trigger] next@[k]),
            decreases n - i,
        {
            let a = advance(&self.boids[i]);
            next.push(a);
            i = i + 1;
        }
        self.boids = next;
    }
}

/// `next` is one step of `prev`: the cache is rebuilt from the agents of
/// `prev` (into `rebuilt`), every agent is steered against `rebuilt` (into
/// `steered`), and then every steered agent is advanced on its own.
pub open spec fn is_step_via<A, D, F, G, S, V>(
    next: Flock<A, D>,
    prev: Flock<A, D>,
    rebuilt: Flock<A, D>,
    steered: Flock<A, D>,
    diff: F,
    neg: G,
    steer: S,
    advance: V,
) -> bool where
    F: Fn(&A, &A) -> D,
    G: Fn(D) -> D,
    S: Fn(&Flock<A, D>, usize) -> A,
    V: Fn(&A) -> A,
 {
    let n = prev.agents().len();
    &&& rebuilt.agents() == prev.agents()
    &&& is_cache_of(rebuilt.cache(), prev.agents(), diff, neg)
    &&& steered.agents().len() == n
    &&& forall|i: int|
        0 <= i < n ==> call_ensures(steer, (&rebuilt, i as usize), #[trigger] steered.agents()[i])
    &&& next.agents().len() == n
    &&& forall|i: int|
        0 <= i < n ==> call_ensures(advance, (&steered.agents()[i],), #[trigger] next.agents()[i])
    &&& next.cache() == rebuilt.cache()
}

/// `next` is one step of `prev` (see `is_step_via`).
pub open spec fn is_step_of<A, D, F, G, S, V>(
    next: Flock<A, D>,
    prev: Flock<A, D>,
    diff: F,
    neg: G,
    steer: S,
    advance: V,
) -> bool where
    F: Fn(&A, &A) -> D,
    G: Fn(D) -> D,
    S: Fn(&Flock<A, D>, usize) -> A,
    V: Fn(&A) -> A,
 {
    exists|rebuilt: Flock<A, D>, steered: Flock<A, D>|
        is_step_via(next, prev, rebuilt, steered, diff, neg, steer, advance)
}

impl<A, D: Copy> Flock<A, D> {
    /// One step of the simulation: rebuild the cache from the agents, steer
    /// every agent against the rebuilt flock, then advance every agent.
    /// The number of agents never changes, and the cache afterwards is square
    /// with one row per agent.
    pub fn update<F, G, S, V>(&mut self, diff: &F, neg: &G, steer: &S, advance: &V)
        where
            F: Fn(&A, &A) -> D,
            G: Fn(D) -> D,
            S: Fn(&Flock<A, D>, usize) -> A,
            V: Fn(&A) -> A,
        requires
            forall|a: &A, b: &A| call_requires(*diff, (a, b)),
            forall|d: D| call_requires(*neg, (d,)),
            forall|f: &Flock<A, D>, i: usize| call_requires(*steer, (f, i)),
            forall|a: &A| call_requires(*advance, (a,)),
        ensures
            final(self).wf(),
            final(self).agents().len() == old(self).agents().len(),
            is_square(final(self).cache(), old(self).agents().len()),
            is_step_of(*final(self), *old(self), *diff, *neg, *steer, *advance),
    {
        self.rebuild_cache(diff, neg);
        let ghost rebuilt = *self;
        self.steer_all(steer);
        let ghost steered = *self;
        self.advance_all(advance);
        assert(is_step_via(*self, *old(self), rebuilt, steered, *diff, *neg, *steer, *advance));
    }
}

/// A flock with no agents stays empty, with an empty cache, after a step.
pub proof fn lemma_empty_stays_empty<A, D, F, G, S, V>(
    next: Flock<A, D>,
    prev: Flock<A, D>,
    diff: F,
    neg: G,
    steer: S,
    advance: V,
) where
    F: Fn(&A, &A) -> D,
    G: Fn(D) -> D,
    S: Fn(&Flock<A, D>, usize) -> A,
    V: Fn(&A) -> A,

    requires
        prev.agents().len() == 0,
        is_step_of(next, prev, diff, neg, steer, advance),
    ensures
        next.agents().len() == 0,
        next.cache().len() == 0,
        next.wf(),
{
    let (rebuilt, steered) = choose|rebuilt: Flock<A, D>, steered: Flock<A, D>|
        is_step_via(next, prev, rebuilt, steered, diff, neg, steer, advance);
}

/// A step is determined by the flock it starts from: where `diff`, `neg` and
/// `advance` give one result for each argument, and `steer` one result for
/// each agent index and flock contents, two steps from flocks with the same
/// agents end with the same agents and the same cache.
pub proof fn lemma_step_deterministic<A, D, F, G, S, V>(
    next1: Flock<A, D>,
    next2: Flock<A, D>,
    prev1: Flock<A, D>,
    prev2: Flock<A, D>,
    diff: F,
    neg: G,
    steer: S,
    advance: V,
) where
    F: Fn(&A, &A) -> D,
    G: Fn(D) -> D,
    S: Fn(&Flock<A, D>, usize) -> A,
    V: Fn(&A) -> A,

    requires
        prev1.agents() == prev2.agents(),
        is_step_of(next1, prev1, diff, neg, steer, advance),
        is_step_of(next2, prev2, diff, neg, steer, advance),
        forall|a: &A, b: &A, d1: D, d2: D|
            #[trigger] call_ensures(diff, (a, b), d1) && #[trigger] call_ensures(diff, (a, b), d2)
                ==> d1 == d2,
        forall|d: D, e1: D, e2: D|
            #[trigger] call_ensures(neg, (d,), e1) && #[trigger] call_ensures(neg, (d,), e2) ==> e1
                == e2,
        forall|f1: &Flock<A, D>, f2: &Flock<A, D>, i: usize, a1: A, a2: A|
            f1.agents() == f2.agents() && f1.cache() == f2.cache() && #[trigger] call_ensures(
                steer,
                (f1, i),
                a1,
            ) && #[trigger] call_ensures(steer, (f2, i), a2) ==> a1 == a2,
        forall|a: &A, b1: A, b2: A|
            #[trigger] call_ensures(advance, (a,), b1) && #[trigger] call_ensures(advance, (a,), b2)
                ==> b1 == b2,
    ensures
        next1.agents() == next2.agents(),
        next1.cache() == next2.cache(),
{
    let (r1, s1) = choose|r: Flock<A, D>, s: Flock<A, D>|
        is_step_via(next1, prev1, r, s, diff, neg, steer, advance);
    let (r2, s2) = choose|r: Flock<A, D>, s: Flock<A, D>|
        is_step_via(next2, prev2, r, s, diff, neg, steer, advance);
    let n = prev1.agents().len();
    let m1 = r1.cache();
    let m2 = r2.cache();
    assert forall|i: int, j: int| 0 <= i <= j < n implies m1[i][j] == m2[i][j] by {
        assert(call_ensures(diff, (&prev1.agents()[i], &prev1.agents()[j]), m1[i][j]));
        assert(call_ensures(diff, (&prev1.agents()[i], &prev1.agents()[j]), m2[i][j]));
    }
    assert forall|i: int| 0 <= i < n implies m1[i] =~= m2[i] by {
        assert forall|j: int| 0 <= j < n implies m1[i][j] == m2[i][j] by {
            if j < i {
                assert(m1[j][i] == m2[j][i]);
                assert(call_ensures(neg, (m1[j][i],), m1[i][j]));
                assert(call_ensures(neg, (m1[j][i],), m2[i][j]));
            }
        }
    }
    assert(m1 =~= m2);
    assert forall|i: int| 0 <= i < n implies s1.agents()[i] == s2.agents()[i] by {
        assert(call_ensures(steer, (&r1, i as usize), s1.agents()[i]));
        assert(call_ensures(steer, (&r2, i as usize), s2.agents()[i]));
    }
    assert(s1.agents() =~= s2.agents());
    assert forall|i: int| 0 <= i < n implies next1.agents()[i] == next2.agents()[i] by {
        assert(call_ensures(advance, (&s1.agents()[i],), next1.agents()[i]));
        assert(call_ensures(advance, (&s1.agents()[i],), next2.agents()[i]));
    }
    assert(next1.agents() =~= next2.agents());
}

/// The cache is antisymmetric with a zero diagonal: where `neg` computes an
/// involution `inv` and `diff` gives `zero` from any agent to itself, every
/// cell `(i, j)` off the diagonal is `inv` of cell `(j, i)` and every
/// diagonal cell is `zero`.
pub proof fn lemma_cache_antisymmetric<A, D, F, G>(
    m: Seq<Seq<D>>,
    agents: Seq<A>,
    diff: F,
    neg: G,
    inv: spec_fn(D) -> D,
    zero: D,
) where
    F: Fn(&A, &A) -> D,
    G: Fn(D) -> D,

    requires
        is_cache_of(m, agents, diff, neg),
        forall|d: D, e: D| #[trigger] call_ensures(neg, (d,), e) ==> e == inv(d),
        forall|d: D| #[trigger] inv(inv(d)) == d,
        forall|a: &A, d: D| #[trigger] call_ensures(diff, (a, a), d) ==> d == zero,
    ensures
        forall|i: int, j: int|
            0 <= i < agents.len() && 0 <= j < agents.len() && i != j ==> #[trigger] m[i][j] == inv(
                m[j][i],
            ),
        forall|i: int| 0 <= i < agents.len() ==> #[trigger] m[i][i] == zero,
{
    assert forall|i: int, j: int|
        0 <= i < agents.len() && 0 <= j < agents.len() && i != j implies #[trigger] m[i][j] == inv(
            m[j][i],
        ) by {
        if j < i {
            assert(call_ensures(neg, (m[j][i],), m[i][j]));
        } else {
            assert(call_ensures(neg, (m[i][j],), m[j][i]));
            assert(inv(inv(m[i][j])) == m[i][j]);
        }
    }
    assert forall|i: int| 0 <= i < agents.len() implies #[trigger] m[i][i] == zero by {
        assert(call_ensures(diff, (&agents[i], &agents[i]), m[i][i]));
    }
}

} // verus!
