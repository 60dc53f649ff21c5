//! Disjoint-set forest (union-find), shared by every clustering pass: images
//! that look alike group by perceptual-hash proximity, and face embeddings group
//! into people by similarity. Both merge pairs that are close enough and then
//! read off the resulting groups.
use vstd::prelude::*;

verus! {

/// How many entries of `reps` are `r`.
pub open spec fn members(reps: Seq<int>, r: int) -> nat
    decreases reps.len(),
{
    if reps.len() == 0 {
        0
    } else {
        members(reps.drop_last(), r) + (if reps.last() == r {
            1nat
        } else {
            0nat
        })
    }
}

/// `reps` once every element of the set represented by `from` has moved to the
/// set represented by `to`.
pub open spec fn moved(reps: Seq<int>, from: int, to: int) -> Seq<int> {
    Seq::new(
        reps.len(),
        |i: int|
            if reps[i] == from {
                to
            } else {
                reps[i]
            },
    )
}

/// The representatives after the sets of `a` and `b` have been merged. The
/// smaller set joins the larger one; of two equal ones `b`'s joins `a`'s.
pub open spec fn merged(reps: Seq<int>, a: int, b: int) -> Seq<int> {
    if members(reps, reps[a]) < members(reps, reps[b]) {
        moved(reps, reps[a], reps[b])
    } else {
        moved(reps, reps[b], reps[a])
    }
}

/// Every element its own representative.
pub open spec fn singletons(n: nat) -> Seq<int> {
    Seq::new(n, |i: int| i)
}

/// Whether each element is represented by one that represents itself.
pub open spec fn is_partition(reps: Seq<int>) -> bool {
    forall|i: int|
        0 <= i < reps.len() ==> 0 <= #[trigger] reps[i] < reps.len() && reps[reps[i]] == reps[i]
}

proof fn lemma_members_bound(reps: Seq<int>, a: int, b: int)
    ensures
        a != b ==> members(reps, a) + members(reps, b) <= reps.len(),
        members(reps, a) <= reps.len(),
    decreases reps.len(),
{
    if reps.len() > 0 {
        lemma_members_bound(reps.drop_last(), a, b);
    }
}

proof fn lemma_members_moved(reps: Seq<int>, from: int, to: int, r: int)
    requires
        from != to,
    ensures
        members(moved(reps, from, to), r) == (if r == to {
            members(reps, from) + members(reps, to)
        } else if r == from {
            0
        } else {
            members(reps, r)
        }),
    decreases reps.len(),
{
    if reps.len() > 0 {
        assert(moved(reps, from, to).drop_last() =~= moved(reps.drop_last(), from, to));
        lemma_members_moved(reps.drop_last(), from, to, r);
    }
}

proof fn lemma_members_of_singletons(n: nat, r: int)
    ensures
        members(singletons(n), r) == (if 0 <= r < n {
            1nat
        } else {
            0nat
        }),
    decreases n,
{
    if n > 0 {
        assert(singletons(n).drop_last() =~= singletons((n - 1) as nat));
        lemma_members_of_singletons((n - 1) as nat, r);
    }
}

/// Merging joins exactly the two sets it is asked to join: two elements share a
/// set afterwards if and only if they did before, or one was in `a`'s set and
/// the other in `b`'s.
pub proof fn merging_joins_exactly_two_sets(reps: Seq<int>, a: int, b: int, x: int, y: int)
    requires
        is_partition(reps),
        0 <= a < reps.len(),
        0 <= b < reps.len(),
        0 <= x < reps.len(),
        0 <= y < reps.len(),
    ensures
        is_partition(merged(reps, a, b)),
        merged(reps, a, b).len() == reps.len(),
        merged(reps, a, b)[x] == merged(reps, a, b)[y] <==> (reps[x] == reps[y] || (reps[x]
            == reps[a] && reps[y] == reps[b]) || (reps[x] == reps[b] && reps[y] == reps[a])),
{
}

/// Merging two elements that already share a set changes nothing.
pub proof fn merging_again_changes_nothing(reps: Seq<int>, a: int, b: int)
    requires
        is_partition(reps),
        0 <= a < reps.len(),
        0 <= b < reps.len(),
    ensures
        merged(merged(reps, a, b), a, b) == merged(reps, a, b),
        reps[a] == reps[b] ==> merged(reps, a, b) == reps,
{
    let m = merged(reps, a, b);
    assert(m[a] == m[b]);
    assert(merged(m, a, b) =~= m);
    if reps[a] == reps[b] {
        assert(m =~= reps);
    }
}

/// Disjoint-set forest with path halving and union by size.
pub struct UnionFind {
    parent: Vec<usize>,
    size: Vec<usize>,
    reps: Ghost<Seq<int>>,
    ranks: Ghost<Seq<nat>>,
}

impl View for UnionFind {
    type V = Seq<int>;

    /// The representative of each element's set.
    closed spec fn view(&self) -> Seq<int> {
        self.reps@
    }
}

impl UnionFind {
    /// The representatives partition the elements, the parent links lead to
    /// them, and each representative carries its set's size.
    pub closed spec fn wf(&self) -> bool {
        let n = self.parent@.len();
        let reps = self.reps@;
        let ranks = self.ranks@;
        &&& self.size@.len() == n
        &&& reps.len() == n
        &&& ranks.len() == n
        &&& is_partition(reps)
        &&& forall|x: int|
            0 <= x < n ==> {
                &&& (#[trigger] self.parent@[x]) < n
                &&& reps[self.parent@[x] as int] == reps[x]
                &&& (self.parent@[x] == x <==> reps[x] == x)
                &&& (self.parent@[x] != x ==> ranks[x] < ranks[self.parent@[x] as int])
                &&& ranks[x] <= ranks[reps[x]]
            }
        &&& forall|x: int|
            0 <= x < n && reps[x] == x ==> (#[trigger] self.size@[x]) == members(reps, x)
    }

    /// What well-formedness promises of the representatives.
    pub proof fn lemma_wf(&self)
        requires
            self.wf(),
        ensures
            is_partition(self@),
    {
    }

    /// A forest of `n` elements, each in a set of its own.
    pub fn new(n: usize) -> (r: Self)
        ensures
            r.wf(),
            r@ == singletons(n as nat),
    {
        let mut parent: Vec<usize> = Vec::new();
        let mut size: Vec<usize> = Vec::new();
        let mut i: usize = 0;
        while i < n
            invariant
                i <= n,
                parent@.len() == i,
                size@.len() == i,
                forall|x: int| 0 <= x < i ==> (#[trigger] parent@[x]) == x,
                forall|x: int| 0 <= x < i ==> (#[trigger] size@[x]) == 1,
            decreases n - i,
        {
            parent.push(i);
            size.push(1);
            i += 1;
        }
        let ghost reps = singletons(n as nat);
        proof {
            assert forall|x: int| 0 <= x < n && reps[x] == x implies (#[trigger] size@[x])
                == members(reps, x) by {
                lemma_members_of_singletons(n as nat, x);
            }
        }
        UnionFind {
            parent,
            size,
            reps: Ghost(reps),
            ranks: Ghost(Seq::new(n as nat, |i: int| 0nat)),
        }
    }

    /// The representative of the set that `x` is in.
    pub fn find(&mut self, x: usize) -> (r: usize)
        requires
            old(self).wf(),
            x < old(self)@.len(),
        ensures
            final(self).wf(),
            final(self)@ == old(self)@,
            r == old(self)@[x as int],
            r < old(self)@.len(),
    {
        let mut x: usize = x;
        let ghost reps = self.reps@;
        let ghost ranks = self.ranks@;
        let ghost goal = reps[x as int];
        while self.parent[x] != x
            invariant
                self.wf(),
                self.reps@ == reps,
                self.ranks@ == ranks,
                x < reps.len(),
                reps[x as int] == goal,
            decreases ranks[goal] - ranks[x as int],
        {
            let p: usize = self.parent[x];
            assert(self.parent@[p as int] < reps.len());
            let g: usize = self.parent[p];
            assert(self.parent@[g as int] < reps.len());
            self.parent.set(x, g);
            x = g;
        }
        x
    }

    /// Merges the sets that `a` and `b` are in.
    pub fn union(&mut self, a: usize, b: usize)
        requires
            old(self).wf(),
            a < old(self)@.len(),
            b < old(self)@.len(),
        ensures
            final(self).wf(),
            final(self)@ == merged(old(self)@, a as int, b as int),
    {
        let mut ra: usize = self.find(a);
        let mut rb: usize = self.find(b);
        let ghost reps = self.reps@;
        let ghost ranks = self.ranks@;
        assert(reps[ra as int] == ra && reps[rb as int] == rb);
        if ra == rb {
            assert(merged(reps, a as int, b as int) =~= reps);
            return;
        }
        proof {
            lemma_members_bound(reps, ra as int, rb as int);
        }
        if self.size[ra] < self.size[rb] {
            let other: usize = ra;
            ra = rb;
            rb = other;
        }
        let n: usize = self.parent.len();
        assert(reps.len() == n);
        let ghost links = self.parent@;
        let total: usize = self.size[ra] + self.size[rb];
        self.parent.set(rb, ra);
        self.size.set(ra, total);
        proof {
            let winner = ra as int;
            let loser = rb as int;
            let next = moved(reps, loser, winner);
            let top: nat = if ranks[winner] <= ranks[loser] {
                (ranks[loser] + 1) as nat
            } else {
                ranks[winner]
            };
            let next_ranks = ranks.update(winner, top);
            self.reps@ = next;
            self.ranks@ = next_ranks;
            assert forall|x: int| 0 <= x < next.len() && next[x] == x implies (
            #[trigger] self.size@[x]) == members(next, x) by {
                lemma_members_moved(reps, loser, winner, x);
            }
            assert forall|x: int| 0 <= x < next.len() implies {
                &&& (#[trigger] self.parent@[x]) < next.len()
                &&& next[self.parent@[x] as int] == next[x]
                &&& (self.parent@[x] == x <==> next[x] == x)
                &&& (self.parent@[x] != x ==> next_ranks[x] < next_ranks[self.parent@[x] as int])
                &&& next_ranks[x] <= next_ranks[next[x]]
            } by {
                assert(links[x] < n);
                assert(reps[reps[x]] == reps[x]);
                assert(ranks[x] <= ranks[reps[x]]);
            }
        }
    }

    /// How many elements the forest has.
    pub fn len(&self) -> (r: usize)
        requires
            self.wf(),
        ensures
            r == self@.len(),
    {
        self.parent.len()
    }

    /// Whether the forest has no element.
    pub fn is_empty(&self) -> (r: bool)
        requires
            self.wf(),
        ensures
            r == (self@.len() == 0),
    {
        self.parent.len() == 0
    }
}

/// At first every element is alone. Merging two sets, the representative of the one with
/// more elements comes to stand for both, and of two equally large ones that of `a`'s.
pub proof fn the_larger_set_takes_the_smaller_in(reps: Seq<int>, a: int, b: int, x: int, n: nat)
    requires
        0 <= a < reps.len(),
        0 <= b < reps.len(),
        0 <= x < reps.len(),
    ensures
        ({
            let in_a = reps.filter(|r: int| r == reps[a]).len();
            let in_b = reps.filter(|r: int| r == reps[b]).len();
            let kept = if in_a >= in_b {
                reps[a]
            } else {
                reps[b]
            };
            merged(reps, a, b)[x] == if reps[x] == reps[a] || reps[x] == reps[b] {
                kept
            } else {
                reps[x]
            }
        }),
        singletons(n).len() == n,
        forall|i: int| 0 <= i < n ==> #[trigger] singletons(n)[i] == i,
{
    let (p, q) = (reps[a], reps[b]);
    lemma_members_are_counted(reps, p);
    lemma_members_are_counted(reps, q);
    assert((|r: int| r == reps[a]) =~= (|r: int| r == p));
    assert((|r: int| r == reps[b]) =~= (|r: int| r == q));
}

proof fn lemma_members_are_counted(reps: Seq<int>, r: int)
    ensures
        members(reps, r) == reps.filter(|e: int| e == r).len(),
    decreases reps.len(),
{
    reveal(Seq::filter);
    if reps.len() > 0 {
        lemma_members_are_counted(reps.drop_last(), r);
    }
}

} // verus!
