//! Union-find forest with path halving and union by rank.

use vstd::prelude::*;

verus! {

/// The node reached from `i` by following parent links until a node that is
/// its own parent, or until `fuel` links have been followed.
pub open spec fn climb(parent: Seq<usize>, i: int, fuel: nat) -> int
    decreases fuel,
{
    if fuel == 0 || parent[i] == i {
        i
    } else {
        climb(parent, parent[i] as int, (fuel - 1) as nat)
    }
}

/// The parent links after path halving from `i`: as long as `i` is no root,
/// it is linked to its grandparent, and the halving goes on from there; at
/// most `fuel` links are changed.
pub open spec fn halved(parent: Seq<usize>, i: int, fuel: nat) -> Seq<usize>
    decreases fuel,
{
    if fuel == 0 || parent[i] == i {
        parent
    } else {
        halved(
            parent.update(i, parent[parent[i] as int]),
            parent[parent[i] as int] as int,
            (fuel - 1) as nat,
        )
    }
}

/// The sum of the ranks of the roots among the first `k` nodes.
pub open spec fn root_ranks(parent: Seq<usize>, rank: Seq<usize>, k: int) -> int
    decreases k,
{
    if k <= 0 {
        0
    } else {
        root_ranks(parent, rank, k - 1) + if parent[k - 1] == k - 1 {
            rank[k - 1] as int
        } else {
            0
        }
    }
}

/// The arrays describe a forest: parents are nodes, ranks grow strictly
/// towards the root, and the ranks of the roots sum to no more than the
/// number of nodes.
pub open spec fn forest(parent: Seq<usize>, rank: Seq<usize>) -> bool {
    &&& parent.len() == rank.len()
    &&& forall|i: int| 0 <= i < parent.len() ==> #[trigger] parent[i] < parent.len()
    &&& forall|i: int| 0 <= i < parent.len() ==> 1 <= #[trigger] rank[i] <= parent.len()
    &&& forall|i: int|
        0 <= i < parent.len() && #[trigger] parent[i] != i ==> rank[i] < rank[parent[i] as int]
    &&& root_ranks(parent, rank, parent.len() as int) <= parent.len()
}

/// With enough fuel the climb ends in a root, and more fuel does not change
/// where it ends.
pub proof fn lemma_climb(parent: Seq<usize>, rank: Seq<usize>, i: int, fuel: nat, more: nat)
    requires
        forest(parent, rank),
        0 <= i < parent.len(),
        fuel + rank[i] >= parent.len(),
        more + rank[i] >= parent.len(),
    ensures
        0 <= climb(parent, i, fuel) < parent.len(),
        parent[climb(parent, i, fuel)] == climb(parent, i, fuel),
        rank[i] <= rank[climb(parent, i, fuel)],
        climb(parent, i, fuel) == climb(parent, i, more),
    decreases fuel,
{
    if parent[i] != i {
        lemma_climb(parent, rank, parent[i] as int, (fuel - 1) as nat, (more - 1) as nat);
    }
}

/// A node and its parent climb to the same root.
pub proof fn lemma_climb_parent(parent: Seq<usize>, rank: Seq<usize>, i: int)
    requires
        forest(parent, rank),
        0 <= i < parent.len(),
    ensures
        climb(parent, i, parent.len()) == climb(parent, parent[i] as int, parent.len()),
{
    if parent[i] != i {
        lemma_climb(
            parent,
            rank,
            parent[i] as int,
            (parent.len() - 1) as nat,
            parent.len(),
        );
    }
}

/// A change of the parent of a node that was no root and is none now leaves
/// the sum of the root ranks as it was.
proof fn lemma_root_ranks_same(
    parent: Seq<usize>,
    rank: Seq<usize>,
    x: int,
    to: usize,
    k: int,
)
    requires
        0 <= x < parent.len(),
        0 <= k <= parent.len(),
        parent[x] != x,
        to != x,
    ensures
        root_ranks(parent.update(x, to), rank, k) == root_ranks(parent, rank, k),
    decreases k,
{
    if k > 0 {
        lemma_root_ranks_same(parent, rank, x, to, k - 1);
    }
}

/// The sum of the root ranks covers the ranks of any two distinct roots.
proof fn lemma_root_ranks_two(parent: Seq<usize>, rank: Seq<usize>, a: int, b: int, k: int)
    requires
        0 <= a < k,
        0 <= b < k,
        a != b,
        k <= parent.len(),
        parent[a] == a,
        parent[b] == b,
    ensures
        root_ranks(parent, rank, k) >= rank[a] + rank[b],
    decreases k,
{
    if a == k - 1 {
        lemma_root_ranks_one(parent, rank, b, k - 1);
    } else if b == k - 1 {
        lemma_root_ranks_one(parent, rank, a, k - 1);
    } else {
        lemma_root_ranks_two(parent, rank, a, b, k - 1);
    }
}

proof fn lemma_root_ranks_one(parent: Seq<usize>, rank: Seq<usize>, a: int, k: int)
    requires
        0 <= a < k <= parent.len(),
        parent[a] == a,
    ensures
        root_ranks(parent, rank, k) >= rank[a],
        root_ranks(parent, rank, k) >= 0,
    decreases k,
{
    if a < k - 1 {
        lemma_root_ranks_one(parent, rank, a, k - 1);
    } else {
        lemma_root_ranks_nonnegative(parent, rank, k - 1);
    }
}

proof fn lemma_root_ranks_nonnegative(parent: Seq<usize>, rank: Seq<usize>, k: int)
    ensures
        root_ranks(parent, rank, k) >= 0,
    decreases k,
{
    if k > 0 {
        lemma_root_ranks_nonnegative(parent, rank, k - 1);
    }
}

/// Hanging the root `lose` below the root `win`, and raising the rank of
/// `win` to `top`, changes the sum of the root ranks by `top - rank[win] -
/// rank[lose]`.
proof fn lemma_root_ranks_link(
    parent: Seq<usize>,
    rank: Seq<usize>,
    win: int,
    lose: int,
    top: usize,
    k: int,
)
    requires
        parent.len() == rank.len(),
        0 <= win < parent.len(),
        0 <= lose < parent.len(),
        0 <= k <= parent.len(),
        win != lose,
        parent[win] == win,
        parent[lose] == lose,
    ensures
        root_ranks(parent.update(lose, win as usize), rank.update(win, top), k) == root_ranks(
            parent,
            rank,
            k,
        ) + (if win < k {
            top - rank[win]
        } else {
            0
        }) - (if lose < k {
            rank[lose] as int
        } else {
            0
        }),
    decreases k,
{
    if k > 0 {
        lemma_root_ranks_link(parent, rank, win, lose, top, k - 1);
    }
}

/// Path halving at `x` leaves the root of every node as it was.
proof fn lemma_halve(parent: Seq<usize>, rank: Seq<usize>, x: int, j: int)
    requires
        forest(parent, rank),
        0 <= x < parent.len(),
        0 <= j < parent.len(),
        parent[x] != x,
        forest(parent.update(x, parent[parent[x] as int]), rank),
    ensures
        climb(parent.update(x, parent[parent[x] as int]), j, parent.len()) == climb(
            parent,
            j,
            parent.len(),
        ),
    decreases parent.len() - rank[j],
{
    let halved = parent.update(x, parent[parent[x] as int]);
    if halved[j] != j {
        let q = halved[j] as int;
        lemma_climb_parent(halved, rank, j);
        lemma_halve(parent, rank, x, q);
        lemma_climb_parent(parent, rank, j);
        if j == x {
            lemma_climb_parent(parent, rank, parent[x] as int);
        }
    } else {
        assert(parent[j] == j);
    }
}

/// Hanging the root `lose` below the root `win` moves the nodes of `lose`
/// to `win` and leaves the root of every other node as it was.
proof fn lemma_link(
    parent: Seq<usize>,
    rank: Seq<usize>,
    linked: Seq<usize>,
    raised: Seq<usize>,
    win: int,
    lose: int,
    j: int,
)
    requires
        forest(parent, rank),
        forest(linked, raised),
        0 <= win < parent.len(),
        0 <= lose < parent.len(),
        0 <= j < parent.len(),
        win != lose,
        parent[win] == win,
        parent[lose] == lose,
        linked == parent.update(lose, win as usize),
    ensures
        climb(linked, j, parent.len()) == if climb(parent, j, parent.len()) == lose {
            win
        } else {
            climb(parent, j, parent.len())
        },
    decreases parent.len() - raised[j],
{
    if linked[j] != j {
        let q = linked[j] as int;
        lemma_climb_parent(linked, raised, j);
        lemma_link(parent, rank, linked, raised, win, lose, q);
        lemma_climb_parent(parent, rank, j);
    } else {
        assert(parent[j] == j);
    }
}

/// A partition of `0..s` into disjoint sets, each named by one of its
/// members.
pub struct SetForest {
    parent: Vec<usize>,
    rank: Vec<usize>,
}

impl SetForest {
    /// The parent link of every node; a root is its own parent.
    pub closed spec fn parents(&self) -> Seq<usize> {
        self.parent@
    }

    /// The rank of every node.
    pub closed spec fn ranks(&self) -> Seq<usize> {
        self.rank@
    }

    /// The arrays describe a forest.
    pub open spec fn wf(&self) -> bool {
        forest(self.parents(), self.ranks())
    }

    /// The number of nodes.
    pub open spec fn size(&self) -> nat {
        self.parents().len()
    }

    /// The member that names the set of `i`: the root of its tree.
    pub open spec fn rep(&self, i: int) -> int {
        climb(self.parents(), i, self.parents().len())
    }

    /// The parent links as they are stored.
    pub fn parent(&self) -> (res: &Vec<usize>)
        ensures
            res@ == self.parents(),
    {
        &self.parent
    }

    /// The ranks as they are stored.
    pub fn rank(&self) -> (res: &Vec<usize>)
        ensures
            res@ == self.ranks(),
    {
        &self.rank
    }

    /// `s` sets of one member each, every rank `1`.
    pub fn new(s: usize) -> (res: Self)
        ensures
            res.wf(),
            res.size() == s,
            forall|i: int| 0 <= i < s ==> res.parents()[i] == i && res.ranks()[i] == 1,
            forall|i: int| 0 <= i < s ==> res.rep(i) == i,
    {
        let mut parent: Vec<usize> = Vec::new();
        let mut rank: Vec<usize> = Vec::new();
        let mut i: usize = 0;
        while i < s
            invariant
                i <= s,
                parent.len() == i,
                rank.len() == i,
                forall|j: int| 0 <= j < i ==> parent@[j] == j && rank@[j] == 1,
                root_ranks(parent@, rank@, i as int) == i,
            decreases s - i,
        {
            let ghost before = parent@;
            let ghost ranks = rank@;
            parent.push(i);
            rank.push(1);
            proof {
                lemma_root_ranks_prefix(before, ranks, parent@, rank@, i as int);
            }
            i += 1;
        }
        SetForest { parent, rank }
    }

    /// The member that names the set of `i`. Every second node on the way
    /// to it is linked to its grandparent; no set changes.
    pub fn find(&mut self, i: usize) -> (res: usize)
        requires
            old(self).wf(),
            i < old(self).size(),
        ensures
            final(self).wf(),
            final(self).size() == old(self).size(),
            final(self).ranks() == old(self).ranks(),
            final(self).parents() == halved(old(self).parents(), i as int, old(self).size()),
            res == old(self).rep(i as int),
            res < old(self).size(),
            final(self).parents()[res as int] == res,
            forall|j: int| 0 <= j < old(self).size() ==> final(self).rep(j) == old(self).rep(j),
            forall|j: int|
                0 <= j < old(self).size() && old(self).parents()[j] == j
                    ==> #[trigger] final(self).parents()[j] == j,
    {
        let ghost len = self.parent@.len();
        let ghost start = i as int;
        let ghost mut fuel: nat = len;
        let mut i = i;
        while i != self.parent[i]
            invariant
                self.parent@.len() == len,
                fuel + self.rank@[i as int] >= len + 1,
                halved(self.parent@, i as int, fuel) == halved(old(self).parent@, start, len),
                self.rank@ == old(self).rank@,
                forest(self.parent@, self.rank@),
                i < len,
                0 <= start < len,
                climb(self.parent@, i as int, len) == climb(old(self).parent@, start, len),
                forall|j: int|
                    0 <= j < len && old(self).parent@[j] == j ==> #[trigger] self.parent@[j] == j,
                forall|j: int|
                    0 <= j < len ==> climb(self.parent@, j, len) == climb(
                        old(self).parent@,
                        j,
                        len,
                    ),
            decreases len - self.rank@[i as int],
        {
            let ghost before = self.parent@;
            let up = self.parent[i];
            let over = self.parent[up];
            proof {
                lemma_root_ranks_same(before, self.rank@, i as int, over, len as int);
                assert(forest(before.update(i as int, over), self.rank@));
                assert forall|j: int| 0 <= j < len implies climb(
                    before.update(i as int, over),
                    j,
                    len,
                ) == climb(before, j, len) by {
                    lemma_halve(before, self.rank@, i as int, j);
                }
                lemma_climb_parent(before.update(i as int, over), self.rank@, i as int);
            }
            self.parent[i] = over;
            i = self.parent[i];
            proof {
                fuel = (fuel - 1) as nat;
            }
        }
        proof {
            assert(climb(self.parent@, i as int, len) == i);
        }
        i
    }

    /// Unites the sets of `u` and `v`, and tells whether they were one set
    /// already.
    ///
    /// Of two different sets the one whose root has the lower rank is hung
    /// below the other, and below the root of `u` when the ranks are equal;
    /// then the rank of the root that stays goes up by one.
    pub fn join(&mut self, u: usize, v: usize) -> (res: bool)
        requires
            old(self).wf(),
            u < old(self).size(),
            v < old(self).size(),
        ensures
            final(self).wf(),
            final(self).size() == old(self).size(),
            res == (old(self).rep(u as int) == old(self).rep(v as int)),
            res ==> final(self).ranks() == old(self).ranks() && forall|j: int|
                0 <= j < old(self).size() ==> final(self).rep(j) == old(self).rep(j),
            !res ==> ({
                let ru = old(self).rep(u as int);
                let rv = old(self).rep(v as int);
                let win = if old(self).ranks()[ru] < old(self).ranks()[rv] {
                    rv
                } else {
                    ru
                };
                let lose = if old(self).ranks()[ru] < old(self).ranks()[rv] {
                    ru
                } else {
                    rv
                };
                &&& forall|j: int|
                    0 <= j < old(self).size() ==> final(self).rep(j) == if old(self).rep(j)
                        == lose {
                        win
                    } else {
                        old(self).rep(j)
                    }
                &&& final(self).ranks() == if old(self).ranks()[ru] == old(self).ranks()[rv] {
                    old(self).ranks().update(win, (old(self).ranks()[win] + 1) as usize)
                } else {
                    old(self).ranks()
                }
                &&& final(self).parents() == halved(
                    halved(old(self).parents(), u as int, old(self).size()),
                    v as int,
                    old(self).size(),
                ).update(lose, win as usize)
            }),
            res ==> final(self).parents() == halved(
                halved(old(self).parents(), u as int, old(self).size()),
                v as int,
                old(self).size(),
            ),
    {
        let ghost len = self.parent@.len();
        let mut pu = self.find(u);
        let mut pv = self.find(v);
        if pu == pv {
            true
        } else {
            if self.rank[pu] < self.rank[pv] {
                core::mem::swap(&mut pu, &mut pv);
            }
            let ghost parent1 = self.parent@;
            let ghost rank1 = self.rank@;
            proof {
                lemma_root_ranks_two(parent1, rank1, pu as int, pv as int, len as int);
                assert(self.parent.len() == len);
                assert(rank1[pu as int] + rank1[pv as int] <= len);
            }
            self.parent[pv] = pu;
            if self.rank[pu] == self.rank[pv] {
                self.rank[pu] += 1;
            }
            proof {
                lemma_root_ranks_link(
                    parent1,
                    rank1,
                    pu as int,
                    pv as int,
                    self.rank@[pu as int],
                    len as int,
                );
                assert(self.rank@ =~= rank1.update(pu as int, self.rank@[pu as int]));
                assert(forest(self.parent@, self.rank@));
                assert forall|j: int| 0 <= j < len implies climb(self.parent@, j, len) == if climb(
                    parent1,
                    j,
                    len,
                ) == pv {
                    pu as int
                } else {
                    climb(parent1, j, len)
                } by {
                    lemma_link(parent1, rank1, self.parent@, self.rank@, pu as int, pv as int, j);
                }
            }
            false
        }
    }
}

/// Appending a root of rank `1` adds `1` to the sum of the root ranks.
proof fn lemma_root_ranks_prefix(
    parent: Seq<usize>,
    rank: Seq<usize>,
    longer: Seq<usize>,
    ranks: Seq<usize>,
    k: int,
)
    requires
        0 <= k <= parent.len(),
        parent.len() == rank.len(),
        longer.len() > parent.len(),
        ranks.len() > rank.len(),
        forall|j: int| 0 <= j < parent.len() ==> longer[j] == parent[j] && ranks[j] == rank[j],
    ensures
        root_ranks(longer, ranks, k) == root_ranks(parent, rank, k),
    decreases k,
{
    if k > 0 {
        lemma_root_ranks_prefix(parent, rank, longer, ranks, k - 1);
    }
}

} // verus!
