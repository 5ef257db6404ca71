//! Heavy-light decomposition of a rooted tree.
//!
//! Two traversals with a stack of their own walk the tree from the root.
//! The first finds parent and depth of every node and, for every node with
//! children, the child to go on with: the one with the largest subtree. The
//! second numbers the nodes so that every chain of such children gets
//! consecutive positions, and notes for every node the head of its chain.

use crate::graph::Graph;
use vstd::prelude::*;

verus! {

/// The target of the `i`-th edge that leaves `a`.
pub open spec fn target<T>(graph: &Graph<T>, a: int, i: int) -> int {
    graph.adjacent(a)[i].0 as int
}

/// The graph is a tree with the root `root`, in which `par` gives the parent
/// of every node and `level` its distance from the root.
///
/// Every edge leads to the parent or to a child of the node it leaves, so a
/// tree may hold its edges in one direction or in both. No node lists one
/// child twice.
pub open spec fn rooted<T>(graph: &Graph<T>, root: int, par: Seq<int>, level: Seq<nat>) -> bool {
    let n = graph.size() as int;
    &&& graph.wf()
    &&& par.len() == n
    &&& level.len() == n
    &&& 0 <= root < n
    &&& par[root] == root
    &&& level[root] == 0
    &&& forall|v: int| 0 <= v < n ==> 0 <= #[trigger] par[v] < n
    &&& forall|v: int| 0 <= v < n && v != root ==> #[trigger] level[v] == level[par[v]] + 1
    &&& forall|a: int, i: int|
        0 <= a < n && 0 <= i < graph.adjacent(a).len() ==> {
            let b = #[trigger] target(graph, a, i);
            0 <= b < n && (b == par[a] || (par[b] == a && b != root))
        }
    &&& forall|a: int, i: int, j: int|
        0 <= a < n && 0 <= i < j < graph.adjacent(a).len() && #[trigger] target(graph, a, i)
            == #[trigger] target(graph, a, j) ==> target(graph, a, i) == par[a]
}

/// The sum of the sizes of the first `k` nodes on the stack.
spec fn mass(stack: Seq<usize>, sizes: Seq<usize>, k: int) -> int
    decreases k,
{
    if k <= 0 {
        0
    } else {
        mass(stack, sizes, k - 1) + sizes[stack[k - 1] as int]
    }
}

/// The number of entries among the first `k` that are not `0`.
spec fn filled(sizes: Seq<usize>, k: int) -> int
    decreases k,
{
    if k <= 0 {
        0
    } else {
        filled(sizes, k - 1) + if sizes[k - 1] != 0 {
            1int
        } else {
            0int
        }
    }
}

proof fn lemma_filled_bound(sizes: Seq<usize>, k: int)
    requires
        0 <= k,
    ensures
        0 <= filled(sizes, k) <= k,
    decreases k,
{
    if k > 0 {
        lemma_filled_bound(sizes, k - 1);
    }
}

/// An entry that is `0` leaves room for one more.
proof fn lemma_filled_room(sizes: Seq<usize>, k: int, v: int)
    requires
        0 <= v < k,
        sizes[v] == 0,
    ensures
        filled(sizes, k) <= k - 1,
    decreases k,
{
    if v < k - 1 {
        lemma_filled_room(sizes, k - 1, v);
    } else {
        lemma_filled_bound(sizes, k - 1);
    }
}

proof fn lemma_filled_update(sizes: Seq<usize>, k: int, x: int, value: usize)
    requires
        0 <= x < sizes.len(),
        0 <= k <= sizes.len(),
    ensures
        filled(sizes.update(x, value), k) == filled(sizes, k) + if x < k {
            (if value != 0 {
                1int
            } else {
                0int
            }) - (if sizes[x] != 0 {
                1int
            } else {
                0int
            })
        } else {
            0int
        },
    decreases k,
{
    if k > 0 {
        lemma_filled_update(sizes, k - 1, x, value);
    }
}

proof fn lemma_mass_bounds(stack: Seq<usize>, sizes: Seq<usize>, a: int, b: int)
    requires
        0 <= a <= b,
    ensures
        0 <= mass(stack, sizes, a) <= mass(stack, sizes, b),
    decreases b,
{
    if a < b {
        lemma_mass_bounds(stack, sizes, a, b - 1);
    } else if a > 0 {
        lemma_mass_bounds(stack, sizes, a - 1, a - 1);
    }
}

/// The mass of a prefix does not depend on what lies behind it.
proof fn lemma_mass_prefix(stack: Seq<usize>, other: Seq<usize>, sizes: Seq<usize>, k: int)
    requires
        0 <= k <= stack.len(),
        k <= other.len(),
        forall|i: int| 0 <= i < k ==> stack[i] == other[i],
    ensures
        mass(stack, sizes, k) == mass(other, sizes, k),
    decreases k,
{
    if k > 0 {
        lemma_mass_prefix(stack, other, sizes, k - 1);
    }
}

/// A change of the size of `x`, which stands at `at` on the stack and
/// nowhere else, or nowhere for `at == -1`, changes the mass by as much.
proof fn lemma_mass_update(
    stack: Seq<usize>,
    sizes: Seq<usize>,
    k: int,
    x: int,
    at: int,
    value: usize,
)
    requires
        0 <= k <= stack.len(),
        0 <= x < sizes.len(),
        forall|i: int| 0 <= i < stack.len() ==> #[trigger] stack[i] < sizes.len(),
        -1 <= at < stack.len(),
        at >= 0 ==> stack[at] == x,
        forall|i: int| 0 <= i < stack.len() && i != at ==> #[trigger] stack[i] != x,
    ensures
        mass(stack, sizes.update(x, value), k) == mass(stack, sizes, k) + if 0 <= at < k {
            value - sizes[x]
        } else {
            0
        },
    decreases k,
{
    if k > 0 {
        lemma_mass_update(stack, sizes, k - 1, x, at, value);
    }
}

/// The stack holds nodes, none of them twice, with the root at the bottom,
/// and `below[i]` is the place of the parent of `stack[i]`.
#[verifier::opaque]
spec fn stacked(n: int, root: int, par: Seq<int>, stack: Seq<usize>, below: Seq<int>) -> bool {
    &&& below.len() == stack.len()
    &&& forall|i: int| 0 <= i < stack.len() ==> #[trigger] stack[i] < n
    &&& forall|i: int, j: int|
        0 <= i < j < stack.len() ==> #[trigger] stack[i] != #[trigger] stack[j]
    &&& (stack.len() > 0 ==> stack[0] == root)
    &&& forall|i: int|
        1 <= i < stack.len() ==> 0 <= #[trigger] below[i] < i && stack[below[i]] == par[stack[i] as int]
            && stack[i] != root
}

/// Every node on the stack has been seen, and its depth is covered by the
/// sizes of the nodes below it.
#[verifier::opaque]
spec fn covered(depths: Seq<usize>, sizes: Seq<usize>, stack: Seq<usize>) -> bool {
    forall|i: int|
        0 <= i < stack.len() ==> depths[#[trigger] stack[i] as int] != 0 && depths[stack[i] as int]
            <= mass(stack, sizes, i) + 1
}

/// Every node that has been seen has its parent and its depth, and its
/// parent is open or closed.
#[verifier::opaque]
spec fn seen(
    root: int,
    par: Seq<int>,
    level: Seq<nat>,
    parents: Seq<usize>,
    depths: Seq<usize>,
    sizes: Seq<usize>,
) -> bool {
    forall|v: int|
        0 <= v < depths.len() && #[trigger] depths[v] != 0 ==> parents[v] == par[v] && depths[v]
            == level[v] + 1 && (v != root ==> sizes[par[v]] >= 1)
}

/// A node that has not been seen has no size and is its own chain.
#[verifier::opaque]
spec fn unseen(depths: Seq<usize>, sizes: Seq<usize>, chains: Seq<usize>) -> bool {
    forall|v: int|
        0 <= v < depths.len() && #[trigger] depths[v] == 0 ==> sizes[v] == 0 && chains[v] == v
}

/// A node that has been seen and has no size yet waits on the stack.
#[verifier::opaque]
spec fn waiting(depths: Seq<usize>, sizes: Seq<usize>, stack: Seq<usize>) -> bool {
    forall|v: int|
        0 <= v < depths.len() && depths[v] != 0 && #[trigger] sizes[v] == 0 ==> stack.contains(
            v as usize,
        )
}

/// While the root is on the stack, the sizes on the stack add up to the
/// number of nodes that have a size.
spec fn balanced(sizes: Seq<usize>, stack: Seq<usize>) -> bool {
    stack.len() > 0 ==> mass(stack, sizes, stack.len() as int) == filled(sizes, sizes.len() as int)
}

/// The chain of every node goes on with the node itself or with one of its
/// children that has been seen.
#[verifier::opaque]
spec fn chained(root: int, par: Seq<int>, depths: Seq<usize>, chains: Seq<usize>) -> bool {
    forall|v: int|
        0 <= v < chains.len() ==> #[trigger] chains[v] < chains.len() && (chains[v] == v || (
        par[chains[v] as int] == v && chains[v] != root && depths[chains[v] as int] != 0))
}

/// Every node but the root that has been seen is listed by its parent,
/// which has been seen as well.
#[verifier::opaque]
spec fn reached<T>(graph: &Graph<T>, root: int, par: Seq<int>, depths: Seq<usize>) -> bool {
    forall|b: int|
        0 <= b < depths.len() && b != root && #[trigger] depths[b] != 0 ==> depths[par[b]] != 0
            && exists|j: int|
            0 <= j < graph.adjacent(par[b]).len() && #[trigger] target(graph, par[b], j) == b
}

/// What the first traversal has found so far.
///
/// `stack` holds the path from the root to the node at work and, above
/// each node of the path, those of its children that are still to come. A
/// node is seen once it has a depth, and open from the time it gets a size
/// until it leaves the stack.
#[verifier::opaque]
spec fn walking<T>(
    graph: &Graph<T>,
    root: int,
    par: Seq<int>,
    level: Seq<nat>,
    parents: Seq<usize>,
    depths: Seq<usize>,
    chains: Seq<usize>,
    sizes: Seq<usize>,
    stack: Seq<usize>,
    below: Seq<int>,
) -> bool {
    let n = graph.size() as int;
    &&& rooted(graph, root, par, level)
    &&& n <= usize::MAX
    &&& parents.len() == n
    &&& depths.len() == n
    &&& chains.len() == n
    &&& sizes.len() == n
    &&& depths[root] == 1
    &&& stacked(n, root, par, stack, below)
    &&& covered(depths, sizes, stack)
    &&& seen(root, par, level, parents, depths, sizes)
    &&& unseen(depths, sizes, chains)
    &&& waiting(depths, sizes, stack)
    &&& balanced(sizes, stack)
    &&& chained(root, par, depths, chains)
    &&& reached(graph, root, par, depths)
}

/// Every child that `v` lists among its first `k` edges has been seen.
spec fn listed<T>(
    graph: &Graph<T>,
    par: Seq<int>,
    depths: Seq<usize>,
    v: int,
    k: int,
) -> bool {
    forall|i: int|
        0 <= i < k && #[trigger] target(graph, v, i) != par[v] ==> depths[target(graph, v, i)] != 0
}

/// Every open or closed node but `except` has seen all its children.
spec fn settled<T>(
    graph: &Graph<T>,
    par: Seq<int>,
    depths: Seq<usize>,
    sizes: Seq<usize>,
    except: int,
) -> bool {
    forall|v: int|
        0 <= v < graph.size() && v != except && #[trigger] sizes[v] != 0 ==> listed(
            graph,
            par,
            depths,
            v,
            graph.adjacent(v).len() as int,
        )
}

/// The children of `now` that have been seen are among the first `done`
/// that it lists.
spec fn counted<T>(
    graph: &Graph<T>,
    root: int,
    par: Seq<int>,
    depths: Seq<usize>,
    now: int,
    done: int,
) -> bool {
    forall|b: int|
        0 <= b < graph.size() && par[b] == now && b != root && #[trigger] depths[b] != 0
            ==> exists|j: int| 0 <= j < done && #[trigger] target(graph, now, j) == b
}

/// What is known of the node on top of a stack.
proof fn lemma_stack_top(
    n: int,
    root: int,
    par: Seq<int>,
    depths: Seq<usize>,
    sizes: Seq<usize>,
    stack: Seq<usize>,
    below: Seq<int>,
)
    requires
        stacked(n, root, par, stack, below),
        covered(depths, sizes, stack),
        stack.len() > 0,
    ensures
        stack.last() < n,
        depths[stack.last() as int] != 0,
        stack.last() == root <==> stack.len() == 1,
        forall|i: int| 0 <= i < stack.len() - 1 ==> #[trigger] stack[i] != stack.last(),
        stack.len() > 1 ==> 0 <= below.last() < stack.len() - 1 && stack[below.last()]
            == par[stack.last() as int] && depths[par[stack.last() as int]] != 0 && forall|i: int|
            0 <= i < stack.len() && i != below.last() ==> #[trigger] stack[i]
                != par[stack.last() as int],
        forall|i: int| 0 <= i < stack.len() ==> #[trigger] stack[i] < n,
{
    reveal(stacked);
    reveal(covered);
    let top = stack.len() - 1;
    assert(stack[top] == stack.last());
    assert(depths[stack[top] as int] != 0);
    if top > 0 {
        let q = below[top];
        assert(below.last() == q);
        assert(0 <= q < top);
        assert(depths[stack[q] as int] != 0);
        assert(stack[0] != stack[top]);
        assert forall|i: int| 0 <= i < stack.len() && i != q implies #[trigger] stack[i]
            != par[stack.last() as int] by {
            if i < q {
                assert(stack[i] != stack[q]);
            } else {
                assert(stack[q] != stack[i]);
            }
        }
    }
    assert forall|i: int| 0 <= i < stack.len() - 1 implies #[trigger] stack[i] != stack.last() by {
        assert(stack[i] != stack[top]);
    }
}

/// A node that is not on the stack goes on top of it, above its parent at
/// `top`.
proof fn lemma_push_stacked(
    n: int,
    root: int,
    par: Seq<int>,
    stack: Seq<usize>,
    below: Seq<int>,
    top: int,
    next: usize,
)
    requires
        stacked(n, root, par, stack, below),
        0 <= top < stack.len(),
        next < n,
        next != root,
        par[next as int] == stack[top],
        forall|i: int| 0 <= i < stack.len() ==> #[trigger] stack[i] != next,
    ensures
        stacked(n, root, par, stack.push(next), below.push(top)),
{
    reveal(stacked);
    let len = stack.len() as int;
    let stack2 = stack.push(next);
    let below2 = below.push(top);
    assert forall|i: int|
        1 <= i < stack2.len() implies 0 <= #[trigger] below2[i] < i && stack2[below2[i]]
        == par[stack2[i] as int] && stack2[i] != root by {
        if i < len {
            assert(0 <= below[i] < i);
        }
    }
    assert forall|i: int, j: int| 0 <= i < j < stack2.len() implies #[trigger] stack2[i]
        != #[trigger] stack2[j] by {
        if j < len {
            assert(stack[i] != stack[j]);
        } else {
            assert(stack[i] != next);
        }
    }
}

proof fn lemma_pop_stacked(n: int, root: int, par: Seq<int>, stack: Seq<usize>, below: Seq<int>)
    requires
        stacked(n, root, par, stack, below),
        stack.len() > 0,
    ensures
        stacked(n, root, par, stack.drop_last(), below.drop_last()),
{
    reveal(stacked);
    let stack2 = stack.drop_last();
    let below2 = below.drop_last();
    assert forall|i: int|
        1 <= i < stack2.len() implies 0 <= #[trigger] below2[i] < i && stack2[below2[i]]
        == par[stack2[i] as int] && stack2[i] != root by {
        assert(0 <= below[i] < i);
    }
    assert forall|i: int, j: int| 0 <= i < j < stack2.len() implies #[trigger] stack2[i]
        != #[trigger] stack2[j] by {
        assert(stack[i] != stack[j]);
    }
}

/// Raising the size of a node keeps depths covered.
proof fn lemma_raise_covered(
    depths: Seq<usize>,
    sizes: Seq<usize>,
    stack: Seq<usize>,
    x: int,
    at: int,
    value: usize,
)
    requires
        covered(depths, sizes, stack),
        0 <= x < sizes.len(),
        forall|i: int| 0 <= i < stack.len() ==> #[trigger] stack[i] < sizes.len(),
        -1 <= at < stack.len(),
        at >= 0 ==> stack[at] == x,
        forall|i: int| 0 <= i < stack.len() && i != at ==> #[trigger] stack[i] != x,
        value >= sizes[x],
    ensures
        covered(depths, sizes.update(x, value), stack),
{
    reveal(covered);
    assert forall|i: int| 0 <= i < stack.len() implies depths[#[trigger] stack[i] as int] != 0
        && depths[stack[i] as int] <= mass(stack, sizes.update(x, value), i) + 1 by {
        lemma_mass_update(stack, sizes, i, x, at, value);
    }
}

/// Taking the top off the stack keeps depths covered.
proof fn lemma_pop_covered(depths: Seq<usize>, sizes: Seq<usize>, stack: Seq<usize>)
    requires
        covered(depths, sizes, stack),
        stack.len() > 0,
    ensures
        covered(depths, sizes, stack.drop_last()),
{
    reveal(covered);
    let shorter = stack.drop_last();
    assert forall|i: int| 0 <= i < shorter.len() implies depths[#[trigger] shorter[i] as int] != 0
        && depths[shorter[i] as int] <= mass(shorter, sizes, i) + 1 by {
        assert(depths[stack[i] as int] != 0);
        lemma_mass_prefix(shorter, stack, sizes, i);
    }
}

/// A node that has not been seen goes on the stack with a depth that the
/// sizes on the stack cover.
proof fn lemma_push_covered(
    depths: Seq<usize>,
    sizes: Seq<usize>,
    stack: Seq<usize>,
    next: usize,
    deep: usize,
)
    requires
        covered(depths, sizes, stack),
        next < depths.len(),
        forall|i: int| 0 <= i < stack.len() ==> #[trigger] stack[i] < depths.len(),
        depths[next as int] == 0,
        deep != 0,
        deep <= mass(stack, sizes, stack.len() as int) + 1,
    ensures
        covered(depths.update(next as int, deep), sizes, stack.push(next)),
{
    reveal(covered);
    let len = stack.len() as int;
    let stack2 = stack.push(next);
    let depths2 = depths.update(next as int, deep);
    lemma_mass_prefix(stack, stack2, sizes, len);
    assert forall|i: int| 0 <= i < stack2.len() implies depths2[#[trigger] stack2[i] as int] != 0
        && depths2[stack2[i] as int] <= mass(stack2, sizes, i) + 1 by {
        if i < len {
            lemma_mass_prefix(stack, stack2, sizes, i);
            assert(depths[stack[i] as int] != 0);
        }
    }
}

/// Raising a size keeps what is known of the nodes that have been seen.
proof fn lemma_raise_seen(
    root: int,
    par: Seq<int>,
    level: Seq<nat>,
    parents: Seq<usize>,
    depths: Seq<usize>,
    sizes: Seq<usize>,
    x: int,
    value: usize,
)
    requires
        seen(root, par, level, parents, depths, sizes),
        0 <= x < sizes.len(),
        value >= sizes[x],
        value >= 1,
        par.len() == depths.len(),
        sizes.len() == depths.len(),
        forall|v: int| 0 <= v < par.len() ==> 0 <= #[trigger] par[v] < par.len(),
    ensures
        seen(root, par, level, parents, depths, sizes.update(x, value)),
{
    reveal(seen);
    let sizes2 = sizes.update(x, value);
    assert forall|v: int|
        0 <= v < depths.len() && #[trigger] depths[v] != 0 implies parents[v] == par[v]
        && depths[v] == level[v] + 1 && (v != root ==> sizes2[par[v]] >= 1) by {
        assert(v != root ==> sizes[par[v]] >= 1);
        assert(0 <= par[v] < par.len());
    }
}

/// A node that has not been seen gets its parent and its depth.
proof fn lemma_push_seen(
    root: int,
    par: Seq<int>,
    level: Seq<nat>,
    parents: Seq<usize>,
    depths: Seq<usize>,
    sizes: Seq<usize>,
    now: usize,
    next: int,
)
    requires
        seen(root, par, level, parents, depths, sizes),
        0 <= next < depths.len(),
        parents.len() == depths.len(),
        now < depths.len(),
        depths[now as int] != 0,
        depths[now as int] < usize::MAX,
        par[next] == now,
        next != root,
        level[next] == level[now as int] + 1,
        sizes[now as int] >= 1,
    ensures
        seen(
            root,
            par,
            level,
            parents.update(next, now),
            depths.update(next, (depths[now as int] + 1) as usize),
            sizes,
        ),
{
    reveal(seen);
    let parents2 = parents.update(next, now);
    let depths2 = depths.update(next, (depths[now as int] + 1) as usize);
    assert forall|v: int|
        0 <= v < depths2.len() && #[trigger] depths2[v] != 0 implies parents2[v] == par[v]
        && depths2[v] == level[v] + 1 && (v != root ==> sizes[par[v]] >= 1) by {
        if v != next {
            assert(depths[v] != 0);
        }
    }
}

/// What is known of a node that has been seen.
proof fn lemma_seen_node(
    root: int,
    par: Seq<int>,
    level: Seq<nat>,
    parents: Seq<usize>,
    depths: Seq<usize>,
    sizes: Seq<usize>,
    v: int,
)
    requires
        seen(root, par, level, parents, depths, sizes),
        0 <= v < depths.len(),
        depths[v] != 0,
    ensures
        parents[v] == par[v],
        depths[v] == level[v] + 1,
        v != root ==> sizes[par[v]] >= 1,
{
    reveal(seen);
}

proof fn lemma_raise_unseen(
    depths: Seq<usize>,
    sizes: Seq<usize>,
    chains: Seq<usize>,
    x: int,
    value: usize,
)
    requires
        unseen(depths, sizes, chains),
        0 <= x < sizes.len(),
        sizes.len() == depths.len(),
        chains.len() == depths.len(),
        depths[x] != 0,
    ensures
        unseen(depths, sizes.update(x, value), chains),
        unseen(depths, sizes, chains.update(x, value)),
        unseen(depths, sizes.update(x, value), chains.update(x, value)),
{
    reveal(unseen);
}

proof fn lemma_push_unseen(
    depths: Seq<usize>,
    sizes: Seq<usize>,
    chains: Seq<usize>,
    next: int,
    deep: usize,
)
    requires
        unseen(depths, sizes, chains),
        0 <= next < depths.len(),
        deep != 0,
    ensures
        unseen(depths.update(next, deep), sizes, chains),
        depths[next] == 0 ==> sizes[next] == 0 && chains[next] == next,
{
    reveal(unseen);
    let depths2 = depths.update(next, deep);
    assert forall|v: int| 0 <= v < depths2.len() && #[trigger] depths2[v] == 0 implies sizes[v]
        == 0 && chains[v] == v by {
        assert(depths[v] == 0);
    }
}

proof fn lemma_raise_waiting(
    depths: Seq<usize>,
    sizes: Seq<usize>,
    stack: Seq<usize>,
    x: int,
    value: usize,
)
    requires
        waiting(depths, sizes, stack),
        0 <= x < sizes.len(),
        value != 0,
        sizes.len() == depths.len(),
    ensures
        waiting(depths, sizes.update(x, value), stack),
{
    reveal(waiting);
    let sizes2 = sizes.update(x, value);
    assert forall|v: int|
        0 <= v < depths.len() && depths[v] != 0 && #[trigger] sizes2[v] == 0 implies stack.contains(
        v as usize,
    ) by {
        assert(sizes[v] == 0);
    }
}

proof fn lemma_push_waiting(
    depths: Seq<usize>,
    sizes: Seq<usize>,
    stack: Seq<usize>,
    next: usize,
    deep: usize,
)
    requires
        waiting(depths, sizes, stack),
        next < depths.len(),
    ensures
        waiting(depths.update(next as int, deep), sizes, stack.push(next)),
{
    reveal(waiting);
    let len = stack.len() as int;
    let stack2 = stack.push(next);
    let depths2 = depths.update(next as int, deep);
    assert forall|v: int|
        0 <= v < depths2.len() && depths2[v] != 0 && #[trigger] sizes[v] == 0 implies stack2.contains(
        v as usize,
    ) by {
        if v == next {
            assert(stack2[len] == v as usize);
        } else {
            assert(stack.contains(v as usize));
            let i = choose|i: int| 0 <= i < stack.len() && stack[i] == v as usize;
            assert(stack2[i] == v as usize);
        }
    }
}

/// A node that has a size leaves the stack, where it stood once.
proof fn lemma_pop_waiting(depths: Seq<usize>, sizes: Seq<usize>, stack: Seq<usize>)
    requires
        waiting(depths, sizes, stack),
        stack.len() > 0,
        sizes[stack.last() as int] != 0,
        depths.len() <= usize::MAX,
    ensures
        waiting(depths, sizes, stack.drop_last()),
{
    reveal(waiting);
    let top = stack.len() - 1;
    let stack2 = stack.drop_last();
    assert forall|v: int|
        0 <= v < depths.len() && depths[v] != 0 && #[trigger] sizes[v] == 0 implies stack2.contains(
        v as usize,
    ) by {
        assert(stack.contains(v as usize));
        let i = choose|i: int| 0 <= i < stack.len() && stack[i] == v as usize;
        assert(stack[top] == stack.last());
        assert(i != top);
        assert(stack2[i] == v as usize);
    }
}

proof fn lemma_push_chained(
    root: int,
    par: Seq<int>,
    depths: Seq<usize>,
    chains: Seq<usize>,
    next: int,
    deep: usize,
)
    requires
        chained(root, par, depths, chains),
        0 <= next < depths.len(),
        chains.len() == depths.len(),
        deep != 0,
    ensures
        chained(root, par, depths.update(next, deep), chains),
{
    reveal(chained);
    let depths2 = depths.update(next, deep);
    assert forall|v: int|
        0 <= v < chains.len() implies #[trigger] chains[v] < chains.len() && (chains[v] == v || (
    par[chains[v] as int] == v && chains[v] != root && depths2[chains[v] as int] != 0)) by {
        if chains[v] != v {
            assert(depths[chains[v] as int] != 0);
        }
    }
}

/// The chain of `p` goes on with its child `now`.
proof fn lemma_set_chained(
    root: int,
    par: Seq<int>,
    depths: Seq<usize>,
    chains: Seq<usize>,
    p: int,
    now: usize,
)
    requires
        chained(root, par, depths, chains),
        0 <= p < chains.len(),
        now < chains.len(),
        par[now as int] == p,
        now != root,
        depths[now as int] != 0,
    ensures
        chained(root, par, depths, chains.update(p, now)),
{
    reveal(chained);
    let chains2 = chains.update(p, now);
    assert forall|v: int|
        0 <= v < chains2.len() implies #[trigger] chains2[v] < chains2.len() && (chains2[v] == v
        || (par[chains2[v] as int] == v && chains2[v] != root && depths[chains2[v] as int]
        != 0)) by {
        if v != p {
            assert(chains2[v] == chains[v]);
        }
    }
}

/// The parts of the state of the first traversal.
proof fn lemma_walking_parts<T>(
    graph: &Graph<T>,
    root: int,
    par: Seq<int>,
    level: Seq<nat>,
    parents: Seq<usize>,
    depths: Seq<usize>,
    chains: Seq<usize>,
    sizes: Seq<usize>,
    stack: Seq<usize>,
    below: Seq<int>,
)
    requires
        walking(graph, root, par, level, parents, depths, chains, sizes, stack, below),
    ensures
        rooted(graph, root, par, level),
        graph.size() <= usize::MAX,
        parents.len() == graph.size(),
        depths.len() == graph.size(),
        chains.len() == graph.size(),
        sizes.len() == graph.size(),
        depths[root] == 1,
        stacked(graph.size() as int, root, par, stack, below),
        covered(depths, sizes, stack),
        seen(root, par, level, parents, depths, sizes),
        unseen(depths, sizes, chains),
        waiting(depths, sizes, stack),
        balanced(sizes, stack),
        chained(root, par, depths, chains),
        reached(graph, root, par, depths),
{
    reveal(walking);
}

/// The state of the first traversal from its parts.
proof fn lemma_walking_whole<T>(
    graph: &Graph<T>,
    root: int,
    par: Seq<int>,
    level: Seq<nat>,
    parents: Seq<usize>,
    depths: Seq<usize>,
    chains: Seq<usize>,
    sizes: Seq<usize>,
    stack: Seq<usize>,
    below: Seq<int>,
)
    requires
        rooted(graph, root, par, level),
        graph.size() <= usize::MAX,
        parents.len() == graph.size(),
        depths.len() == graph.size(),
        chains.len() == graph.size(),
        sizes.len() == graph.size(),
        depths[root] == 1,
        stacked(graph.size() as int, root, par, stack, below),
        covered(depths, sizes, stack),
        seen(root, par, level, parents, depths, sizes),
        unseen(depths, sizes, chains),
        waiting(depths, sizes, stack),
        balanced(sizes, stack),
        chained(root, par, depths, chains),
        reached(graph, root, par, depths),
    ensures
        walking(graph, root, par, level, parents, depths, chains, sizes, stack, below),
{
    reveal(walking);
}

/// A node that its parent lists has been seen.
proof fn lemma_push_reached<T>(
    graph: &Graph<T>,
    root: int,
    par: Seq<int>,
    depths: Seq<usize>,
    now: int,
    done: int,
    deep: usize,
)
    requires
        reached(graph, root, par, depths),
        0 <= now < depths.len(),
        depths[now] != 0,
        0 <= done < graph.adjacent(now).len(),
        0 <= target(graph, now, done) < depths.len(),
        par[target(graph, now, done)] == now,
        deep != 0,
        forall|v: int| 0 <= v < depths.len() ==> 0 <= #[trigger] par[v] < depths.len(),
    ensures
        reached(graph, root, par, depths.update(target(graph, now, done), deep)),
{
    reveal(reached);
    let next = target(graph, now, done);
    let depths2 = depths.update(next, deep);
    assert forall|b: int|
        0 <= b < depths2.len() && b != root && #[trigger] depths2[b] != 0 implies depths2[par[b]]
        != 0 && exists|j: int|
        0 <= j < graph.adjacent(par[b]).len() && #[trigger] target(graph, par[b], j) == b by {
        assert(0 <= par[b] < depths.len());
        if b == next {
            assert(target(graph, par[b], done) == b);
        } else {
            assert(depths[b] != 0);
            assert(depths[par[b]] != 0);
            let j = choose|j: int|
                0 <= j < graph.adjacent(par[b]).len() && #[trigger] target(graph, par[b], j) == b;
            assert(target(graph, par[b], j) == b);
        }
    }
}

/// The node on top of the stack lies within the graph, and so does its
/// parent.
proof fn lemma_chains_top<T>(
    graph: &Graph<T>,
    root: int,
    par: Seq<int>,
    level: Seq<nat>,
    parents: Seq<usize>,
    depths: Seq<usize>,
    chains: Seq<usize>,
    sizes: Seq<usize>,
    stack: Seq<usize>,
    below: Seq<int>,
)
    requires
        walking(graph, root, par, level, parents, depths, chains, sizes, stack, below),
        stack.len() > 0,
    ensures
        parents.len() == graph.size(),
        depths.len() == graph.size(),
        chains.len() == graph.size(),
        sizes.len() == graph.size(),
        stack.last() < graph.size(),
        parents[stack.last() as int] == par[stack.last() as int],
        parents[stack.last() as int] < graph.size(),
        stack.last() == parents[stack.last() as int] <==> stack.last() == root,
        0 <= filled(sizes, graph.size() as int) <= graph.size(),
{
    let n = graph.size() as int;
    lemma_walking_parts(graph, root, par, level, parents, depths, chains, sizes, stack, below);
    lemma_stack_top(n, root, par, depths, sizes, stack, below);
    lemma_seen_node(root, par, level, parents, depths, sizes, stack.last() as int);
    lemma_filled_bound(sizes, n);
    assert(0 <= par[stack.last() as int] < n);
}

/// The node on top of the stack opens: it gets the size `1`.
proof fn lemma_chains_expand<T>(
    graph: &Graph<T>,
    root: int,
    par: Seq<int>,
    level: Seq<nat>,
    parents: Seq<usize>,
    depths: Seq<usize>,
    chains: Seq<usize>,
    sizes: Seq<usize>,
    stack: Seq<usize>,
    below: Seq<int>,
)
    requires
        walking(graph, root, par, level, parents, depths, chains, sizes, stack, below),
        settled(graph, par, depths, sizes, -1),
        stack.len() > 0,
        sizes[stack.last() as int] == 0,
    ensures
        walking(
            graph,
            root,
            par,
            level,
            parents,
            depths,
            chains,
            sizes.update(stack.last() as int, 1),
            stack,
            below,
        ),
        settled(graph, par, depths, sizes.update(stack.last() as int, 1), stack.last() as int),
        filled(sizes.update(stack.last() as int, 1), graph.size() as int) == filled(
            sizes,
            graph.size() as int,
        ) + 1,
        counted(graph, root, par, depths, stack.last() as int, 0),
{
    let n = graph.size() as int;
    let top = stack.len() - 1;
    let now = stack.last() as int;
    let sizes2 = sizes.update(now, 1);
    lemma_walking_parts(graph, root, par, level, parents, depths, chains, sizes, stack, below);
    lemma_stack_top(n, root, par, depths, sizes, stack, below);
    lemma_filled_update(sizes, n, now, 1);
    lemma_mass_update(stack, sizes, stack.len() as int, now, top, 1);
    lemma_raise_covered(depths, sizes, stack, now, top, 1);
    lemma_raise_seen(root, par, level, parents, depths, sizes, now, 1);
    lemma_raise_unseen(depths, sizes, chains, now, 1);
    lemma_raise_waiting(depths, sizes, stack, now, 1);
    lemma_walking_whole(graph, root, par, level, parents, depths, chains, sizes2, stack, below);
    assert(settled(graph, par, depths, sizes2, now)) by {
        assert forall|v: int| 0 <= v < n && v != now && #[trigger] sizes2[v] != 0 implies listed(
            graph,
            par,
            depths,
            v,
            graph.adjacent(v).len() as int,
        ) by {
            assert(sizes[v] != 0);
        }
    }
    assert(counted(graph, root, par, depths, now, 0)) by {
        assert forall|b: int|
            0 <= b < n && par[b] == now && b != root && #[trigger] depths[b] != 0 implies exists|
            j: int,
        | 0 <= j < 0 && #[trigger] target(graph, now, j) == b by {
            lemma_seen_node(root, par, level, parents, depths, sizes, b);
        }
    }
}

/// What is known of the child `target(now, done)` that `now` lists and that
/// is not its parent: it has not been seen, and the depth of `now` leaves
/// room for one more.
proof fn lemma_chains_child<T>(
    graph: &Graph<T>,
    root: int,
    par: Seq<int>,
    level: Seq<nat>,
    parents: Seq<usize>,
    depths: Seq<usize>,
    chains: Seq<usize>,
    sizes: Seq<usize>,
    stack: Seq<usize>,
    below: Seq<int>,
    top: int,
    done: int,
)
    requires
        walking(graph, root, par, level, parents, depths, chains, sizes, stack, below),
        0 <= top < stack.len(),
        sizes[stack[top] as int] == 1,
        0 <= done < graph.adjacent(stack[top] as int).len(),
        target(graph, stack[top] as int, done) != par[stack[top] as int],
        counted(graph, root, par, depths, stack[top] as int, done),
    ensures
        stack[top] < graph.size(),
        0 <= target(graph, stack[top] as int, done) < graph.size(),
        par[target(graph, stack[top] as int, done)] == stack[top],
        target(graph, stack[top] as int, done) != root,
        depths[target(graph, stack[top] as int, done)] == 0,
        sizes[target(graph, stack[top] as int, done)] == 0,
        forall|i: int|
            0 <= i < stack.len() ==> #[trigger] stack[i] != target(graph, stack[top] as int, done),
        depths[stack[top] as int] != 0,
        depths[stack[top] as int] + 1 <= graph.size(),
        depths[stack[top] as int] <= mass(stack, sizes, stack.len() as int),
        level[target(graph, stack[top] as int, done)] == level[stack[top] as int] + 1,
{
    let n = graph.size() as int;
    let now = stack[top] as int;
    let next = target(graph, now, done);
    let len = stack.len() as int;
    lemma_walking_parts(graph, root, par, level, parents, depths, chains, sizes, stack, below);
    assert(0 <= now < n && depths[now] != 0 && depths[now] <= mass(stack, sizes, top) + 1) by {
        reveal(stacked);
        reveal(covered);
        assert(stack[top] < n);
        assert(depths[stack[top] as int] != 0);
    }
    assert(0 <= next < n && par[next] == now && next != root);
    assert(depths[next] == 0) by {
        if depths[next] != 0 {
            let j = choose|j: int| 0 <= j < done && #[trigger] target(graph, now, j) == next;
            assert(target(graph, now, j) == target(graph, now, done));
        }
    }
    assert forall|i: int| 0 <= i < len implies #[trigger] stack[i] != next by {
        reveal(covered);
        assert(depths[stack[i] as int] != 0);
    }
    lemma_push_unseen(depths, sizes, chains, next, 1);
    reveal_with_fuel(mass, 2);
    assert(mass(stack, sizes, top + 1) == mass(stack, sizes, top) + sizes[stack[top] as int]);
    lemma_mass_bounds(stack, sizes, top + 1, len);
    lemma_filled_room(sizes, n, next);
}

/// The child that `now` lists goes on the stack with its parent and its
/// depth.
proof fn lemma_chains_push<T>(
    graph: &Graph<T>,
    root: int,
    par: Seq<int>,
    level: Seq<nat>,
    parents: Seq<usize>,
    depths: Seq<usize>,
    chains: Seq<usize>,
    sizes: Seq<usize>,
    stack: Seq<usize>,
    below: Seq<int>,
    top: int,
    done: int,
)
    requires
        walking(graph, root, par, level, parents, depths, chains, sizes, stack, below),
        0 <= top < stack.len(),
        sizes[stack[top] as int] == 1,
        0 <= done < graph.adjacent(stack[top] as int).len(),
        target(graph, stack[top] as int, done) != par[stack[top] as int],
        counted(graph, root, par, depths, stack[top] as int, done),
    ensures
        walking(
            graph,
            root,
            par,
            level,
            parents.update(target(graph, stack[top] as int, done), stack[top]),
            depths.update(
                target(graph, stack[top] as int, done),
                (depths[stack[top] as int] + 1) as usize,
            ),
            chains,
            sizes,
            stack.push(target(graph, stack[top] as int, done) as usize),
            below.push(top),
        ),
{
    let n = graph.size() as int;
    let now = stack[top];
    let next = target(graph, now as int, done);
    let len = stack.len() as int;
    lemma_chains_child(graph, root, par, level, parents, depths, chains, sizes, stack, below, top, done);
    lemma_walking_parts(graph, root, par, level, parents, depths, chains, sizes, stack, below);
    lemma_stack_top(n, root, par, depths, sizes, stack, below);
    let deep = (depths[now as int] + 1) as usize;
    let parents2 = parents.update(next, now);
    let depths2 = depths.update(next, deep);
    let stack2 = stack.push(next as usize);
    let below2 = below.push(top);
    lemma_push_stacked(n, root, par, stack, below, top, next as usize);
    lemma_push_covered(depths, sizes, stack, next as usize, deep);
    lemma_push_seen(root, par, level, parents, depths, sizes, now, next);
    lemma_push_unseen(depths, sizes, chains, next, deep);
    lemma_push_waiting(depths, sizes, stack, next as usize, deep);
    lemma_push_chained(root, par, depths, chains, next, deep);
    lemma_push_reached(graph, root, par, depths, now as int, done, deep);
    assert(balanced(sizes, stack2)) by {
        lemma_mass_prefix(stack, stack2, sizes, len);
        assert(mass(stack2, sizes, len + 1) == mass(stack2, sizes, len) + sizes[stack2[len] as int]);
    }
    lemma_walking_whole(
        graph,
        root,
        par,
        level,
        parents2,
        depths2,
        chains,
        sizes,
        stack2,
        below2,
    );
}

/// Seeing one more node keeps what has been listed, and counts the node
/// where it is the child that `now` lists at `done`.
proof fn lemma_chains_listed<T>(
    graph: &Graph<T>,
    root: int,
    par: Seq<int>,
    depths: Seq<usize>,
    sizes: Seq<usize>,
    now: int,
    done: int,
    deep: usize,
)
    requires
        0 <= now < graph.size(),
        0 <= done < graph.adjacent(now).len(),
        0 <= target(graph, now, done) < depths.len(),
        depths.len() == graph.size(),
        deep != 0,
        settled(graph, par, depths, sizes, now),
        listed(graph, par, depths, now, done),
        counted(graph, root, par, depths, now, done),
        forall|a: int, i: int|
            0 <= a < graph.size() && 0 <= i < graph.adjacent(a).len() ==> 0 <= #[trigger] target(
                graph,
                a,
                i,
            ) < graph.size(),
    ensures
        settled(graph, par, depths.update(target(graph, now, done), deep), sizes, now),
        listed(graph, par, depths.update(target(graph, now, done), deep), now, done + 1),
        counted(graph, root, par, depths.update(target(graph, now, done), deep), now, done + 1),
{
    let n = graph.size() as int;
    let next = target(graph, now, done);
    let depths2 = depths.update(next, deep);
    assert forall|v: int| 0 <= v < n && v != now && #[trigger] sizes[v] != 0 implies listed(
        graph,
        par,
        depths2,
        v,
        graph.adjacent(v).len() as int,
    ) by {
        assert(listed(graph, par, depths, v, graph.adjacent(v).len() as int));
        assert forall|i: int|
            0 <= i < graph.adjacent(v).len() && #[trigger] target(graph, v, i)
                != par[v] implies depths2[target(graph, v, i)] != 0 by {
            assert(depths[target(graph, v, i)] != 0);
        }
    }
    assert forall|i: int|
        0 <= i < done + 1 && #[trigger] target(graph, now, i) != par[now] implies depths2[target(
        graph,
        now,
        i,
    )] != 0 by {
        if i < done {
            assert(depths[target(graph, now, i)] != 0);
        }
    }
    assert forall|b: int|
        0 <= b < n && par[b] == now && b != root && #[trigger] depths2[b] != 0 implies exists|
        j: int,
    | 0 <= j < done + 1 && #[trigger] target(graph, now, j) == b by {
        if b == next {
            assert(target(graph, now, done) == b);
        } else {
            assert(depths[b] != 0);
            let j = choose|j: int| 0 <= j < done && #[trigger] target(graph, now, j) == b;
            assert(0 <= j < done + 1 && target(graph, now, j) == b);
        }
    }
}

/// An edge to the parent changes nothing.
proof fn lemma_chains_skip<T>(
    graph: &Graph<T>,
    root: int,
    par: Seq<int>,
    depths: Seq<usize>,
    now: int,
    done: int,
)
    requires
        0 <= done < graph.adjacent(now).len(),
        target(graph, now, done) == par[now],
        listed(graph, par, depths, now, done),
        counted(graph, root, par, depths, now, done),
    ensures
        listed(graph, par, depths, now, done + 1),
        counted(graph, root, par, depths, now, done + 1),
{
    assert forall|b: int|
        0 <= b < graph.size() && par[b] == now && b != root && #[trigger] depths[b]
            != 0 implies exists|j: int|
        0 <= j < done + 1 && #[trigger] target(graph, now, j) == b by {
        let j = choose|j: int| 0 <= j < done && #[trigger] target(graph, now, j) == b;
        assert(0 <= j < done + 1 && target(graph, now, j) == b);
    }
}

/// The root closes: it leaves the stack, and the stack is empty.
proof fn lemma_chains_close_root<T>(
    graph: &Graph<T>,
    root: int,
    par: Seq<int>,
    level: Seq<nat>,
    parents: Seq<usize>,
    depths: Seq<usize>,
    chains: Seq<usize>,
    sizes: Seq<usize>,
    stack: Seq<usize>,
    below: Seq<int>,
)
    requires
        walking(graph, root, par, level, parents, depths, chains, sizes, stack, below),
        stack.len() > 0,
        sizes[stack.last() as int] != 0,
        stack.last() == root,
    ensures
        walking(
            graph,
            root,
            par,
            level,
            parents,
            depths,
            chains,
            sizes,
            stack.drop_last(),
            below.drop_last(),
        ),
{
    let n = graph.size() as int;
    lemma_walking_parts(graph, root, par, level, parents, depths, chains, sizes, stack, below);
    lemma_stack_top(n, root, par, depths, sizes, stack, below);
    lemma_pop_stacked(n, root, par, stack, below);
    lemma_pop_covered(depths, sizes, stack);
    lemma_pop_waiting(depths, sizes, stack);
    lemma_walking_whole(
        graph,
        root,
        par,
        level,
        parents,
        depths,
        chains,
        sizes,
        stack.drop_last(),
        below.drop_last(),
    );
}

/// A node other than the root closes: its size goes to its parent, which
/// takes it for the next node of its chain where it is `heavier` than the
/// children that closed before, and the node leaves the stack.
proof fn lemma_chains_close<T>(
    graph: &Graph<T>,
    root: int,
    par: Seq<int>,
    level: Seq<nat>,
    parents: Seq<usize>,
    depths: Seq<usize>,
    chains: Seq<usize>,
    sizes: Seq<usize>,
    stack: Seq<usize>,
    below: Seq<int>,
    heavier: bool,
)
    requires
        walking(graph, root, par, level, parents, depths, chains, sizes, stack, below),
        settled(graph, par, depths, sizes, -1),
        stack.len() > 0,
        sizes[stack.last() as int] != 0,
        stack.last() != root,
    ensures
        sizes[parents[stack.last() as int] as int] + sizes[stack.last() as int] <= graph.size(),
        graph.size() <= usize::MAX,
        walking(
            graph,
            root,
            par,
            level,
            parents,
            depths,
            if heavier {
                chains.update(parents[stack.last() as int] as int, stack.last())
            } else {
                chains
            },
            sizes.update(
                parents[stack.last() as int] as int,
                (sizes[parents[stack.last() as int] as int] + sizes[stack.last() as int]) as usize,
            ),
            stack.drop_last(),
            below.drop_last(),
        ),
        settled(
            graph,
            par,
            depths,
            sizes.update(
                parents[stack.last() as int] as int,
                (sizes[parents[stack.last() as int] as int] + sizes[stack.last() as int]) as usize,
            ),
            -1,
        ),
        filled(
            sizes.update(
                parents[stack.last() as int] as int,
                (sizes[parents[stack.last() as int] as int] + sizes[stack.last() as int]) as usize,
            ),
            graph.size() as int,
        ) == filled(sizes, graph.size() as int),
{
    let n = graph.size() as int;
    let len = stack.len() as int;
    let top = len - 1;
    let now = stack.last();
    lemma_walking_parts(graph, root, par, level, parents, depths, chains, sizes, stack, below);
    lemma_stack_top(n, root, par, depths, sizes, stack, below);
    lemma_seen_node(root, par, level, parents, depths, sizes, now as int);
    let p = parents[now as int] as int;
    let q = below.last();
    assert(0 <= p < n);
    let stack2 = stack.drop_last();
    let below2 = below.drop_last();
    lemma_filled_bound(sizes, n);
    assert(sizes[p] >= 1);
    let sum = sizes[p] + sizes[now as int];
    assert(sum <= n) by {
        reveal_with_fuel(mass, 2);
        assert(stack[top] == now);
        assert(mass(stack, sizes, len) == mass(stack, sizes, top) + sizes[now as int]);
        assert(mass(stack, sizes, q + 1) == mass(stack, sizes, q) + sizes[p]);
        lemma_mass_bounds(stack, sizes, q + 1, top);
        lemma_mass_bounds(stack, sizes, 0, q);
    }
    let sizes2 = sizes.update(p, sum as usize);
    let chains2 = if heavier {
        chains.update(p, now)
    } else {
        chains
    };
    lemma_filled_update(sizes, n, p, sum as usize);
    lemma_pop_stacked(n, root, par, stack, below);
    lemma_raise_covered(depths, sizes, stack, p, q, sum as usize);
    lemma_pop_covered(depths, sizes2, stack);
    lemma_raise_seen(root, par, level, parents, depths, sizes, p, sum as usize);
    lemma_raise_unseen(depths, sizes, chains, p, sum as usize);
    if heavier {
        lemma_raise_unseen(depths, sizes2, chains, p, now);
        lemma_set_chained(root, par, depths, chains, p, now);
    }
    lemma_raise_waiting(depths, sizes, stack, p, sum as usize);
    lemma_pop_waiting(depths, sizes2, stack);
    assert(balanced(sizes2, stack2)) by {
        reveal_with_fuel(mass, 2);
        assert(stack[top] == now);
        assert(mass(stack, sizes, len) == mass(stack, sizes, top) + sizes[now as int]);
        lemma_mass_prefix(stack2, stack, sizes2, top);
        lemma_mass_update(stack, sizes, top, p, q, sum as usize);
    }
    lemma_walking_whole(graph, root, par, level, parents, depths, chains2, sizes2, stack2, below2);
    assert(settled(graph, par, depths, sizes2, -1)) by {
        assert forall|v: int| 0 <= v < n && #[trigger] sizes2[v] != 0 implies listed(
            graph,
            par,
            depths,
            v,
            graph.adjacent(v).len() as int,
        ) by {
            assert(sizes[v] != 0);
        }
    }
}

/// Before the first step only the root has been seen, and it waits on the
/// stack.
proof fn lemma_chains_start<T>(
    graph: &Graph<T>,
    root: int,
    par: Seq<int>,
    level: Seq<nat>,
    parents: Seq<usize>,
    depths: Seq<usize>,
    chains: Seq<usize>,
    sizes: Seq<usize>,
)
    requires
        rooted(graph, root, par, level),
        graph.size() <= usize::MAX,
        parents.len() == graph.size(),
        depths.len() == graph.size(),
        chains.len() == graph.size(),
        sizes.len() == graph.size(),
        parents[root] == root,
        depths[root] == 1,
        forall|v: int| 0 <= v < graph.size() && v != root ==> depths[v] == 0,
        forall|v: int| 0 <= v < graph.size() ==> chains[v] == v,
        forall|v: int| 0 <= v < graph.size() ==> sizes[v] == 0,
    ensures
        walking(
            graph,
            root,
            par,
            level,
            parents,
            depths,
            chains,
            sizes,
            seq![root as usize],
            seq![-1int],
        ),
        settled(graph, par, depths, sizes, -1),
{
    reveal(walking);
    reveal(stacked);
    reveal(covered);
    reveal(seen);
    reveal(unseen);
    reveal(waiting);
    reveal(chained);
    reveal(reached);
    let n = graph.size() as int;
    let stack = seq![root as usize];
    lemma_filled_zero(sizes, n);
    reveal_with_fuel(mass, 2);
    assert(stack[0] == root);
    assert forall|v: int|
        0 <= v < n && depths[v] != 0 && #[trigger] sizes[v] == 0 implies stack.contains(
        v as usize,
    ) by {
        assert(v == root);
        assert(stack[0] == v);
    }
}

/// With the stack empty, every node that has been seen is closed and has
/// seen all its children.
proof fn lemma_chains_end<T>(
    graph: &Graph<T>,
    root: int,
    par: Seq<int>,
    level: Seq<nat>,
    parents: Seq<usize>,
    depths: Seq<usize>,
    chains: Seq<usize>,
    sizes: Seq<usize>,
    below: Seq<int>,
)
    requires
        walking(graph, root, par, level, parents, depths, chains, sizes, Seq::empty(), below),
        settled(graph, par, depths, sizes, -1),
        heavy(root, par, parents, depths, chains),
        preferred(graph, par, parents, depths, chains),
    ensures
        explored(graph, root, par, level, parents, depths, chains),
{
    reveal(walking);
    reveal(seen);
    reveal(unseen);
    reveal(waiting);
    let n = graph.size() as int;
    let none = Seq::<usize>::empty();
    assert forall|v: int| 0 <= v < n && #[trigger] depths[v] != 0 implies parents[v] == par[v]
        && depths[v] == level[v] + 1 && listed(
        graph,
        par,
        depths,
        v,
        graph.adjacent(v).len() as int,
    ) by {
        if sizes[v] == 0 {
            assert(none.contains(v as usize));
        }
    }
}

/// `x` can be reached from the root and lies in the subtree of `c`.
pub open spec fn inside(parents: Seq<usize>, depths: Seq<usize>, c: int, x: int) -> bool {
    depths[x] != 0 && over(parents, depths, c, x)
}

/// The number of nodes among the first `k` that lie in the subtree of `c`.
pub open spec fn weight(parents: Seq<usize>, depths: Seq<usize>, c: int, k: int) -> int
    decreases k,
{
    if k <= 0 {
        0
    } else {
        weight(parents, depths, c, k - 1) + if inside(parents, depths, c, k - 1) {
            1int
        } else {
            0int
        }
    }
}

/// The child of `v` on the way down to `x`.
spec fn toward(parents: Seq<usize>, depths: Seq<usize>, v: int, x: int) -> int {
    above(parents, x, (depths[x] - depths[v] - 1) as nat)
}

/// `x` counts for the open node `v`: it is `v`, or it lies in the subtree
/// of a child of `v` that has closed.
spec fn held_at(
    parents: Seq<usize>,
    depths: Seq<usize>,
    closed: Seq<bool>,
    v: int,
    x: int,
) -> bool {
    x == v || (inside(parents, depths, v, x) && closed[toward(parents, depths, v, x)])
}

/// The number of nodes among the first `k` that count for `v`.
spec fn holding(
    parents: Seq<usize>,
    depths: Seq<usize>,
    closed: Seq<bool>,
    v: int,
    k: int,
) -> int
    decreases k,
{
    if k <= 0 {
        0
    } else {
        holding(parents, depths, closed, v, k - 1) + if held_at(parents, depths, closed, v, k - 1) {
            1int
        } else {
            0int
        }
    }
}

/// One more step up is the parent of where the steps before lead.
proof fn lemma_above_parent(parents: Seq<usize>, v: int, k: nat)
    ensures
        above(parents, v, k + 1) == parents[above(parents, v, k)],
    decreases k,
{
    reveal_with_fuel(above, 2);
    if k > 0 {
        lemma_above_parent(parents, parents[v] as int, (k - 1) as nat);
    }
}

/// Weights that count the same nodes are the same.
proof fn lemma_weight_same(
    parents: Seq<usize>,
    depths: Seq<usize>,
    others: Seq<usize>,
    deeper: Seq<usize>,
    c: int,
    k: int,
)
    requires
        forall|x: int|
            0 <= x < k ==> inside(parents, depths, c, x) == #[trigger] inside(others, deeper, c, x),
    ensures
        weight(others, deeper, c, k) == weight(parents, depths, c, k),
    decreases k,
{
    if k > 0 {
        lemma_weight_same(parents, depths, others, deeper, c, k - 1);
        assert(inside(parents, depths, c, k - 1) == inside(others, deeper, c, k - 1));
    }
}

/// Counts for an open node that count the same nodes are the same.
proof fn lemma_holding_same(
    parents: Seq<usize>,
    depths: Seq<usize>,
    closed: Seq<bool>,
    others: Seq<usize>,
    deeper: Seq<usize>,
    later: Seq<bool>,
    v: int,
    k: int,
)
    requires
        forall|x: int|
            0 <= x < k ==> held_at(parents, depths, closed, v, x) == #[trigger] held_at(
                others,
                deeper,
                later,
                v,
                x,
            ),
    ensures
        holding(others, deeper, later, v, k) == holding(parents, depths, closed, v, k),
    decreases k,
{
    if k > 0 {
        lemma_holding_same(parents, depths, closed, others, deeper, later, v, k - 1);
        assert(held_at(parents, depths, closed, v, k - 1) == held_at(
            others,
            deeper,
            later,
            v,
            k - 1,
        ));
    }
}

/// A node for which nothing counts but itself holds one.
proof fn lemma_holding_one(
    parents: Seq<usize>,
    depths: Seq<usize>,
    closed: Seq<bool>,
    v: int,
    k: int,
)
    requires
        0 <= v,
        0 <= k,
        forall|x: int| 0 <= x < k && x != v ==> !#[trigger] held_at(parents, depths, closed, v, x),
    ensures
        holding(parents, depths, closed, v, k) == if v < k {
            1int
        } else {
            0int
        },
    decreases k,
{
    if k > 0 {
        lemma_holding_one(parents, depths, closed, v, k - 1);
        if k - 1 != v {
            assert(!held_at(parents, depths, closed, v, k - 1));
        }
    }
}

/// Where the nodes that count for `p` become those that counted before and
/// the subtree of `c`, which did not count, the count grows by the weight of
/// `c`.
proof fn lemma_holding_grow(
    parents: Seq<usize>,
    depths: Seq<usize>,
    closed: Seq<bool>,
    later: Seq<bool>,
    p: int,
    c: int,
    k: int,
)
    requires
        forall|x: int|
            0 <= x < k ==> #[trigger] held_at(parents, depths, later, p, x) == (held_at(
                parents,
                depths,
                closed,
                p,
                x,
            ) || inside(parents, depths, c, x)),
        forall|x: int|
            0 <= x < k ==> !(#[trigger] held_at(parents, depths, closed, p, x) && inside(
                parents,
                depths,
                c,
                x,
            )),
    ensures
        holding(parents, depths, later, p, k) == holding(parents, depths, closed, p, k) + weight(
            parents,
            depths,
            c,
            k,
        ),
    decreases k,
{
    if k > 0 {
        lemma_holding_grow(parents, depths, closed, later, p, c, k - 1);
        assert(held_at(parents, depths, later, p, k - 1) == (held_at(
            parents,
            depths,
            closed,
            p,
            k - 1,
        ) || inside(parents, depths, c, k - 1)));
        assert(!(held_at(parents, depths, closed, p, k - 1) && inside(parents, depths, c, k - 1)));
    }
}

/// Where the nodes that count for `v` are those of its subtree, it holds
/// its weight.
proof fn lemma_holding_full(
    parents: Seq<usize>,
    depths: Seq<usize>,
    closed: Seq<bool>,
    v: int,
    k: int,
)
    requires
        forall|x: int|
            0 <= x < k ==> #[trigger] held_at(parents, depths, closed, v, x) == inside(
                parents,
                depths,
                v,
                x,
            ),
    ensures
        holding(parents, depths, closed, v, k) == weight(parents, depths, v, k),
    decreases k,
{
    if k > 0 {
        lemma_holding_full(parents, depths, closed, v, k - 1);
        assert(held_at(parents, depths, closed, v, k - 1) == inside(parents, depths, v, k - 1));
    }
}

/// Parents and depths of the nodes that have been seen are those of the
/// tree, and the parent of such a node has been seen as well.
#[verifier::opaque]
spec fn grown(
    root: int,
    par: Seq<int>,
    level: Seq<nat>,
    parents: Seq<usize>,
    depths: Seq<usize>,
) -> bool {
    let n = depths.len();
    &&& par.len() == n
    &&& level.len() == n
    &&& parents.len() == n
    &&& 0 <= root < n
    &&& par[root] == root
    &&& level[root] == 0
    &&& depths[root] == 1
    &&& forall|v: int| 0 <= v < n ==> 0 <= #[trigger] par[v] < n
    &&& forall|v: int| 0 <= v < n && v != root ==> #[trigger] level[v] == level[par[v]] + 1
    &&& forall|v: int|
        0 <= v < n && #[trigger] depths[v] != 0 ==> parents[v] == par[v] && depths[v] == level[v]
            + 1 && depths[par[v]] != 0
}

/// The state of the first traversal has grown a tree.
proof fn lemma_walking_grown<T>(
    graph: &Graph<T>,
    root: int,
    par: Seq<int>,
    level: Seq<nat>,
    parents: Seq<usize>,
    depths: Seq<usize>,
    chains: Seq<usize>,
    sizes: Seq<usize>,
    stack: Seq<usize>,
    below: Seq<int>,
)
    requires
        walking(graph, root, par, level, parents, depths, chains, sizes, stack, below),
    ensures
        grown(root, par, level, parents, depths),
        depths.len() == graph.size(),
{
    reveal(walking);
    reveal(grown);
    reveal(seen);
    reveal(reached);
    assert forall|v: int|
        0 <= v < depths.len() && #[trigger] depths[v] != 0 implies parents[v] == par[v]
        && depths[v] == level[v] + 1 && depths[par[v]] != 0 by {
        if v != root {
            assert(depths[par[v]] != 0);
        }
    }
}

/// What is known of a node that has been seen.
proof fn lemma_grown_node(
    root: int,
    par: Seq<int>,
    level: Seq<nat>,
    parents: Seq<usize>,
    depths: Seq<usize>,
    v: int,
)
    requires
        grown(root, par, level, parents, depths),
        0 <= v < depths.len(),
        depths[v] != 0,
    ensures
        0 <= root < depths.len(),
        parents.len() == depths.len(),
        par.len() == depths.len(),
        depths[root] == 1,
        parents[v] == par[v],
        0 <= par[v] < depths.len(),
        depths[par[v]] != 0,
        depths[v] == 1 <==> v == root,
        v != root ==> depths[v] == depths[par[v]] + 1,
        par[root] == root,
{
    reveal(grown);
    if v != root {
        assert(level[v] == level[par[v]] + 1);
    }
}

/// The nodes above a node that has been seen have been seen, level by
/// level.
proof fn lemma_grown_above(
    root: int,
    par: Seq<int>,
    level: Seq<nat>,
    parents: Seq<usize>,
    depths: Seq<usize>,
    x: int,
    k: nat,
)
    requires
        grown(root, par, level, parents, depths),
        0 <= x < depths.len(),
        depths[x] != 0,
        k < depths[x],
    ensures
        0 <= above(parents, x, k) < depths.len(),
        depths[above(parents, x, k)] == depths[x] - k,
    decreases k,
{
    lemma_grown_node(root, par, level, parents, depths, x);
    if k > 0 {
        lemma_grown_above(root, par, level, parents, depths, par[x], (k - 1) as nat);
    }
}

/// A node lies in the subtree of `c` where it lies in that of the parent of
/// `c`, on the side of `c`.
proof fn lemma_grown_child(
    root: int,
    par: Seq<int>,
    level: Seq<nat>,
    parents: Seq<usize>,
    depths: Seq<usize>,
    c: int,
    x: int,
)
    requires
        grown(root, par, level, parents, depths),
        0 <= c < depths.len(),
        0 <= x < depths.len(),
        depths[c] != 0,
        c != root,
    ensures
        inside(parents, depths, c, x) <==> inside(parents, depths, par[c], x) && x != par[c]
            && toward(parents, depths, par[c], x) == c,
        !inside(parents, depths, c, par[c]),
{
    let p = par[c];
    lemma_grown_node(root, par, level, parents, depths, c);
    if depths[x] != 0 && depths[x] >= depths[c] {
        let k = (depths[x] - depths[c]) as nat;
        lemma_above_parent(parents, x, k);
        lemma_grown_above(root, par, level, parents, depths, x, k);
    }
    if inside(parents, depths, p, x) && x != p {
        assert(depths[x] > depths[p]) by {
            if depths[x] == depths[p] {
                assert(above(parents, x, 0) == x);
            }
        }
    }
}

/// The child on the way to a node of the subtree has been seen, and the
/// node of whose subtree is asked is its parent.
proof fn lemma_grown_toward(
    root: int,
    par: Seq<int>,
    level: Seq<nat>,
    parents: Seq<usize>,
    depths: Seq<usize>,
    v: int,
    x: int,
)
    requires
        grown(root, par, level, parents, depths),
        0 <= v < depths.len(),
        0 <= x < depths.len(),
        inside(parents, depths, v, x),
        x != v,
    ensures
        0 <= toward(parents, depths, v, x) < depths.len(),
        depths[toward(parents, depths, v, x)] != 0,
        toward(parents, depths, v, x) != root,
        par[toward(parents, depths, v, x)] == v,
        inside(parents, depths, toward(parents, depths, v, x), x),
{
    assert(depths[x] > depths[v]) by {
        if depths[x] == depths[v] {
            assert(above(parents, x, 0) == x);
        }
    }
    let k = (depths[x] - depths[v] - 1) as nat;
    lemma_grown_above(root, par, level, parents, depths, x, k);
    lemma_above_parent(parents, x, k);
    let c = above(parents, x, k);
    lemma_grown_node(root, par, level, parents, depths, c);
    lemma_grown_node(root, par, level, parents, depths, x);
}

/// Seeing a node that had not been seen changes nothing above the nodes
/// that had been.
proof fn lemma_grown_stable(
    root: int,
    par: Seq<int>,
    level: Seq<nat>,
    parents: Seq<usize>,
    depths: Seq<usize>,
    next: int,
    now: usize,
    deep: usize,
    x: int,
    k: nat,
)
    requires
        grown(root, par, level, parents, depths),
        0 <= next < depths.len(),
        depths[next] == 0,
        0 <= x < depths.len(),
        depths[x] != 0,
        k < depths[x],
    ensures
        above(parents.update(next, now), x, k) == above(parents, x, k),
    decreases k,
{
    lemma_grown_node(root, par, level, parents, depths, x);
    if k > 0 {
        lemma_grown_stable(root, par, level, parents, depths, next, now, deep, par[x], (k - 1) as nat);
    }
}

/// Closed nodes have been seen, have left the stack, and have their
/// weight for a size; what lies in the subtree of a closed node is closed.
#[verifier::opaque]
spec fn sealed(
    parents: Seq<usize>,
    depths: Seq<usize>,
    sizes: Seq<usize>,
    closed: Seq<bool>,
    stack: Seq<usize>,
) -> bool {
    let n = depths.len();
    &&& closed.len() == n
    &&& sizes.len() == n
    &&& forall|v: int| 0 <= v < n && #[trigger] closed[v] ==> depths[v] != 0 && sizes[v] != 0
    &&& forall|i: int| 0 <= i < stack.len() ==> !closed[#[trigger] stack[i] as int]
    &&& forall|v: int|
        0 <= v < n && depths[v] != 0 && #[trigger] sizes[v] != 0 && !closed[v] ==> stack.contains(
            v as usize,
        )
    &&& forall|c: int|
        0 <= c < n && #[trigger] closed[c] ==> sizes[c] == weight(parents, depths, c, n as int)
    &&& forall|c: int, x: int|
        0 <= c < n && 0 <= x < n && closed[c] && #[trigger] inside(parents, depths, c, x)
            ==> closed[x]
}

/// The size of an open node is the number of nodes that count for it.
#[verifier::opaque]
spec fn counting(
    parents: Seq<usize>,
    depths: Seq<usize>,
    sizes: Seq<usize>,
    closed: Seq<bool>,
    stack: Seq<usize>,
) -> bool {
    forall|i: int|
        0 <= i < stack.len() && sizes[#[trigger] stack[i] as int] != 0 ==> sizes[stack[i] as int]
            == holding(parents, depths, closed, stack[i] as int, depths.len() as int)
}

/// The chain of a node goes on with the heaviest of its children that have
/// closed.
#[verifier::opaque]
spec fn heaviest(
    root: int,
    par: Seq<int>,
    chains: Seq<usize>,
    sizes: Seq<usize>,
    best: Seq<usize>,
    closed: Seq<bool>,
) -> bool {
    let n = closed.len();
    &&& best.len() == n
    &&& chains.len() == n
    &&& sizes.len() == n
    &&& forall|c: int|
        0 <= c < n && #[trigger] closed[c] && c != root ==> best[par[c]] >= sizes[c]
            && chains[par[c]] != par[c]
    &&& forall|p: int|
        0 <= p < n && #[trigger] chains[p] != p ==> closed[chains[p] as int] && best[p]
            == sizes[chains[p] as int]
    &&& forall|p: int| 0 <= p < n && #[trigger] chains[p] == p ==> best[p] == 0
}

/// The nodes above a node on the stack lie on the stack below it.
proof fn lemma_stack_above(
    root: int,
    par: Seq<int>,
    level: Seq<nat>,
    parents: Seq<usize>,
    depths: Seq<usize>,
    stack: Seq<usize>,
    below: Seq<int>,
    i: int,
    k: nat,
) -> (j: int)
    requires
        grown(root, par, level, parents, depths),
        stacked(depths.len() as int, root, par, stack, below),
        forall|i: int| 0 <= i < stack.len() ==> depths[#[trigger] stack[i] as int] != 0,
        0 <= i < stack.len(),
        k < depths[stack[i] as int],
    ensures
        0 <= j <= i,
        k > 0 ==> j < i,
        stack[j] == above(parents, stack[i] as int, k),
    decreases k,
{
    assert(stack[i] < depths.len()) by {
        reveal(stacked);
    }
    if k == 0 {
        i
    } else {
        let before = lemma_stack_above(
            root,
            par,
            level,
            parents,
            depths,
            stack,
            below,
            i,
            (k - 1) as nat,
        );
        let a = stack[before] as int;
        assert(depths[stack[before] as int] != 0);
        assert(a < depths.len()) by {
            reveal(stacked);
        }
        lemma_grown_above(root, par, level, parents, depths, stack[i] as int, (k - 1) as nat);
        lemma_grown_node(root, par, level, parents, depths, a);
        lemma_above_parent(parents, stack[i] as int, (k - 1) as nat);
        reveal(stacked);
        assert(before >= 1);
        below[before]
    }
}

/// The node handed in is not closed: it, or the node above a node on the
/// stack that it is, lies on the stack.
proof fn lemma_open_above(
    root: int,
    par: Seq<int>,
    level: Seq<nat>,
    parents: Seq<usize>,
    depths: Seq<usize>,
    sizes: Seq<usize>,
    closed: Seq<bool>,
    stack: Seq<usize>,
    below: Seq<int>,
    i: int,
    k: nat,
)
    requires
        grown(root, par, level, parents, depths),
        stacked(depths.len() as int, root, par, stack, below),
        covered(depths, sizes, stack),
        sealed(parents, depths, sizes, closed, stack),
        0 <= i < stack.len(),
        k < depths[stack[i] as int],
    ensures
        0 <= above(parents, stack[i] as int, k) < depths.len(),
        !closed[above(parents, stack[i] as int, k)],
{
    assert forall|i: int| 0 <= i < stack.len() implies depths[#[trigger] stack[i] as int] != 0 by {
        reveal(covered);
    }
    assert(stack[i] < depths.len()) by {
        reveal(stacked);
    }
    let j = lemma_stack_above(root, par, level, parents, depths, stack, below, i, k);
    lemma_grown_above(root, par, level, parents, depths, stack[i] as int, k);
    reveal(sealed);
    assert(!closed[stack[j] as int]);
}

proof fn lemma_expand_sealed(
    parents: Seq<usize>,
    depths: Seq<usize>,
    sizes: Seq<usize>,
    closed: Seq<bool>,
    stack: Seq<usize>,
)
    requires
        sealed(parents, depths, sizes, closed, stack),
        stack.len() > 0,
        stack.last() < depths.len(),
        sizes[stack.last() as int] == 0,
        depths.len() <= usize::MAX,
    ensures
        sealed(parents, depths, sizes.update(stack.last() as int, 1), closed, stack),
{
    reveal(sealed);
    let n = depths.len() as int;
    let now = stack.last() as int;
    let sizes2 = sizes.update(now, 1);
    assert forall|v: int|
        0 <= v < n && depths[v] != 0 && #[trigger] sizes2[v] != 0 && !closed[v] implies stack.contains(
        v as usize,
    ) by {
        if v == now {
            assert(stack[stack.len() - 1] == v as usize);
        } else {
            assert(sizes[v] != 0);
        }
    }
}

/// A node that opens holds one: nothing counts for it but itself, as none
/// of its children has been seen.
proof fn lemma_expand_counting(
    root: int,
    par: Seq<int>,
    level: Seq<nat>,
    parents: Seq<usize>,
    depths: Seq<usize>,
    sizes: Seq<usize>,
    closed: Seq<bool>,
    stack: Seq<usize>,
)
    requires
        grown(root, par, level, parents, depths),
        counting(parents, depths, sizes, closed, stack),
        sizes.len() == depths.len(),
        stack.len() > 0,
        stack.last() < depths.len(),
        sizes[stack.last() as int] == 0,
        forall|i: int| 0 <= i < stack.len() ==> #[trigger] stack[i] < depths.len(),
        forall|b: int|
            0 <= b < depths.len() && par[b] == stack.last() && b != root ==> #[trigger] depths[b]
                == 0,
    ensures
        counting(parents, depths, sizes.update(stack.last() as int, 1), closed, stack),
{
    reveal(counting);
    let n = depths.len() as int;
    let now = stack.last() as int;
    let sizes2 = sizes.update(now, 1);
    assert forall|x: int| 0 <= x < n && x != now implies !#[trigger] held_at(
        parents,
        depths,
        closed,
        now,
        x,
    ) by {
        if inside(parents, depths, now, x) {
            lemma_grown_toward(root, par, level, parents, depths, now, x);
            assert(depths[toward(parents, depths, now, x)] == 0);
        }
    }
    lemma_holding_one(parents, depths, closed, now, n);
    assert forall|i: int|
        0 <= i < stack.len() && sizes2[#[trigger] stack[i] as int] != 0 implies sizes2[stack[i] as int]
        == holding(parents, depths, closed, stack[i] as int, n) by {
        if stack[i] != now {
            assert(sizes[stack[i] as int] != 0);
        }
    }
}

proof fn lemma_expand_heaviest(
    root: int,
    par: Seq<int>,
    depths: Seq<usize>,
    chains: Seq<usize>,
    sizes: Seq<usize>,
    best: Seq<usize>,
    closed: Seq<bool>,
    now: int,
)
    requires
        heaviest(root, par, chains, sizes, best, closed),
        0 <= now < sizes.len(),
        !closed[now],
        forall|v: int| 0 <= v < chains.len() ==> #[trigger] chains[v] < chains.len(),
    ensures
        heaviest(root, par, chains, sizes.update(now, 1), best, closed),
{
    reveal(heaviest);
    let sizes2 = sizes.update(now, 1);
    assert forall|p: int|
        0 <= p < closed.len() && #[trigger] chains[p] != p implies closed[chains[p] as int] && best[p]
        == sizes2[chains[p] as int] by {
        assert(chains[p] < chains.len());
    }
}

/// Seeing `next` changes neither the subtrees among the nodes seen before
/// nor the children on the ways down through them.
proof fn lemma_push_inside(
    root: int,
    par: Seq<int>,
    level: Seq<nat>,
    parents: Seq<usize>,
    depths: Seq<usize>,
    next: int,
    now: usize,
    deep: usize,
    c: int,
    x: int,
)
    requires
        grown(root, par, level, parents, depths),
        0 <= next < depths.len(),
        depths[next] == 0,
        deep != 0,
        0 <= c < depths.len(),
        depths[c] != 0,
        0 <= x < depths.len(),
        x != next,
    ensures
        inside(parents.update(next, now), depths.update(next, deep), c, x) == inside(
            parents,
            depths,
            c,
            x,
        ),
        inside(parents, depths, c, x) && x != c ==> toward(
            parents.update(next, now),
            depths.update(next, deep),
            c,
            x,
        ) == toward(parents, depths, c, x),
{
    lemma_grown_node(root, par, level, parents, depths, c);
    if depths[x] != 0 && depths[c] <= depths[x] {
        lemma_grown_stable(
            root,
            par,
            level,
            parents,
            depths,
            next,
            now,
            deep,
            x,
            (depths[x] - depths[c]) as nat,
        );
        if depths[c] < depths[x] {
            lemma_grown_stable(
                root,
                par,
                level,
                parents,
                depths,
                next,
                now,
                deep,
                x,
                (depths[x] - depths[c] - 1) as nat,
            );
        } else if inside(parents, depths, c, x) {
            assert(above(parents, x, 0) == x);
        }
    }
}

/// What lies above the node that is seen now lies on the stack and is not
/// closed.
proof fn lemma_push_above(
    root: int,
    par: Seq<int>,
    level: Seq<nat>,
    parents: Seq<usize>,
    depths: Seq<usize>,
    sizes: Seq<usize>,
    closed: Seq<bool>,
    stack: Seq<usize>,
    below: Seq<int>,
    top: int,
    next: int,
    k: nat,
)
    requires
        grown(root, par, level, parents, depths),
        stacked(depths.len() as int, root, par, stack, below),
        covered(depths, sizes, stack),
        sealed(parents, depths, sizes, closed, stack),
        0 <= top < stack.len(),
        0 <= next < depths.len(),
        depths[next] == 0,
        1 <= k <= depths[stack[top] as int],
    ensures
        0 <= above(parents.update(next, stack[top]), next, k) < depths.len(),
        !closed[above(parents.update(next, stack[top]), next, k)],
        depths[above(parents.update(next, stack[top]), next, k)] != 0,
{
    let now = stack[top];
    assert(now < depths.len()) by {
        reveal(stacked);
    }
    assert(depths[now as int] != 0) by {
        reveal(covered);
    }
    lemma_grown_node(root, par, level, parents, depths, now as int);
    lemma_grown_stable(root, par, level, parents, depths, next, now, 1, now as int, (k - 1) as nat);
    lemma_open_above(
        root,
        par,
        level,
        parents,
        depths,
        sizes,
        closed,
        stack,
        below,
        top,
        (k - 1) as nat,
    );
    lemma_grown_above(root, par, level, parents, depths, now as int, (k - 1) as nat);
}

/// The node that is seen now lies in the subtree of no closed node, and
/// counts for no open one.
proof fn lemma_push_outside(
    root: int,
    par: Seq<int>,
    level: Seq<nat>,
    parents: Seq<usize>,
    depths: Seq<usize>,
    sizes: Seq<usize>,
    closed: Seq<bool>,
    stack: Seq<usize>,
    below: Seq<int>,
    top: int,
    next: int,
    c: int,
)
    requires
        grown(root, par, level, parents, depths),
        stacked(depths.len() as int, root, par, stack, below),
        covered(depths, sizes, stack),
        sealed(parents, depths, sizes, closed, stack),
        0 <= top < stack.len(),
        0 <= next < depths.len(),
        depths[next] == 0,
        depths[stack[top] as int] < usize::MAX,
        0 <= c < depths.len(),
        depths[c] != 0,
    ensures
        closed[c] ==> !inside(
            parents.update(next, stack[top]),
            depths.update(next, (depths[stack[top] as int] + 1) as usize),
            c,
            next,
        ),
        !held_at(
            parents.update(next, stack[top]),
            depths.update(next, (depths[stack[top] as int] + 1) as usize),
            closed,
            c,
            next,
        ),
{
    let now = stack[top];
    let deep = (depths[now as int] + 1) as usize;
    let parents2 = parents.update(next, now);
    let depths2 = depths.update(next, deep);
    assert(!closed[next]) by {
        reveal(sealed);
    }
    assert(c != next);
    if inside(parents2, depths2, c, next) {
        let k = (deep - depths[c]) as nat;
        assert(k >= 1) by {
            if k == 0 {
                assert(above(parents2, next, 0) == next);
            }
        }
        lemma_push_above(
            root,
            par,
            level,
            parents,
            depths,
            sizes,
            closed,
            stack,
            below,
            top,
            next,
            k,
        );
        if k >= 2 {
            lemma_push_above(
                root,
                par,
                level,
                parents,
                depths,
                sizes,
                closed,
                stack,
                below,
                top,
                next,
                (k - 1) as nat,
            );
        } else {
            assert(above(parents2, next, 0) == next);
        }
    }
}

proof fn lemma_push_sealed(
    root: int,
    par: Seq<int>,
    level: Seq<nat>,
    parents: Seq<usize>,
    depths: Seq<usize>,
    sizes: Seq<usize>,
    closed: Seq<bool>,
    stack: Seq<usize>,
    below: Seq<int>,
    top: int,
    next: int,
)
    requires
        grown(root, par, level, parents, depths),
        stacked(depths.len() as int, root, par, stack, below),
        covered(depths, sizes, stack),
        sealed(parents, depths, sizes, closed, stack),
        0 <= top < stack.len(),
        0 <= next < depths.len(),
        depths[next] == 0,
        sizes[next] == 0,
        depths[stack[top] as int] < usize::MAX,
        depths.len() <= usize::MAX,
    ensures
        sealed(
            parents.update(next, stack[top]),
            depths.update(next, (depths[stack[top] as int] + 1) as usize),
            sizes,
            closed,
            stack.push(next as usize),
        ),
{
    let n = depths.len() as int;
    let now = stack[top];
    let deep = (depths[now as int] + 1) as usize;
    let parents2 = parents.update(next, now);
    let depths2 = depths.update(next, deep);
    let stack2 = stack.push(next as usize);
    assert forall|c: int, x: int|
        0 <= c < n && 0 <= x < n && closed[c] implies #[trigger] inside(parents2, depths2, c, x)
        == inside(parents, depths, c, x) by {
        assert(depths[c] != 0) by {
            reveal(sealed);
        }
        if x == next {
            lemma_push_outside(
                root,
                par,
                level,
                parents,
                depths,
                sizes,
                closed,
                stack,
                below,
                top,
                next,
                c,
            );
        } else {
            lemma_push_inside(root, par, level, parents, depths, next, now, deep, c, x);
        }
    }
    assert forall|c: int| 0 <= c < n && #[trigger] closed[c] implies sizes[c] == weight(
        parents2,
        depths2,
        c,
        n,
    ) by {
        assert forall|x: int| 0 <= x < n implies inside(parents, depths, c, x)
            == #[trigger] inside(parents2, depths2, c, x) by {
            assert(inside(parents2, depths2, c, x) == inside(parents, depths, c, x));
        }
        lemma_weight_same(parents, depths, parents2, depths2, c, n);
        reveal(sealed);
    }
    reveal(sealed);
    assert forall|i: int| 0 <= i < stack2.len() implies !closed[#[trigger] stack2[i] as int] by {
        if i < stack.len() {
            assert(!closed[stack[i] as int]);
        }
    }
    assert forall|v: int|
        0 <= v < n && depths2[v] != 0 && #[trigger] sizes[v] != 0 && !closed[v] implies stack2.contains(
        v as usize,
    ) by {
        assert(stack.contains(v as usize));
        let i = choose|i: int| 0 <= i < stack.len() && stack[i] == v as usize;
        assert(stack2[i] == v as usize);
    }
    assert forall|c: int, x: int|
        0 <= c < n && 0 <= x < n && closed[c] && #[trigger] inside(
            parents2,
            depths2,
            c,
            x,
        ) implies closed[x] by {
        assert(inside(parents, depths, c, x));
    }
}

proof fn lemma_push_counting(
    root: int,
    par: Seq<int>,
    level: Seq<nat>,
    parents: Seq<usize>,
    depths: Seq<usize>,
    sizes: Seq<usize>,
    closed: Seq<bool>,
    stack: Seq<usize>,
    below: Seq<int>,
    top: int,
    next: int,
)
    requires
        grown(root, par, level, parents, depths),
        stacked(depths.len() as int, root, par, stack, below),
        covered(depths, sizes, stack),
        sealed(parents, depths, sizes, closed, stack),
        counting(parents, depths, sizes, closed, stack),
        0 <= top < stack.len(),
        0 <= next < depths.len(),
        depths[next] == 0,
        sizes[next] == 0,
        depths[stack[top] as int] < usize::MAX,
        depths.len() <= usize::MAX,
    ensures
        counting(
            parents.update(next, stack[top]),
            depths.update(next, (depths[stack[top] as int] + 1) as usize),
            sizes,
            closed,
            stack.push(next as usize),
        ),
{
    let n = depths.len() as int;
    let now = stack[top];
    let deep = (depths[now as int] + 1) as usize;
    let parents2 = parents.update(next, now);
    let depths2 = depths.update(next, deep);
    let stack2 = stack.push(next as usize);
    assert forall|i: int|
        0 <= i < stack2.len() && sizes[#[trigger] stack2[i] as int] != 0 implies sizes[stack2[i] as int]
        == holding(parents2, depths2, closed, stack2[i] as int, n) by {
        let v = stack2[i] as int;
        assert(i < stack.len());
        assert(v < n) by {
            reveal(stacked);
        }
        assert(depths[v] != 0) by {
            reveal(covered);
            assert(depths[stack[i] as int] != 0);
        }
        assert forall|x: int| 0 <= x < n implies held_at(parents, depths, closed, v, x)
            == #[trigger] held_at(parents2, depths2, closed, v, x) by {
            if x == next {
                lemma_push_outside(
                    root,
                    par,
                    level,
                    parents,
                    depths,
                    sizes,
                    closed,
                    stack,
                    below,
                    top,
                    next,
                    v,
                );
            } else {
                lemma_push_inside(root, par, level, parents, depths, next, now, deep, v, x);
            }
        }
        lemma_holding_same(parents, depths, closed, parents2, depths2, closed, v, n);
        reveal(counting);
        assert(sizes[stack[i] as int] == holding(parents, depths, closed, stack[i] as int, n));
    }
    reveal(counting);
}

/// With the node on top of the stack about to close, what lies in its
/// subtree has closed.
proof fn lemma_subtree_closed(
    root: int,
    par: Seq<int>,
    level: Seq<nat>,
    parents: Seq<usize>,
    depths: Seq<usize>,
    sizes: Seq<usize>,
    closed: Seq<bool>,
    stack: Seq<usize>,
    below: Seq<int>,
    x: int,
)
    requires
        grown(root, par, level, parents, depths),
        stacked(depths.len() as int, root, par, stack, below),
        covered(depths, sizes, stack),
        waiting(depths, sizes, stack),
        sealed(parents, depths, sizes, closed, stack),
        depths.len() <= usize::MAX,
        stack.len() > 0,
        0 <= x < depths.len(),
        x != stack.last(),
        inside(parents, depths, stack.last() as int, x),
    ensures
        closed[x],
        0 <= toward(parents, depths, stack.last() as int, x) < depths.len(),
        closed[toward(parents, depths, stack.last() as int, x)],
{
    let n = depths.len() as int;
    let top = stack.len() - 1;
    let now = stack.last() as int;
    assert(stack[top] == stack.last());
    assert(0 <= now < n) by {
        reveal(stacked);
    }
    lemma_grown_toward(root, par, level, parents, depths, now, x);
    let c = toward(parents, depths, now, x);
    assert forall|j: int| 0 <= j < stack.len() implies #[trigger] stack[j] != c by {
        reveal(stacked);
        if stack[j] == c {
            assert(j >= 1);
            assert(0 <= below[j] < j);
            if below[j] < top {
                assert(stack[below[j]] != stack[top]);
            }
        }
    }
    assert(!stack.contains(c as usize));
    assert(sizes[c] != 0) by {
        reveal(waiting);
    }
    assert(closed[c]) by {
        reveal(sealed);
    }
    reveal(sealed);
}

/// Raising the size of an open node keeps what is known of the closed ones.
proof fn lemma_raise_sealed(
    parents: Seq<usize>,
    depths: Seq<usize>,
    sizes: Seq<usize>,
    closed: Seq<bool>,
    stack: Seq<usize>,
    p: int,
    value: usize,
)
    requires
        sealed(parents, depths, sizes, closed, stack),
        0 <= p < depths.len(),
        !closed[p],
        stack.contains(p as usize),
    ensures
        sealed(parents, depths, sizes.update(p, value), closed, stack),
{
    reveal(sealed);
    let n = depths.len() as int;
    let sizes2 = sizes.update(p, value);
    assert forall|v: int|
        0 <= v < n && depths[v] != 0 && #[trigger] sizes2[v] != 0 && !closed[v] implies stack.contains(
        v as usize,
    ) by {
        if v != p {
            assert(sizes[v] != 0);
        }
    }
}

/// The node on top of the stack closes with its weight for a size.
proof fn lemma_seal_sealed(
    root: int,
    par: Seq<int>,
    level: Seq<nat>,
    parents: Seq<usize>,
    depths: Seq<usize>,
    sizes: Seq<usize>,
    closed: Seq<bool>,
    stack: Seq<usize>,
    below: Seq<int>,
)
    requires
        grown(root, par, level, parents, depths),
        stacked(depths.len() as int, root, par, stack, below),
        covered(depths, sizes, stack),
        waiting(depths, sizes, stack),
        sealed(parents, depths, sizes, closed, stack),
        counting(parents, depths, sizes, closed, stack),
        depths.len() <= usize::MAX,
        stack.len() > 0,
        sizes[stack.last() as int] != 0,
    ensures
        sizes[stack.last() as int] == weight(
            parents,
            depths,
            stack.last() as int,
            depths.len() as int,
        ),
        sealed(
            parents,
            depths,
            sizes,
            closed.update(stack.last() as int, true),
            stack.drop_last(),
        ),
{
    let n = depths.len() as int;
    let top = stack.len() - 1;
    let now = stack.last() as int;
    let closed2 = closed.update(now, true);
    let stack2 = stack.drop_last();
    assert(stack[top] == stack.last());
    assert(0 <= now < n && forall|i: int| 0 <= i < top ==> #[trigger] stack[i] != stack[top]) by {
        reveal(stacked);
    }
    assert(forall|i: int| 0 <= i < stack.len() ==> #[trigger] stack[i] < n) by {
        reveal(stacked);
    }
    assert(closed.len() == n && sizes.len() == n) by {
        reveal(sealed);
    }
    assert(depths[now] != 0) by {
        reveal(covered);
        assert(depths[stack[top] as int] != 0);
    }
    assert forall|x: int| 0 <= x < n implies #[trigger] held_at(parents, depths, closed, now, x)
        == inside(parents, depths, now, x) by {
        if x == now {
            assert(above(parents, now, 0) == now);
        } else if inside(parents, depths, now, x) {
            lemma_subtree_closed(root, par, level, parents, depths, sizes, closed, stack, below, x);
        }
    }
    lemma_holding_full(parents, depths, closed, now, n);
    assert(sizes[now] == holding(parents, depths, closed, now, n)) by {
        reveal(counting);
        assert(sizes[stack[top] as int] != 0);
    }
    assert forall|c: int, x: int|
        0 <= c < n && 0 <= x < n && closed2[c] && #[trigger] inside(
            parents,
            depths,
            c,
            x,
        ) implies closed2[x] by {
        if c == now {
            if x != now {
                lemma_subtree_closed(
                    root,
                    par,
                    level,
                    parents,
                    depths,
                    sizes,
                    closed,
                    stack,
                    below,
                    x,
                );
            }
        } else {
            reveal(sealed);
        }
    }
    reveal(sealed);
    assert forall|i: int| 0 <= i < stack2.len() implies !closed2[#[trigger] stack2[i] as int] by {
        assert(stack[i] != stack[top]);
        assert(!closed[stack[i] as int]);
    }
    assert forall|v: int|
        0 <= v < n && depths[v] != 0 && #[trigger] sizes[v] != 0 && !closed2[v] implies stack2.contains(
        v as usize,
    ) by {
        assert(stack.contains(v as usize));
        let i = choose|i: int| 0 <= i < stack.len() && stack[i] == v as usize;
        assert(i != top);
        assert(stack2[i] == v as usize);
    }
}

/// A node other than the root closes: its parent holds what it held and
/// the weight of the node, every other open node holds what it held.
proof fn lemma_close_counting(
    root: int,
    par: Seq<int>,
    level: Seq<nat>,
    parents: Seq<usize>,
    depths: Seq<usize>,
    sizes: Seq<usize>,
    closed: Seq<bool>,
    stack: Seq<usize>,
    below: Seq<int>,
)
    requires
        grown(root, par, level, parents, depths),
        stacked(depths.len() as int, root, par, stack, below),
        covered(depths, sizes, stack),
        waiting(depths, sizes, stack),
        sealed(parents, depths, sizes, closed, stack),
        counting(parents, depths, sizes, closed, stack),
        depths.len() <= usize::MAX,
        stack.len() > 0,
        stack.last() != root,
        sizes[stack.last() as int] != 0,
        sizes[par[stack.last() as int]] != 0,
        sizes[par[stack.last() as int]] + sizes[stack.last() as int] <= usize::MAX,
    ensures
        counting(
            parents,
            depths,
            sizes.update(
                par[stack.last() as int],
                (sizes[par[stack.last() as int]] + sizes[stack.last() as int]) as usize,
            ),
            closed.update(stack.last() as int, true),
            stack.drop_last(),
        ),
{
    let n = depths.len() as int;
    let top = stack.len() - 1;
    let now = stack.last() as int;
    let p = par[now];
    let sum = (sizes[p] + sizes[now]) as usize;
    let sizes2 = sizes.update(p, sum);
    let closed2 = closed.update(now, true);
    let stack2 = stack.drop_last();
    assert(stack[top] == stack.last());
    assert(0 <= now < n && forall|i: int| 0 <= i < stack.len() ==> #[trigger] stack[i] < n) by {
        reveal(stacked);
    }
    assert(depths[now] != 0) by {
        reveal(covered);
        assert(depths[stack[top] as int] != 0);
    }
    lemma_grown_node(root, par, level, parents, depths, now);
    lemma_seal_sealed(root, par, level, parents, depths, sizes, closed, stack, below);
    assert(!closed[now]) by {
        reveal(sealed);
        assert(!closed[stack[top] as int]);
    }
    assert(sizes.len() == n && closed.len() == n) by {
        reveal(sealed);
    }
    assert forall|i: int|
        0 <= i < stack2.len() && sizes2[#[trigger] stack2[i] as int] != 0 implies sizes2[stack2[i] as int]
        == holding(parents, depths, closed2, stack2[i] as int, n) by {
        let v = stack2[i] as int;
        assert(v == stack[i]);
        assert(depths[v] != 0) by {
            reveal(covered);
            assert(depths[stack[i] as int] != 0);
        }
        if v == p {
            assert forall|x: int| 0 <= x < n implies #[trigger] held_at(
                parents,
                depths,
                closed2,
                p,
                x,
            ) == (held_at(parents, depths, closed, p, x) || inside(parents, depths, now, x)) by {
                lemma_grown_child(root, par, level, parents, depths, now, x);
                if x != p && inside(parents, depths, p, x) {
                    lemma_grown_toward(root, par, level, parents, depths, p, x);
                }
            }
            assert forall|x: int| 0 <= x < n implies !(#[trigger] held_at(
                parents,
                depths,
                closed,
                p,
                x,
            ) && inside(parents, depths, now, x)) by {
                lemma_grown_child(root, par, level, parents, depths, now, x);
            }
            lemma_holding_grow(parents, depths, closed, closed2, p, now, n);
            assert(sizes[p] == holding(parents, depths, closed, p, n)) by {
                reveal(counting);
                assert(sizes[stack[i] as int] != 0);
            }
        } else {
            assert forall|x: int| 0 <= x < n implies held_at(parents, depths, closed, v, x)
                == #[trigger] held_at(parents, depths, closed2, v, x) by {
                if x != v && inside(parents, depths, v, x) {
                    lemma_grown_toward(root, par, level, parents, depths, v, x);
                }
            }
            lemma_holding_same(parents, depths, closed, parents, depths, closed2, v, n);
            assert(sizes[v] == holding(parents, depths, closed, v, n)) by {
                reveal(counting);
                assert(sizes[stack[i] as int] != 0);
            }
        }
    }
    reveal(counting);
}

proof fn lemma_close_heaviest(
    root: int,
    par: Seq<int>,
    chains: Seq<usize>,
    sizes: Seq<usize>,
    best: Seq<usize>,
    closed: Seq<bool>,
    now: usize,
    heavier: bool,
)
    requires
        heaviest(root, par, chains, sizes, best, closed),
        now < closed.len(),
        now != root,
        0 <= par[now as int] < closed.len(),
        par[now as int] != now,
        !closed[now as int],
        !closed[par[now as int]],
        sizes[now as int] >= 1,
        sizes[par[now as int]] + sizes[now as int] <= usize::MAX,
        heavier == (best[par[now as int]] < sizes[now as int]),
        forall|v: int| 0 <= v < closed.len() ==> 0 <= #[trigger] par[v] < closed.len(),
        forall|v: int| 0 <= v < chains.len() ==> #[trigger] chains[v] < chains.len(),
    ensures
        heaviest(
            root,
            par,
            if heavier {
                chains.update(par[now as int], now)
            } else {
                chains
            },
            sizes.update(par[now as int], (sizes[par[now as int]] + sizes[now as int]) as usize),
            if heavier {
                best.update(par[now as int], sizes[now as int])
            } else {
                best
            },
            closed.update(now as int, true),
        ),
{
    reveal(heaviest);
    let n = closed.len() as int;
    let p = par[now as int];
    let sizes2 = sizes.update(p, (sizes[p] + sizes[now as int]) as usize);
    let chains2 = if heavier {
        chains.update(p, now)
    } else {
        chains
    };
    let best2 = if heavier {
        best.update(p, sizes[now as int])
    } else {
        best
    };
    let closed2 = closed.update(now as int, true);
    assert(chains[p] == p ==> best[p] == 0);
    assert forall|c: int|
        0 <= c < n && #[trigger] closed2[c] && c != root implies best2[par[c]] >= sizes2[c]
        && chains2[par[c]] != par[c] by {
        assert(0 <= par[c] < n);
        if c != now {
            assert(closed[c]);
        }
    }
    assert forall|q: int|
        0 <= q < n && #[trigger] chains2[q] != q implies closed2[chains2[q] as int] && best2[q]
        == sizes2[chains2[q] as int] by {
        assert(chains[q] < chains.len());
        if !(q == p && heavier) {
            assert(chains[q] != q);
        }
    }
    assert forall|q: int| 0 <= q < n && #[trigger] chains2[q] == q implies best2[q] == 0 by {
        if q != p {
            assert(chains[q] == q);
        }
    }
}

proof fn lemma_close_root_heaviest(
    root: int,
    par: Seq<int>,
    chains: Seq<usize>,
    sizes: Seq<usize>,
    best: Seq<usize>,
    closed: Seq<bool>,
)
    requires
        heaviest(root, par, chains, sizes, best, closed),
        0 <= root < closed.len(),
        forall|v: int| 0 <= v < chains.len() ==> #[trigger] chains[v] < chains.len(),
    ensures
        heaviest(root, par, chains, sizes, best, closed.update(root, true)),
{
    reveal(heaviest);
    let closed2 = closed.update(root, true);
    assert forall|c: int|
        0 <= c < closed.len() && #[trigger] closed2[c] && c != root implies best[par[c]]
        >= sizes[c] && chains[par[c]] != par[c] by {
        assert(closed[c]);
    }
    assert forall|q: int|
        0 <= q < closed.len() && #[trigger] chains[q] != q implies closed2[chains[q] as int]
        && best[q] == sizes[chains[q] as int] by {
        assert(chains[q] < chains.len());
    }
}

/// Before the first step, nothing is closed and nothing has a size.
proof fn lemma_sized_start(
    root: int,
    par: Seq<int>,
    parents: Seq<usize>,
    depths: Seq<usize>,
    chains: Seq<usize>,
    sizes: Seq<usize>,
    best: Seq<usize>,
    stack: Seq<usize>,
)
    requires
        sizes.len() == depths.len(),
        best.len() == depths.len(),
        chains.len() == depths.len(),
        forall|v: int| 0 <= v < depths.len() ==> sizes[v] == 0 && best[v] == 0 && chains[v] == v,
        forall|i: int| 0 <= i < stack.len() ==> #[trigger] stack[i] < depths.len(),
    ensures
        sealed(parents, depths, sizes, Seq::new(depths.len(), |v: int| false), stack),
        counting(parents, depths, sizes, Seq::new(depths.len(), |v: int| false), stack),
        heaviest(root, par, chains, sizes, best, Seq::new(depths.len(), |v: int| false)),
{
    reveal(sealed);
    reveal(counting);
    reveal(heaviest);
}

/// Every node but the root weighs no more than the node the chain of its
/// parent goes on with.
#[verifier::opaque]
spec fn heavy(
    root: int,
    par: Seq<int>,
    parents: Seq<usize>,
    depths: Seq<usize>,
    chains: Seq<usize>,
) -> bool {
    forall|c: int|
        0 <= c < depths.len() && c != root && #[trigger] depths[c] != 0 ==> chains[par[c]]
            != par[c] && weight(parents, depths, c, depths.len() as int) <= weight(
            parents,
            depths,
            chains[par[c]] as int,
            depths.len() as int,
        )
}

/// With the stack empty, every node has closed with its weight, and the
/// chains go on with the heaviest children.
proof fn lemma_heavy_end(
    root: int,
    par: Seq<int>,
    parents: Seq<usize>,
    depths: Seq<usize>,
    chains: Seq<usize>,
    sizes: Seq<usize>,
    best: Seq<usize>,
    closed: Seq<bool>,
)
    requires
        waiting(depths, sizes, Seq::empty()),
        sealed(parents, depths, sizes, closed, Seq::empty()),
        heaviest(root, par, chains, sizes, best, closed),
        par.len() == depths.len(),
        forall|v: int| 0 <= v < par.len() ==> 0 <= #[trigger] par[v] < par.len(),
        forall|v: int| 0 <= v < chains.len() ==> #[trigger] chains[v] < chains.len(),
    ensures
        heavy(root, par, parents, depths, chains),
{
    reveal(heavy);
    let n = depths.len() as int;
    let none = Seq::<usize>::empty();
    assert forall|c: int|
        0 <= c < n && c != root && #[trigger] depths[c] != 0 implies chains[par[c]] != par[c]
        && weight(parents, depths, c, n) <= weight(parents, depths, chains[par[c]] as int, n) by {
        reveal(waiting);
        reveal(sealed);
        reveal(heaviest);
        if sizes[c] == 0 {
            assert(none.contains(c as usize));
        }
        if !closed[c] {
            assert(none.contains(c as usize));
        }
        let p = par[c];
        assert(0 <= p < n);
        assert(chains[p] != p);
        assert(chains[p] < chains.len());
        assert(closed[chains[p] as int]);
    }
}

/// What the first traversal knows of sizes: closed nodes have their
/// weights, open nodes hold what counts for them, and chains go on with the
/// heaviest closed children.
#[verifier::opaque]
spec fn weighed(
    root: int,
    par: Seq<int>,
    parents: Seq<usize>,
    depths: Seq<usize>,
    chains: Seq<usize>,
    sizes: Seq<usize>,
    best: Seq<usize>,
    closed: Seq<bool>,
    stack: Seq<usize>,
) -> bool {
    &&& sealed(parents, depths, sizes, closed, stack)
    &&& counting(parents, depths, sizes, closed, stack)
    &&& heaviest(root, par, chains, sizes, best, closed)
}

proof fn lemma_weighed_start<T>(
    graph: &Graph<T>,
    root: int,
    par: Seq<int>,
    level: Seq<nat>,
    parents: Seq<usize>,
    depths: Seq<usize>,
    chains: Seq<usize>,
    sizes: Seq<usize>,
    best: Seq<usize>,
    stack: Seq<usize>,
    below: Seq<int>,
)
    requires
        walking(graph, root, par, level, parents, depths, chains, sizes, stack, below),
        best.len() == graph.size(),
        forall|v: int| 0 <= v < graph.size() ==> sizes[v] == 0 && best[v] == 0 && chains[v] == v,
    ensures
        weighed(
            root,
            par,
            parents,
            depths,
            chains,
            sizes,
            best,
            Seq::new(graph.size(), |v: int| false),
            stack,
        ),
{
    reveal(weighed);
    lemma_walking_parts(graph, root, par, level, parents, depths, chains, sizes, stack, below);
    assert(forall|i: int| 0 <= i < stack.len() ==> #[trigger] stack[i] < depths.len()) by {
        reveal(stacked);
    }
    lemma_sized_start(root, par, parents, depths, chains, sizes, best, stack);
}

proof fn lemma_weighed_expand<T>(
    graph: &Graph<T>,
    root: int,
    par: Seq<int>,
    level: Seq<nat>,
    parents: Seq<usize>,
    depths: Seq<usize>,
    chains: Seq<usize>,
    sizes: Seq<usize>,
    stack: Seq<usize>,
    below: Seq<int>,
    best: Seq<usize>,
    closed: Seq<bool>,
)
    requires
        walking(graph, root, par, level, parents, depths, chains, sizes, stack, below),
        weighed(root, par, parents, depths, chains, sizes, best, closed, stack),
        stack.len() > 0,
        sizes[stack.last() as int] == 0,
        counted(graph, root, par, depths, stack.last() as int, 0),
    ensures
        weighed(
            root,
            par,
            parents,
            depths,
            chains,
            sizes.update(stack.last() as int, 1),
            best,
            closed,
            stack,
        ),
{
    reveal(weighed);
    let n = graph.size() as int;
    let now = stack.last() as int;
    lemma_walking_parts(graph, root, par, level, parents, depths, chains, sizes, stack, below);
    lemma_walking_grown(graph, root, par, level, parents, depths, chains, sizes, stack, below);
    lemma_stack_top(n, root, par, depths, sizes, stack, below);
    assert(forall|v: int| 0 <= v < chains.len() ==> #[trigger] chains[v] < chains.len()) by {
        reveal(chained);
    }
    assert(!closed[now]) by {
        reveal(sealed);
        assert(!closed[stack[stack.len() - 1] as int]);
    }
    lemma_expand_sealed(parents, depths, sizes, closed, stack);
    lemma_expand_counting(root, par, level, parents, depths, sizes, closed, stack);
    lemma_expand_heaviest(root, par, depths, chains, sizes, best, closed, now);
}

proof fn lemma_weighed_push<T>(
    graph: &Graph<T>,
    root: int,
    par: Seq<int>,
    level: Seq<nat>,
    parents: Seq<usize>,
    depths: Seq<usize>,
    chains: Seq<usize>,
    sizes: Seq<usize>,
    stack: Seq<usize>,
    below: Seq<int>,
    best: Seq<usize>,
    closed: Seq<bool>,
    top: int,
    done: int,
)
    requires
        walking(graph, root, par, level, parents, depths, chains, sizes, stack, below),
        weighed(root, par, parents, depths, chains, sizes, best, closed, stack),
        0 <= top < stack.len(),
        sizes[stack[top] as int] == 1,
        0 <= done < graph.adjacent(stack[top] as int).len(),
        target(graph, stack[top] as int, done) != par[stack[top] as int],
        counted(graph, root, par, depths, stack[top] as int, done),
    ensures
        weighed(
            root,
            par,
            parents.update(target(graph, stack[top] as int, done), stack[top]),
            depths.update(
                target(graph, stack[top] as int, done),
                (depths[stack[top] as int] + 1) as usize,
            ),
            chains,
            sizes,
            best,
            closed,
            stack.push(target(graph, stack[top] as int, done) as usize),
        ),
{
    reveal(weighed);
    let next = target(graph, stack[top] as int, done);
    lemma_chains_child(
        graph,
        root,
        par,
        level,
        parents,
        depths,
        chains,
        sizes,
        stack,
        below,
        top,
        done,
    );
    lemma_walking_parts(graph, root, par, level, parents, depths, chains, sizes, stack, below);
    lemma_walking_grown(graph, root, par, level, parents, depths, chains, sizes, stack, below);
    lemma_push_sealed(root, par, level, parents, depths, sizes, closed, stack, below, top, next);
    lemma_push_counting(root, par, level, parents, depths, sizes, closed, stack, below, top, next);
}

proof fn lemma_weighed_close<T>(
    graph: &Graph<T>,
    root: int,
    par: Seq<int>,
    level: Seq<nat>,
    parents: Seq<usize>,
    depths: Seq<usize>,
    chains: Seq<usize>,
    sizes: Seq<usize>,
    stack: Seq<usize>,
    below: Seq<int>,
    best: Seq<usize>,
    closed: Seq<bool>,
    heavier: bool,
)
    requires
        walking(graph, root, par, level, parents, depths, chains, sizes, stack, below),
        weighed(root, par, parents, depths, chains, sizes, best, closed, stack),
        stack.len() > 0,
        sizes[stack.last() as int] != 0,
        stack.last() != root,
        sizes[parents[stack.last() as int] as int] + sizes[stack.last() as int] <= usize::MAX,
        best.len() == graph.size(),
        heavier == (best[parents[stack.last() as int] as int] < sizes[stack.last() as int]),
    ensures
        weighed(
            root,
            par,
            parents,
            depths,
            if heavier {
                chains.update(parents[stack.last() as int] as int, stack.last())
            } else {
                chains
            },
            sizes.update(
                parents[stack.last() as int] as int,
                (sizes[parents[stack.last() as int] as int] + sizes[stack.last() as int]) as usize,
            ),
            if heavier {
                best.update(parents[stack.last() as int] as int, sizes[stack.last() as int])
            } else {
                best
            },
            closed.update(stack.last() as int, true),
            stack.drop_last(),
        ),
{
    reveal(weighed);
    let n = graph.size() as int;
    let now = stack.last();
    lemma_walking_parts(graph, root, par, level, parents, depths, chains, sizes, stack, below);
    lemma_walking_grown(graph, root, par, level, parents, depths, chains, sizes, stack, below);
    lemma_stack_top(n, root, par, depths, sizes, stack, below);
    lemma_seen_node(root, par, level, parents, depths, sizes, now as int);
    lemma_grown_node(root, par, level, parents, depths, now as int);
    let p = par[now as int];
    let q = below.last();
    let sum = (sizes[p] + sizes[now as int]) as usize;
    let closed2 = closed.update(now as int, true);
    let stack2 = stack.drop_last();
    assert(stack2[q] == p as usize);
    assert(!closed[now as int] && !closed[p] && closed.len() == n) by {
        reveal(sealed);
        assert(!closed[stack[stack.len() - 1] as int]);
        assert(!closed[stack[q] as int]);
    }
    assert(forall|v: int| 0 <= v < chains.len() ==> #[trigger] chains[v] < chains.len()) by {
        reveal(chained);
    }
    lemma_seal_sealed(root, par, level, parents, depths, sizes, closed, stack, below);
    assert(!closed2[p]);
    lemma_raise_sealed(parents, depths, sizes, closed2, stack2, p, sum);
    lemma_close_counting(root, par, level, parents, depths, sizes, closed, stack, below);
    lemma_close_heaviest(root, par, chains, sizes, best, closed, now, heavier);
}

proof fn lemma_weighed_close_root<T>(
    graph: &Graph<T>,
    root: int,
    par: Seq<int>,
    level: Seq<nat>,
    parents: Seq<usize>,
    depths: Seq<usize>,
    chains: Seq<usize>,
    sizes: Seq<usize>,
    stack: Seq<usize>,
    below: Seq<int>,
    best: Seq<usize>,
    closed: Seq<bool>,
)
    requires
        walking(graph, root, par, level, parents, depths, chains, sizes, stack, below),
        weighed(root, par, parents, depths, chains, sizes, best, closed, stack),
        stack.len() > 0,
        sizes[stack.last() as int] != 0,
        stack.last() == root,
    ensures
        weighed(
            root,
            par,
            parents,
            depths,
            chains,
            sizes,
            best,
            closed.update(root, true),
            stack.drop_last(),
        ),
{
    reveal(weighed);
    let n = graph.size() as int;
    lemma_walking_parts(graph, root, par, level, parents, depths, chains, sizes, stack, below);
    lemma_walking_grown(graph, root, par, level, parents, depths, chains, sizes, stack, below);
    lemma_stack_top(n, root, par, depths, sizes, stack, below);
    assert(forall|v: int| 0 <= v < chains.len() ==> #[trigger] chains[v] < chains.len()) by {
        reveal(chained);
    }
    assert(closed.len() == n) by {
        reveal(sealed);
    }
    lemma_seal_sealed(root, par, level, parents, depths, sizes, closed, stack, below);
    lemma_close_root_heaviest(root, par, chains, sizes, best, closed);
    assert(counting(parents, depths, sizes, closed.update(root, true), stack.drop_last())) by {
        reveal(counting);
    }
}

proof fn lemma_weighed_end<T>(
    graph: &Graph<T>,
    root: int,
    par: Seq<int>,
    level: Seq<nat>,
    parents: Seq<usize>,
    depths: Seq<usize>,
    chains: Seq<usize>,
    sizes: Seq<usize>,
    below: Seq<int>,
    best: Seq<usize>,
    closed: Seq<bool>,
)
    requires
        walking(graph, root, par, level, parents, depths, chains, sizes, Seq::empty(), below),
        weighed(root, par, parents, depths, chains, sizes, best, closed, Seq::empty()),
    ensures
        heavy(root, par, parents, depths, chains),
{
    reveal(weighed);
    lemma_walking_parts(
        graph,
        root,
        par,
        level,
        parents,
        depths,
        chains,
        sizes,
        Seq::empty(),
        below,
    );
    assert(forall|v: int| 0 <= v < chains.len() ==> #[trigger] chains[v] < chains.len()) by {
        reveal(chained);
    }
    lemma_heavy_end(root, par, parents, depths, chains, sizes, best, closed);
}

/// The closed child `d` does not take the place of the node the chain of
/// its parent goes on with: it is that node, or it is lighter, or it is no
/// heavier and its parent lists it before that node.
spec fn outweighed(
    par: Seq<int>,
    chains: Seq<usize>,
    sizes: Seq<usize>,
    best: Seq<usize>,
    order: Seq<int>,
    d: int,
) -> bool {
    let p = par[d];
    chains[p] == d || sizes[d] < best[p] || (sizes[d] <= best[p] && order[d]
        < order[chains[p] as int])
}

/// No child of `now` has closed.
spec fn childless(root: int, par: Seq<int>, closed: Seq<bool>, now: int) -> bool {
    forall|d: int| 0 <= d < closed.len() && d != root && #[trigger] closed[d] ==> par[d] != now
}

/// `order` gives the place of every node that has been seen in the list of
/// its parent. Children of one node lie on the stack in the order of that
/// list and close from its end, and of the closed children of a node the
/// chain goes on with the heaviest, with the one that closed first where
/// several weigh the same.
#[verifier::opaque]
spec fn ranked<T>(
    graph: &Graph<T>,
    root: int,
    par: Seq<int>,
    depths: Seq<usize>,
    chains: Seq<usize>,
    sizes: Seq<usize>,
    best: Seq<usize>,
    closed: Seq<bool>,
    stack: Seq<usize>,
    order: Seq<int>,
) -> bool {
    let n = depths.len();
    &&& order.len() == n
    &&& forall|v: int|
        0 <= v < n && v != root && #[trigger] depths[v] != 0 ==> 0 <= order[v] < graph.adjacent(
            par[v],
        ).len() && target(graph, par[v], order[v]) == v
    &&& forall|i: int, j: int|
        0 <= i < j < stack.len() && stack[i] != root && par[#[trigger] stack[i] as int]
            == par[#[trigger] stack[j] as int] ==> order[stack[i] as int] < order[stack[j] as int]
    &&& forall|i: int, d: int|
        0 <= i < stack.len() && 0 <= d < n && d != root && stack[i] != root && #[trigger] closed[d]
            && par[d] == par[#[trigger] stack[i] as int] ==> order[stack[i] as int] < order[d]
    &&& forall|d: int|
        0 <= d < n && d != root && #[trigger] closed[d] ==> outweighed(
            par,
            chains,
            sizes,
            best,
            order,
            d,
        )
}

/// Of the children of a node that weigh the most, the chain goes on with
/// the one that the node lists last: every child listed behind it is
/// lighter.
#[verifier::opaque]
spec fn preferred<T>(
    graph: &Graph<T>,
    par: Seq<int>,
    parents: Seq<usize>,
    depths: Seq<usize>,
    chains: Seq<usize>,
) -> bool {
    let n = depths.len() as int;
    forall|v: int, i: int, j: int|
        0 <= v < n && depths[v] != 0 && chains[v] != v && 0 <= i < j < graph.adjacent(v).len()
            && #[trigger] target(graph, v, i) == chains[v] && #[trigger] target(graph, v, j)
            != par[v] ==> weight(parents, depths, target(graph, v, j), n) < weight(
            parents,
            depths,
            chains[v] as int,
            n,
        )
}

/// What the sizes say of closed nodes and of chains.
proof fn lemma_closed_nodes(
    root: int,
    par: Seq<int>,
    parents: Seq<usize>,
    depths: Seq<usize>,
    chains: Seq<usize>,
    sizes: Seq<usize>,
    best: Seq<usize>,
    closed: Seq<bool>,
    stack: Seq<usize>,
)
    requires
        weighed(root, par, parents, depths, chains, sizes, best, closed, stack),
    ensures
        closed.len() == depths.len(),
        sizes.len() == depths.len(),
        best.len() == depths.len(),
        chains.len() == depths.len(),
        forall|v: int|
            0 <= v < depths.len() && #[trigger] closed[v] ==> depths[v] != 0 && sizes[v] != 0
                && sizes[v] == weight(parents, depths, v, depths.len() as int),
        forall|i: int| 0 <= i < stack.len() ==> !closed[#[trigger] stack[i] as int],
        forall|v: int|
            0 <= v < depths.len() && depths[v] != 0 && sizes[v] != 0 && !#[trigger] closed[v]
                ==> stack.contains(v as usize),
        forall|c: int|
            0 <= c < depths.len() && #[trigger] closed[c] && c != root ==> best[par[c]] >= sizes[c]
                && chains[par[c]] != par[c],
        forall|p: int|
            0 <= p < depths.len() && #[trigger] chains[p] != p ==> closed[chains[p] as int]
                && best[p] == sizes[chains[p] as int],
        forall|p: int| 0 <= p < depths.len() && #[trigger] chains[p] == p ==> best[p] == 0,
{
    reveal(weighed);
    reveal(sealed);
    reveal(heaviest);
}

proof fn lemma_ranked_start<T>(
    graph: &Graph<T>,
    root: int,
    par: Seq<int>,
    depths: Seq<usize>,
    chains: Seq<usize>,
    sizes: Seq<usize>,
    best: Seq<usize>,
    closed: Seq<bool>,
    stack: Seq<usize>,
    order: Seq<int>,
)
    requires
        order.len() == depths.len(),
        closed.len() == depths.len(),
        stack.len() == 1,
        forall|v: int| 0 <= v < depths.len() && v != root ==> depths[v] == 0,
        forall|v: int| 0 <= v < closed.len() ==> !closed[v],
    ensures
        ranked(graph, root, par, depths, chains, sizes, best, closed, stack, order),
{
    reveal(ranked);
}

/// Opening the node on top of the stack: none of its children has been
/// seen, so none has closed.
proof fn lemma_ranked_expand<T>(
    graph: &Graph<T>,
    root: int,
    par: Seq<int>,
    level: Seq<nat>,
    parents: Seq<usize>,
    depths: Seq<usize>,
    chains: Seq<usize>,
    sizes: Seq<usize>,
    stack: Seq<usize>,
    below: Seq<int>,
    best: Seq<usize>,
    closed: Seq<bool>,
    order: Seq<int>,
)
    requires
        walking(graph, root, par, level, parents, depths, chains, sizes, stack, below),
        weighed(root, par, parents, depths, chains, sizes, best, closed, stack),
        ranked(graph, root, par, depths, chains, sizes, best, closed, stack, order),
        stack.len() > 0,
        sizes[stack.last() as int] == 0,
    ensures
        ranked(
            graph,
            root,
            par,
            depths,
            chains,
            sizes.update(stack.last() as int, 1),
            best,
            closed,
            stack,
            order,
        ),
        childless(root, par, closed, stack.last() as int),
{
    lemma_walking_parts(graph, root, par, level, parents, depths, chains, sizes, stack, below);
    lemma_closed_nodes(root, par, parents, depths, chains, sizes, best, closed, stack);
    lemma_stack_top(graph.size() as int, root, par, depths, sizes, stack, below);
    let n = depths.len() as int;
    let now = stack.last() as int;
    let sizes2 = sizes.update(now, 1);
    assert(stack[stack.len() - 1] == stack.last());
    assert(!closed[now]);
    assert forall|d: int| 0 <= d < closed.len() && d != root && #[trigger] closed[d] implies par[d]
        != now by {
        lemma_seen_node(root, par, level, parents, depths, sizes, d);
    }
    reveal(ranked);
    assert forall|d: int| 0 <= d < n && d != root && #[trigger] closed[d] implies outweighed(
        par,
        chains,
        sizes2,
        best,
        order,
        d,
    ) by {
        assert(outweighed(par, chains, sizes, best, order, d));
        assert(d != now);
        assert(sizes2[d] == sizes[d]);
    }
}

/// A child of the open node `stack[top]` goes on the stack with its place
/// in the list of that node.
proof fn lemma_ranked_push<T>(
    graph: &Graph<T>,
    root: int,
    par: Seq<int>,
    level: Seq<nat>,
    parents: Seq<usize>,
    depths: Seq<usize>,
    chains: Seq<usize>,
    sizes: Seq<usize>,
    stack: Seq<usize>,
    below: Seq<int>,
    best: Seq<usize>,
    closed: Seq<bool>,
    order: Seq<int>,
    top: int,
    done: int,
)
    requires
        walking(graph, root, par, level, parents, depths, chains, sizes, stack, below),
        weighed(root, par, parents, depths, chains, sizes, best, closed, stack),
        ranked(graph, root, par, depths, chains, sizes, best, closed, stack, order),
        0 <= top < stack.len(),
        sizes[stack[top] as int] == 1,
        0 <= done < graph.adjacent(stack[top] as int).len(),
        target(graph, stack[top] as int, done) != par[stack[top] as int],
        counted(graph, root, par, depths, stack[top] as int, done),
        childless(root, par, closed, stack[top] as int),
    ensures
        ranked(
            graph,
            root,
            par,
            depths.update(
                target(graph, stack[top] as int, done),
                (depths[stack[top] as int] + 1) as usize,
            ),
            chains,
            sizes,
            best,
            closed,
            stack.push(target(graph, stack[top] as int, done) as usize),
            order.update(target(graph, stack[top] as int, done), done),
        ),
{
    let n = graph.size() as int;
    let now = stack[top] as int;
    let next = target(graph, now, done);
    lemma_chains_child(
        graph,
        root,
        par,
        level,
        parents,
        depths,
        chains,
        sizes,
        stack,
        below,
        top,
        done,
    );
    lemma_walking_parts(graph, root, par, level, parents, depths, chains, sizes, stack, below);
    lemma_closed_nodes(root, par, parents, depths, chains, sizes, best, closed, stack);
    let depths2 = depths.update(next, (depths[now] + 1) as usize);
    let stack2 = stack.push(next as usize);
    let order2 = order.update(next, done);
    assert forall|i: int| 0 <= i < stack.len() implies depths[#[trigger] stack[i] as int] != 0
        && stack[i] < n by {
        reveal(covered);
        reveal(stacked);
    }
    assert forall|c: int| 0 <= c < n && c != root && depths[c] != 0 && par[c] == now implies #[trigger] order[c]
        < done && 0 <= order[c] by {
        reveal(ranked);
        lemma_listed_once(graph, root, par, level, now, c, order[c], done);
    }
    assert forall|p: int| 0 <= p < n && chains[p] != p implies depths[#[trigger] chains[p] as int]
        != 0 && chains[p] < n by {
        reveal(chained);
    }
    assert(forall|v: int| 0 <= v < n ==> 0 <= #[trigger] par[v] < n);
    lemma_ranked_pushed(
        graph,
        root,
        par,
        depths,
        chains,
        sizes,
        best,
        closed,
        stack,
        order,
        now,
        next,
        done,
        (depths[now] + 1) as usize,
    );
}

/// A child that `now` lists at `o` and among its first `done` edges is
/// listed before `done`.
proof fn lemma_listed_once<T>(
    graph: &Graph<T>,
    root: int,
    par: Seq<int>,
    level: Seq<nat>,
    now: int,
    c: int,
    o: int,
    done: int,
)
    requires
        rooted(graph, root, par, level),
        0 <= now < graph.size(),
        0 <= c < graph.size(),
        c != root,
        par[c] == now,
        0 <= o < graph.adjacent(now).len(),
        target(graph, now, o) == c,
        0 <= done <= graph.adjacent(now).len(),
        exists|k: int| 0 <= k < done && #[trigger] target(graph, now, k) == c,
    ensures
        o < done,
{
    let k = choose|k: int| 0 <= k < done && #[trigger] target(graph, now, k) == c;
    if o != k {
        if o < k {
            assert(target(graph, now, o) == target(graph, now, k));
        } else {
            assert(target(graph, now, k) == target(graph, now, o));
        }
        assert(c == par[now]);
        assert(level[c] == level[par[c]] + 1);
        if now != root {
            assert(level[now] == level[par[now]] + 1);
        }
    }
}

/// The step of [`lemma_ranked_push`] from what it needs of the state.
proof fn lemma_ranked_pushed<T>(
    graph: &Graph<T>,
    root: int,
    par: Seq<int>,
    depths: Seq<usize>,
    chains: Seq<usize>,
    sizes: Seq<usize>,
    best: Seq<usize>,
    closed: Seq<bool>,
    stack: Seq<usize>,
    order: Seq<int>,
    now: int,
    next: int,
    done: int,
    depth: usize,
)
    requires
        ranked(graph, root, par, depths, chains, sizes, best, closed, stack, order),
        closed.len() == depths.len(),
        chains.len() == depths.len(),
        par.len() == depths.len(),
        0 <= next < depths.len(),
        0 <= now < depths.len(),
        depth != 0,
        depths[next] == 0,
        next != root,
        par[next] == now,
        0 <= done < graph.adjacent(now).len(),
        target(graph, now, done) == next,
        childless(root, par, closed, now),
        forall|v: int| 0 <= v < depths.len() ==> 0 <= #[trigger] par[v] < depths.len(),
        forall|i: int|
            0 <= i < stack.len() ==> depths[#[trigger] stack[i] as int] != 0 && stack[i]
                < depths.len(),
        forall|c: int|
            0 <= c < depths.len() && c != root && depths[c] != 0 && par[c] == now
                ==> #[trigger] order[c] < done && 0 <= order[c],
        forall|v: int| 0 <= v < depths.len() && #[trigger] closed[v] ==> depths[v] != 0,
        forall|c: int|
            0 <= c < depths.len() && #[trigger] closed[c] && c != root ==> chains[par[c]]
                != par[c],
        forall|p: int|
            0 <= p < depths.len() && chains[p] != p ==> depths[#[trigger] chains[p] as int] != 0
                && chains[p] < depths.len(),
    ensures
        ranked(
            graph,
            root,
            par,
            depths.update(next, depth),
            chains,
            sizes,
            best,
            closed,
            stack.push(next as usize),
            order.update(next, done),
        ),
{
    reveal(ranked);
    let n = depths.len() as int;
    let depths2 = depths.update(next, depth);
    let stack2 = stack.push(next as usize);
    let order2 = order.update(next, done);
    assert forall|v: int| 0 <= v < n && v != root && #[trigger] depths2[v] != 0 implies 0
        <= order2[v] < graph.adjacent(par[v]).len() && target(graph, par[v], order2[v]) == v by {
        if v != next {
            assert(depths[v] != 0);
        }
    }
    assert forall|i: int, j: int|
        0 <= i < j < stack2.len() && stack2[i] != root && par[#[trigger] stack2[i] as int]
            == par[#[trigger] stack2[j] as int] implies order2[stack2[i] as int]
        < order2[stack2[j] as int] by {
        let c = stack[i] as int;
        assert(stack2[i] == stack[i]);
        assert(depths[c] != 0);
        if j < stack.len() {
            assert(stack2[j] == stack[j]);
            assert(depths[stack[j] as int] != 0);
        } else {
            assert(stack2[j] == next);
            assert(order[c] < done);
        }
    }
    assert forall|i: int, d: int|
        0 <= i < stack2.len() && 0 <= d < n && d != root && stack2[i] != root && #[trigger] closed[d]
            && par[d] == par[#[trigger] stack2[i] as int] implies order2[stack2[i] as int]
        < order2[d] by {
        assert(depths[d] != 0);
        if i < stack.len() {
            assert(stack2[i] == stack[i]);
            assert(depths[stack[i] as int] != 0);
        } else {
            assert(stack2[i] == next);
        }
    }
    assert forall|d: int| 0 <= d < n && d != root && #[trigger] closed[d] implies outweighed(
        par,
        chains,
        sizes,
        best,
        order2,
        d,
    ) by {
        assert(outweighed(par, chains, sizes, best, order, d));
        assert(depths[d] != 0);
        assert(0 <= par[d] < n);
        assert(chains[par[d]] != par[d]);
        assert(depths[chains[par[d]] as int] != 0);
    }
}

/// The node on top of the stack closes: its parent counts it in, and the
/// chain of its parent goes on with it if it is heavier than every child
/// that closed before.
proof fn lemma_ranked_close<T>(
    graph: &Graph<T>,
    root: int,
    par: Seq<int>,
    level: Seq<nat>,
    parents: Seq<usize>,
    depths: Seq<usize>,
    chains: Seq<usize>,
    sizes: Seq<usize>,
    stack: Seq<usize>,
    below: Seq<int>,
    best: Seq<usize>,
    closed: Seq<bool>,
    order: Seq<int>,
    heavier: bool,
)
    requires
        walking(graph, root, par, level, parents, depths, chains, sizes, stack, below),
        weighed(root, par, parents, depths, chains, sizes, best, closed, stack),
        ranked(graph, root, par, depths, chains, sizes, best, closed, stack, order),
        stack.len() > 0,
        sizes[stack.last() as int] != 0,
        stack.last() != root,
        heavier == (best[parents[stack.last() as int] as int] < sizes[stack.last() as int]),
    ensures
        ranked(
            graph,
            root,
            par,
            depths,
            if heavier {
                chains.update(parents[stack.last() as int] as int, stack.last())
            } else {
                chains
            },
            sizes.update(
                parents[stack.last() as int] as int,
                (sizes[parents[stack.last() as int] as int] + sizes[stack.last() as int]) as usize,
            ),
            if heavier {
                best.update(parents[stack.last() as int] as int, sizes[stack.last() as int])
            } else {
                best
            },
            closed.update(stack.last() as int, true),
            stack.drop_last(),
            order,
        ),
{
    let n = graph.size() as int;
    let now = stack.last() as int;
    lemma_walking_parts(graph, root, par, level, parents, depths, chains, sizes, stack, below);
    lemma_stack_top(n, root, par, depths, sizes, stack, below);
    lemma_seen_node(root, par, level, parents, depths, sizes, now);
    lemma_closed_nodes(root, par, parents, depths, chains, sizes, best, closed, stack);
    assert forall|p: int| 0 <= p < n && chains[p] != p implies par[#[trigger] chains[p] as int] == p
        && chains[p] != root && chains[p] < n by {
        reveal(chained);
    }
    assert(forall|v: int| 0 <= v < n ==> 0 <= #[trigger] par[v] < n);
    reveal(ranked);
    let p = par[now];
    let q = below.last();
    let top = stack.len() - 1;
    assert(stack[top] == now);
    assert(stack[q] == p);
    assert(!closed[stack[top] as int]);
    assert(!closed[stack[q] as int]);
    let chains2 = if heavier {
        chains.update(p, now as usize)
    } else {
        chains
    };
    let sizes2 = sizes.update(p, (sizes[p] + sizes[now]) as usize);
    let best2 = if heavier {
        best.update(p, sizes[now])
    } else {
        best
    };
    let closed2 = closed.update(now, true);
    let stack2 = stack.drop_last();
    assert forall|i: int, j: int|
        0 <= i < j < stack2.len() && stack2[i] != root && par[#[trigger] stack2[i] as int]
            == par[#[trigger] stack2[j] as int] implies order[stack2[i] as int]
        < order[stack2[j] as int] by {
        assert(stack2[i] == stack[i] && stack2[j] == stack[j]);
    }
    assert forall|i: int, d: int|
        0 <= i < stack2.len() && 0 <= d < n && d != root && stack2[i] != root
            && #[trigger] closed2[d] && par[d] == par[#[trigger] stack2[i] as int] implies order[stack2[i] as int]
        < order[d] by {
        assert(stack2[i] == stack[i]);
        if d == now {
            assert(par[stack[i] as int] == par[stack[top] as int]);
        } else {
            assert(closed[d]);
        }
    }
    assert forall|d: int| 0 <= d < n && d != root && #[trigger] closed2[d] implies outweighed(
        par,
        chains2,
        sizes2,
        best2,
        order,
        d,
    ) by {
        if d == now {
            if !heavier {
                assert(chains[p] != p);
                let c = chains[p] as int;
                assert(closed[c]);
                assert(par[c] == p && c != root);
                assert(par[c] == par[stack[top] as int]);
                assert(order[stack[top] as int] < order[c]);
            }
        } else {
            assert(closed[d]);
            assert(outweighed(par, chains, sizes, best, order, d));
            assert(0 <= par[d] < n);
            assert(d != p);
            if par[d] == p {
                assert(chains[p] != p);
                assert(best[p] == sizes[chains[p] as int]);
            }
        }
    }
}

/// The root closes, and with it the traversal.
proof fn lemma_ranked_close_root<T>(
    graph: &Graph<T>,
    root: int,
    par: Seq<int>,
    parents: Seq<usize>,
    depths: Seq<usize>,
    chains: Seq<usize>,
    sizes: Seq<usize>,
    best: Seq<usize>,
    closed: Seq<bool>,
    stack: Seq<usize>,
    order: Seq<int>,
)
    requires
        weighed(root, par, parents, depths, chains, sizes, best, closed, stack),
        ranked(graph, root, par, depths, chains, sizes, best, closed, stack, order),
        stack.len() > 0,
        stack.last() == root,
        0 <= root < depths.len(),
    ensures
        ranked(
            graph,
            root,
            par,
            depths,
            chains,
            sizes,
            best,
            closed.update(root, true),
            stack.drop_last(),
            order,
        ),
{
    lemma_closed_nodes(root, par, parents, depths, chains, sizes, best, closed, stack);
    reveal(ranked);
    let closed2 = closed.update(root, true);
    let stack2 = stack.drop_last();
    assert forall|i: int, j: int|
        0 <= i < j < stack2.len() && stack2[i] != root && par[#[trigger] stack2[i] as int]
            == par[#[trigger] stack2[j] as int] implies order[stack2[i] as int]
        < order[stack2[j] as int] by {
        assert(stack2[i] == stack[i] && stack2[j] == stack[j]);
    }
    assert forall|i: int, d: int|
        0 <= i < stack2.len() && 0 <= d < depths.len() && d != root && stack2[i] != root
            && #[trigger] closed2[d] && par[d] == par[#[trigger] stack2[i] as int] implies order[stack2[i] as int]
        < order[d] by {
        assert(stack2[i] == stack[i]);
        assert(closed[d]);
    }
    assert forall|d: int| 0 <= d < depths.len() && d != root && #[trigger] closed2[d] implies outweighed(
        par,
        chains,
        sizes,
        best,
        order,
        d,
    ) by {
        assert(closed[d]);
    }
}

/// With the stack empty, every child that a node lists behind the node its
/// chain goes on with is lighter than that node.
proof fn lemma_ranked_end<T>(
    graph: &Graph<T>,
    root: int,
    par: Seq<int>,
    level: Seq<nat>,
    parents: Seq<usize>,
    depths: Seq<usize>,
    chains: Seq<usize>,
    sizes: Seq<usize>,
    below: Seq<int>,
    best: Seq<usize>,
    closed: Seq<bool>,
    order: Seq<int>,
)
    requires
        walking(graph, root, par, level, parents, depths, chains, sizes, Seq::empty(), below),
        weighed(root, par, parents, depths, chains, sizes, best, closed, Seq::empty()),
        ranked(graph, root, par, depths, chains, sizes, best, closed, Seq::empty(), order),
        settled(graph, par, depths, sizes, -1),
    ensures
        preferred(graph, par, parents, depths, chains),
{
    let n = graph.size() as int;
    let none = Seq::<usize>::empty();
    lemma_walking_parts(graph, root, par, level, parents, depths, chains, sizes, none, below);
    lemma_closed_nodes(root, par, parents, depths, chains, sizes, best, closed, none);
    assert forall|p: int| 0 <= p < n && chains[p] != p implies par[#[trigger] chains[p] as int] == p
        && chains[p] != root && chains[p] < n && depths[chains[p] as int] != 0 by {
        reveal(chained);
    }
    assert forall|v: int| 0 <= v < n && depths[v] != 0 implies #[trigger] closed[v] by {
        reveal(waiting);
        if sizes[v] == 0 {
            assert(none.contains(v as usize));
        }
        if !closed[v] {
            assert(none.contains(v as usize));
        }
    }
    reveal(preferred);
    reveal(ranked);
    assert forall|v: int, i: int, j: int|
        0 <= v < n && depths[v] != 0 && chains[v] != v && 0 <= i < j < graph.adjacent(v).len()
            && #[trigger] target(graph, v, i) == chains[v] && #[trigger] target(graph, v, j)
            != par[v] implies weight(parents, depths, target(graph, v, j), n) < weight(
        parents,
        depths,
        chains[v] as int,
        n,
    ) by {
        let c = chains[v] as int;
        let d = target(graph, v, j);
        assert(closed[v]);
        assert(sizes[v] != 0);
        assert(listed(graph, par, depths, v, graph.adjacent(v).len() as int));
        assert(depths[d] != 0);
        assert(0 <= d < n && par[d] == v && d != root);
        assert(par[c] == v && c != root && depths[c] != 0);
        assert(closed[c]);
        assert(closed[d]);
        assert(c != par[v]) by {
            assert(level[c] == level[par[c]] + 1);
            if v != root {
                assert(level[v] == level[par[v]] + 1);
            }
        }
        assert(order[c] == i) by {
            let o = order[c];
            assert(target(graph, v, o) == c);
            if o < i {
                assert(target(graph, v, o) == target(graph, v, i));
            } else if i < o {
                assert(target(graph, v, i) == target(graph, v, o));
            }
        }
        assert(order[d] == j) by {
            let o = order[d];
            assert(target(graph, v, o) == d);
            if o < j {
                assert(target(graph, v, o) == target(graph, v, j));
            } else if j < o {
                assert(target(graph, v, j) == target(graph, v, o));
            }
        }
        assert(outweighed(par, chains, sizes, best, order, d));
        assert(best[v] == sizes[c]);
        assert(sizes[d] == weight(parents, depths, d, n));
        assert(sizes[c] == weight(parents, depths, c, n));
    }
}

/// What the first traversal leaves behind: parent and depth of every node
/// that can be reached from the root, every child of such a node among
/// them, and chains that go on with a child or end.
spec fn explored<T>(
    graph: &Graph<T>,
    root: int,
    par: Seq<int>,
    level: Seq<nat>,
    parents: Seq<usize>,
    depths: Seq<usize>,
    chains: Seq<usize>,
) -> bool {
    let n = graph.size() as int;
    &&& rooted(graph, root, par, level)
    &&& parents.len() == n
    &&& depths.len() == n
    &&& chains.len() == n
    &&& depths[root] == 1
    &&& forall|v: int|
        0 <= v < n && #[trigger] depths[v] != 0 ==> parents[v] == par[v] && depths[v] == level[v]
            + 1 && listed(graph, par, depths, v, graph.adjacent(v).len() as int)
    &&& forall|v: int| 0 <= v < n && #[trigger] depths[v] == 0 ==> chains[v] == v
    &&& chained(root, par, depths, chains)
    &&& reached(graph, root, par, depths)
    &&& heavy(root, par, parents, depths, chains)
    &&& preferred(graph, par, parents, depths, chains)
}

/// A heavy-light decomposition: parent, depth, next node of the chain, head
/// of the chain and position of every node of a tree.
pub struct HeavyLight {
    parents: Vec<usize>,
    depths: Vec<usize>,
    chains: Vec<usize>,
    heads: Vec<usize>,
    pos: Vec<usize>,
}

impl HeavyLight {
    /// The parent of every node; the root is its own parent.
    pub closed spec fn parent_of(&self) -> Seq<usize> {
        self.parents@
    }

    /// The depth of every node, `1` for the root, and `0` for a node that
    /// cannot be reached from the root.
    pub closed spec fn depth_of(&self) -> Seq<usize> {
        self.depths@
    }

    /// For every node the child its chain goes on with, and the node itself
    /// where the chain ends.
    pub closed spec fn chain_of(&self) -> Seq<usize> {
        self.chains@
    }

    /// The first node of the chain of every node.
    pub closed spec fn head_of(&self) -> Seq<usize> {
        self.heads@
    }

    /// The position of every node.
    pub closed spec fn position_of(&self) -> Seq<usize> {
        self.pos@
    }

    /// The first traversal: parents, depths and chains.
    fn fill_chains<T>(
        &mut self,
        root: usize,
        graph: &Graph<T>,
        Ghost(par): Ghost<Seq<int>>,
        Ghost(level): Ghost<Seq<nat>>,
    )
        requires
            rooted(graph, root as int, par, level),
            old(self).parents@.len() == graph.size(),
            old(self).depths@.len() == graph.size(),
            old(self).chains@.len() == graph.size(),
            forall|v: int| 0 <= v < graph.size() ==> old(self).depths@[v] == 0,
            forall|v: int| 0 <= v < graph.size() ==> old(self).chains@[v] == v,
        ensures
            final(self).heads@ == old(self).heads@,
            final(self).pos@ == old(self).pos@,
            explored(
                graph,
                root as int,
                par,
                level,
                final(self).parents@,
                final(self).depths@,
                final(self).chains@,
            ),
            forall|v: int|
                0 <= v < graph.size() && #[trigger] final(self).depths@[v] == 0 ==> final(self).parents@[v] == old(self).parents@[v],
    {
        let n = graph.node_count();
        self.depths[root] = 1;
        self.parents[root] = root;
        let mut stack: Vec<usize> = Vec::with_capacity(n);
        let mut sizes: Vec<usize> = Vec::new();
        let mut best: Vec<usize> = Vec::new();
        while sizes.len() < n
            invariant
                sizes.len() <= n,
                best.len() == sizes.len(),
                forall|v: int| 0 <= v < sizes.len() ==> sizes@[v] == 0 && best@[v] == 0,
            decreases n - sizes.len(),
        {
            sizes.push(0);
            best.push(0);
        }
        stack.push(root);
        let ghost mut below: Seq<int> = seq![-1int];
        let ghost mut closed: Seq<bool> = Seq::new(graph.size(), |v: int| false);
        let ghost mut order: Seq<int> = Seq::new(graph.size(), |v: int| 0int);
        proof {
            assert(stack@ =~= seq![root]);
            lemma_ranked_start(
                graph,
                root as int,
                par,
                self.depths@,
                self.chains@,
                sizes@,
                best@,
                closed,
                stack@,
                order,
            );
            lemma_chains_start(
                graph,
                root as int,
                par,
                level,
                self.parents@,
                self.depths@,
                self.chains@,
                sizes@,
            );
            lemma_weighed_start(
                graph,
                root as int,
                par,
                level,
                self.parents@,
                self.depths@,
                self.chains@,
                sizes@,
                best@,
                stack@,
                below,
            );
        }
        while stack.len() > 0
            invariant
                n == graph.size(),
                root < n,
                graph.wf(),
                rooted(graph, root as int, par, level),
                self.heads@ == old(self).heads@,
                self.pos@ == old(self).pos@,
                best@.len() == n,
                weighed(
                    root as int,
                    par,
                    self.parents@,
                    self.depths@,
                    self.chains@,
                    sizes@,
                    best@,
                    closed,
                    stack@,
                ),
                walking(
                    graph,
                    root as int,
                    par,
                    level,
                    self.parents@,
                    self.depths@,
                    self.chains@,
                    sizes@,
                    stack@,
                    below,
                ),
                ranked(
                    graph,
                    root as int,
                    par,
                    self.depths@,
                    self.chains@,
                    sizes@,
                    best@,
                    closed,
                    stack@,
                    order,
                ),
                settled(graph, par, self.depths@, sizes@, -1),
                forall|v: int|
                    0 <= v < n && #[trigger] self.depths@[v] == 0 ==> self.parents@[v] == old(self).parents@[v],
            decreases n - filled(sizes@, n as int), stack.len(),
        {
            let top = stack.len() - 1;
            let now = stack[top];
            proof {
                lemma_chains_top(
                    graph,
                    root as int,
                    par,
                    level,
                    self.parents@,
                    self.depths@,
                    self.chains@,
                    sizes@,
                    stack@,
                    below,
                );
            }
            let parent = self.parents[now];
            if sizes[now] == 0 {
                proof {
                    lemma_chains_expand(
                        graph,
                        root as int,
                        par,
                        level,
                        self.parents@,
                        self.depths@,
                        self.chains@,
                        sizes@,
                        stack@,
                        below,
                    );
                    lemma_weighed_expand(
                        graph,
                        root as int,
                        par,
                        level,
                        self.parents@,
                        self.depths@,
                        self.chains@,
                        sizes@,
                        stack@,
                        below,
                        best@,
                        closed,
                    );
                    lemma_ranked_expand(
                        graph,
                        root as int,
                        par,
                        level,
                        self.parents@,
                        self.depths@,
                        self.chains@,
                        sizes@,
                        stack@,
                        below,
                        best@,
                        closed,
                        order,
                    );
                }
                sizes[now] += 1;
                let mut it = graph.neighbors(now);
                let ghost mut done: int = 0;
                let ghost edges = graph.adjacent(now as int);
                let ghost full = filled(sizes@, n as int);
                loop
                    invariant
                        it.wf(),
                        it@ == edges.skip(done),
                        n == graph.size(),
                        root < n,
                        graph.wf(),
                        rooted(graph, root as int, par, level),
                        now < n,
                        top < stack.len(),
                        stack@[top as int] == now,
                        parent == par[now as int],
                        sizes@[now as int] == 1,
                        edges == graph.adjacent(now as int),
                        0 <= done <= edges.len(),
                        self.heads@ == old(self).heads@,
                        self.pos@ == old(self).pos@,
                        self.parents@.len() == n,
                        self.depths@.len() == n,
                        best@.len() == n,
                        filled(sizes@, n as int) == full,
                        walking(
                            graph,
                            root as int,
                            par,
                            level,
                            self.parents@,
                            self.depths@,
                            self.chains@,
                            sizes@,
                            stack@,
                            below,
                        ),
                        weighed(
                            root as int,
                            par,
                            self.parents@,
                            self.depths@,
                            self.chains@,
                            sizes@,
                            best@,
                            closed,
                            stack@,
                        ),
                        ranked(
                            graph,
                            root as int,
                            par,
                            self.depths@,
                            self.chains@,
                            sizes@,
                            best@,
                            closed,
                            stack@,
                            order,
                        ),
                        childless(root as int, par, closed, now as int),
                        settled(graph, par, self.depths@, sizes@, now as int),
                        listed(graph, par, self.depths@, now as int, done),
                        counted(graph, root as int, par, self.depths@, now as int, done),
                        forall|v: int|
                            0 <= v < n && #[trigger] self.depths@[v] == 0 ==> self.parents@[v]
                                == old(self).parents@[v],
                    ensures
                        done == edges.len(),
                    decreases edges.len() - done,
                {
                    let entry = it.next();
                    match entry {
                        Some((next, _)) => {
                            proof {
                                assert(edges.skip(done)[0] == edges[done]);
                                assert(target(graph, now as int, done) == next);
                                assert(edges.skip(done).skip(1) =~= edges.skip(done + 1));
                            }
                            if next != parent {
                                proof {
                                    lemma_chains_child(
                                        graph,
                                        root as int,
                                        par,
                                        level,
                                        self.parents@,
                                        self.depths@,
                                        self.chains@,
                                        sizes@,
                                        stack@,
                                        below,
                                        top as int,
                                        done,
                                    );
                                    lemma_weighed_push(
                                        graph,
                                        root as int,
                                        par,
                                        level,
                                        self.parents@,
                                        self.depths@,
                                        self.chains@,
                                        sizes@,
                                        stack@,
                                        below,
                                        best@,
                                        closed,
                                        top as int,
                                        done,
                                    );
                                    lemma_ranked_push(
                                        graph,
                                        root as int,
                                        par,
                                        level,
                                        self.parents@,
                                        self.depths@,
                                        self.chains@,
                                        sizes@,
                                        stack@,
                                        below,
                                        best@,
                                        closed,
                                        order,
                                        top as int,
                                        done,
                                    );
                                    lemma_chains_push(
                                        graph,
                                        root as int,
                                        par,
                                        level,
                                        self.parents@,
                                        self.depths@,
                                        self.chains@,
                                        sizes@,
                                        stack@,
                                        below,
                                        top as int,
                                        done,
                                    );
                                    lemma_rooted_targets(graph, root as int, par, level);
                                    lemma_chains_listed(
                                        graph,
                                        root as int,
                                        par,
                                        self.depths@,
                                        sizes@,
                                        now as int,
                                        done,
                                        (self.depths@[now as int] + 1) as usize,
                                    );
                                }
                                self.depths[next] = self.depths[now] + 1;
                                self.parents[next] = now;
                                stack.push(next);
                                proof {
                                    below = below.push(top as int);
                                    order = order.update(next as int, done);
                                }
                            } else {
                                proof {
                                    lemma_chains_skip(
                                        graph,
                                        root as int,
                                        par,
                                        self.depths@,
                                        now as int,
                                        done,
                                    );
                                }
                            }
                            proof {
                                done = done + 1;
                            }
                        },
                        None => {
                            break ;
                        },
                    }
                }
                proof {
                    lemma_filled_bound(sizes@, n as int);
                }
            } else if now != parent {
                proof {
                    assert(self.parents@.len() == n);
                    lemma_chains_close(
                        graph,
                        root as int,
                        par,
                        level,
                        self.parents@,
                        self.depths@,
                        self.chains@,
                        sizes@,
                        stack@,
                        below,
                        best@[parent as int] < sizes@[now as int],
                    );
                    lemma_weighed_close(
                        graph,
                        root as int,
                        par,
                        level,
                        self.parents@,
                        self.depths@,
                        self.chains@,
                        sizes@,
                        stack@,
                        below,
                        best@,
                        closed,
                        best@[parent as int] < sizes@[now as int],
                    );
                    lemma_ranked_close(
                        graph,
                        root as int,
                        par,
                        level,
                        self.parents@,
                        self.depths@,
                        self.chains@,
                        sizes@,
                        stack@,
                        below,
                        best@,
                        closed,
                        order,
                        best@[parent as int] < sizes@[now as int],
                    );
                }
                sizes[parent] += sizes[now];
                if best[parent] < sizes[now] {
                    best[parent] = sizes[now];
                    self.chains[parent] = now;
                }
                stack.pop();
                proof {
                    below = below.drop_last();
                    closed = closed.update(now as int, true);
                }
            } else {
                proof {
                    lemma_chains_close_root(
                        graph,
                        root as int,
                        par,
                        level,
                        self.parents@,
                        self.depths@,
                        self.chains@,
                        sizes@,
                        stack@,
                        below,
                    );
                    lemma_weighed_close_root(
                        graph,
                        root as int,
                        par,
                        level,
                        self.parents@,
                        self.depths@,
                        self.chains@,
                        sizes@,
                        stack@,
                        below,
                        best@,
                        closed,
                    );
                    lemma_ranked_close_root(
                        graph,
                        root as int,
                        par,
                        self.parents@,
                        self.depths@,
                        self.chains@,
                        sizes@,
                        best@,
                        closed,
                        stack@,
                        order,
                    );
                }
                stack.pop();
                proof {
                    below = below.drop_last();
                    closed = closed.update(now as int, true);
                }
            }
        }
        proof {
            assert(stack@ =~= Seq::empty());
            lemma_weighed_end(
                graph,
                root as int,
                par,
                level,
                self.parents@,
                self.depths@,
                self.chains@,
                sizes@,
                below,
                best@,
                closed,
            );
            lemma_ranked_end(
                graph,
                root as int,
                par,
                level,
                self.parents@,
                self.depths@,
                self.chains@,
                sizes@,
                below,
                best@,
                closed,
                order,
            );
            lemma_chains_end(
                graph,
                root as int,
                par,
                level,
                self.parents@,
                self.depths@,
                self.chains@,
                sizes@,
                below,
            );
        }
    }
}

/// Every edge of a tree ends within the graph.
proof fn lemma_rooted_targets<T>(graph: &Graph<T>, root: int, par: Seq<int>, level: Seq<nat>)
    requires
        rooted(graph, root, par, level),
    ensures
        forall|a: int, i: int|
            0 <= a < graph.size() && 0 <= i < graph.adjacent(a).len() ==> 0 <= #[trigger] target(
                graph,
                a,
                i,
            ) < graph.size(),
{
}

proof fn lemma_filled_zero(sizes: Seq<usize>, k: int)
    requires
        0 <= k <= sizes.len(),
        forall|v: int| 0 <= v < sizes.len() ==> sizes[v] == 0,
    ensures
        filled(sizes, k) == 0,
    decreases k,
{
    if k > 0 {
        lemma_filled_zero(sizes, k - 1);
    }
}

/// The number of entries among the first `k` that are set.
spec fn count(done: Seq<bool>, k: int) -> int
    decreases k,
{
    if k <= 0 {
        0
    } else {
        count(done, k - 1) + if done[k - 1] {
            1int
        } else {
            0int
        }
    }
}

proof fn lemma_count_bound(done: Seq<bool>, k: int)
    requires
        0 <= k,
    ensures
        0 <= count(done, k) <= k,
    decreases k,
{
    if k > 0 {
        lemma_count_bound(done, k - 1);
    }
}

/// Setting an entry that was not set adds one.
proof fn lemma_count_set(done: Seq<bool>, k: int, x: int)
    requires
        0 <= x < done.len(),
        0 <= k <= done.len(),
        !done[x],
    ensures
        count(done.update(x, true), k) == count(done, k) + if x < k {
            1int
        } else {
            0int
        },
        x < k ==> count(done, k) <= k - 1,
    decreases k,
{
    if k > 0 {
        lemma_count_set(done, k - 1, x);
        lemma_count_bound(done, k - 1);
    }
}

proof fn lemma_count_none(done: Seq<bool>, k: int)
    requires
        0 <= k <= done.len(),
        forall|v: int| 0 <= v < done.len() ==> !done[v],
    ensures
        count(done, k) == 0,
    decreases k,
{
    if k > 0 {
        lemma_count_none(done, k - 1);
    }
}

/// The head of the chain of `v`: the head of its parent where the chain of
/// the parent goes on with `v`, and `v` itself where a chain starts.
spec fn head_rule(
    root: int,
    par: Seq<int>,
    chains: Seq<usize>,
    heads: Seq<usize>,
    v: int,
) -> int {
    if v != root && chains[par[v]] == v {
        heads[par[v]] as int
    } else {
        v
    }
}

/// The stack holds the nodes that have been pushed and not popped, each
/// once, together with a head.
#[verifier::opaque]
spec fn ready(
    depths: Seq<usize>,
    pushed: Seq<bool>,
    popped: Seq<bool>,
    stack: Seq<(usize, usize)>,
) -> bool {
    let n = depths.len();
    &&& forall|i: int|
        0 <= i < stack.len() ==> (#[trigger] stack[i]).0 < n && stack[i].1 < n
            && pushed[stack[i].0 as int] && !popped[stack[i].0 as int]
    &&& forall|i: int, j: int|
        0 <= i < j < stack.len() ==> (#[trigger] stack[i]).0 != (#[trigger] stack[j]).0
    &&& forall|v: int|
        0 <= v < n && #[trigger] pushed[v] && !popped[v] ==> exists|i: int|
            0 <= i < stack.len() && (#[trigger] stack[i]).0 == v
    &&& forall|v: int| 0 <= v < n && #[trigger] popped[v] ==> pushed[v]
    &&& forall|v: int| 0 <= v < n && #[trigger] pushed[v] ==> depths[v] != 0
}

/// A node is pushed when its parent is popped: never before, and at once
/// for every child of a popped node but `open`.
#[verifier::opaque]
spec fn ordered(
    root: int,
    par: Seq<int>,
    depths: Seq<usize>,
    pushed: Seq<bool>,
    popped: Seq<bool>,
    open: int,
) -> bool {
    let n = depths.len();
    &&& pushed[root]
    &&& forall|v: int| 0 <= v < n && v != root && #[trigger] pushed[v] ==> popped[par[v]]
    &&& forall|v: int|
        0 <= v < n && v != root && #[trigger] depths[v] != 0 && popped[par[v]] && par[v] != open
            ==> pushed[v]
}

/// Every popped node has the head that the rule gives it, and every node on
/// the stack waits with that head.
#[verifier::opaque]
spec fn headed(
    root: int,
    par: Seq<int>,
    chains: Seq<usize>,
    heads: Seq<usize>,
    popped: Seq<bool>,
    stack: Seq<(usize, usize)>,
) -> bool {
    &&& forall|v: int|
        0 <= v < heads.len() && #[trigger] popped[v] ==> heads[v] == head_rule(
            root,
            par,
            chains,
            heads,
            v,
        )
    &&& forall|i: int|
        0 <= i < stack.len() ==> (#[trigger] stack[i]).1 == head_rule(
            root,
            par,
            chains,
            heads,
            stack[i].0 as int,
        )
}

/// Popped nodes have positions of their own below the counter, and the node
/// a chain goes on with has the next position, for every popped node but
/// `pending`.
#[verifier::opaque]
spec fn placed(
    chains: Seq<usize>,
    pos: Seq<usize>,
    popped: Seq<bool>,
    counter: int,
    pending: int,
) -> bool {
    let n = pos.len();
    &&& forall|v: int| 0 <= v < n && #[trigger] popped[v] ==> pos[v] < counter
    &&& forall|u: int, v: int|
        0 <= u < n && 0 <= v < n && u != v && #[trigger] popped[u] && #[trigger] popped[v]
            ==> pos[u] != pos[v]
    &&& forall|v: int|
        0 <= v < n && #[trigger] popped[v] && v != pending && chains[v] != v
            ==> popped[chains[v] as int] && pos[chains[v] as int] == pos[v] + 1
}

/// The node `pending`, if there is one, has been popped last, and the node
/// its chain goes on with lies on top of the stack.
spec fn hanging(
    chains: Seq<usize>,
    pos: Seq<usize>,
    popped: Seq<bool>,
    stack: Seq<(usize, usize)>,
    counter: int,
    pending: int,
) -> bool {
    pending >= 0 ==> pending < pos.len() && popped[pending] && chains[pending] != pending
        && stack.len() > 0 && stack.last().0 == chains[pending] && pos[pending] + 1 == counter
}

/// The children of `now` that have been pushed are among the first `done`
/// that it lists, and those among them that start a chain have all been
/// pushed.
#[verifier::opaque]
spec fn offering<T>(
    graph: &Graph<T>,
    root: int,
    par: Seq<int>,
    chain: int,
    pushed: Seq<bool>,
    now: int,
    done: int,
) -> bool {
    &&& forall|v: int|
        0 <= v < pushed.len() && par[v] == now && v != root && #[trigger] pushed[v] ==> v != chain
            && exists|j: int| 0 <= j < done && #[trigger] target(graph, now, j) == v
    &&& forall|j: int|
        0 <= j < done && #[trigger] target(graph, now, j) != par[now] && target(graph, now, j)
            != chain ==> pushed[target(graph, now, j)]
}

/// What the second traversal has found so far.
#[verifier::opaque]
spec fn numbering<T>(
    graph: &Graph<T>,
    root: int,
    par: Seq<int>,
    level: Seq<nat>,
    parents: Seq<usize>,
    depths: Seq<usize>,
    chains: Seq<usize>,
    heads: Seq<usize>,
    pos: Seq<usize>,
    pushed: Seq<bool>,
    popped: Seq<bool>,
    stack: Seq<(usize, usize)>,
    counter: int,
    open: int,
    pending: int,
) -> bool {
    let n = graph.size() as int;
    &&& explored(graph, root, par, level, parents, depths, chains)
    &&& n <= usize::MAX
    &&& heads.len() == n
    &&& pos.len() == n
    &&& pushed.len() == n
    &&& popped.len() == n
    &&& forall|v: int| 0 <= v < n ==> #[trigger] heads[v] < n
    &&& forall|v: int| 0 <= v < n ==> #[trigger] pos[v] < n
    &&& counter == count(popped, n)
    &&& ready(depths, pushed, popped, stack)
    &&& ordered(root, par, depths, pushed, popped, open)
    &&& headed(root, par, chains, heads, popped, stack)
    &&& placed(chains, pos, popped, counter, pending)
}

/// What the two traversals leave behind, in terms of the tree.
spec fn decomposed<T>(
    graph: &Graph<T>,
    root: int,
    par: Seq<int>,
    level: Seq<nat>,
    parents: Seq<usize>,
    depths: Seq<usize>,
    chains: Seq<usize>,
    heads: Seq<usize>,
    pos: Seq<usize>,
) -> bool {
    let n = graph.size() as int;
    &&& explored(graph, root, par, level, parents, depths, chains)
    &&& heads.len() == n
    &&& pos.len() == n
    &&& forall|v: int| 0 <= v < n ==> #[trigger] heads[v] < n
    &&& forall|v: int| 0 <= v < n ==> #[trigger] pos[v] < n
    &&& forall|v: int|
        0 <= v < n && #[trigger] depths[v] != 0 ==> heads[v] == head_rule(
            root,
            par,
            chains,
            heads,
            v,
        )
    &&& forall|v: int|
        0 <= v < n && #[trigger] depths[v] != 0 && chains[v] != v ==> pos[chains[v] as int]
            == pos[v] + 1
    &&& forall|u: int, v: int|
        0 <= u < n && 0 <= v < n && u != v && #[trigger] depths[u] != 0 && #[trigger] depths[v]
            != 0 ==> pos[u] != pos[v]
}

proof fn lemma_heads_start<T>(
    graph: &Graph<T>,
    root: int,
    par: Seq<int>,
    level: Seq<nat>,
    parents: Seq<usize>,
    depths: Seq<usize>,
    chains: Seq<usize>,
    heads: Seq<usize>,
    pos: Seq<usize>,
)
    requires
        explored(graph, root, par, level, parents, depths, chains),
        graph.size() <= usize::MAX,
        heads.len() == graph.size(),
        pos.len() == graph.size(),
        forall|v: int| 0 <= v < graph.size() ==> #[trigger] heads[v] < graph.size(),
        forall|v: int| 0 <= v < graph.size() ==> #[trigger] pos[v] < graph.size(),
    ensures
        numbering(
            graph,
            root,
            par,
            level,
            parents,
            depths,
            chains,
            heads,
            pos,
            Seq::new(graph.size(), |v: int| v == root),
            Seq::new(graph.size(), |v: int| false),
            seq![(root as usize, root as usize)],
            0,
            -1,
            -1,
        ),
{
    reveal(numbering);
    reveal(ready);
    reveal(ordered);
    reveal(headed);
    reveal(placed);
    let n = graph.size() as int;
    let pushed = Seq::new(graph.size(), |v: int| v == root);
    let popped = Seq::new(graph.size(), |v: int| false);
    let stack = seq![(root as usize, root as usize)];
    lemma_count_none(popped, n);
    assert forall|v: int| 0 <= v < n && #[trigger] pushed[v] && !popped[v] implies exists|i: int|
        0 <= i < stack.len() && (#[trigger] stack[i]).0 == v by {
        assert(stack[0].0 == v);
    }
    assert forall|v: int|
        0 <= v < n && v != root && #[trigger] depths[v] != 0 && popped[par[v]] && par[v]
            != -1 implies pushed[v] by {
        assert(0 <= par[v] < n);
    }
}

/// What is known of the node on top of the stack of the second traversal.
proof fn lemma_heads_top<T>(
    graph: &Graph<T>,
    root: int,
    par: Seq<int>,
    level: Seq<nat>,
    parents: Seq<usize>,
    depths: Seq<usize>,
    chains: Seq<usize>,
    heads: Seq<usize>,
    pos: Seq<usize>,
    pushed: Seq<bool>,
    popped: Seq<bool>,
    stack: Seq<(usize, usize)>,
    counter: int,
    open: int,
    pending: int,
)
    requires
        numbering(
            graph,
            root,
            par,
            level,
            parents,
            depths,
            chains,
            heads,
            pos,
            pushed,
            popped,
            stack,
            counter,
            open,
            pending,
        ),
        stack.len() > 0,
    ensures
        graph.size() <= usize::MAX,
        parents.len() == graph.size(),
        depths.len() == graph.size(),
        chains.len() == graph.size(),
        heads.len() == graph.size(),
        pos.len() == graph.size(),
        pushed.len() == graph.size(),
        popped.len() == graph.size(),
        stack.last().0 < graph.size(),
        stack.last().1 < graph.size(),
        !popped[stack.last().0 as int],
        pushed[stack.last().0 as int],
        depths[stack.last().0 as int] != 0,
        parents[stack.last().0 as int] == par[stack.last().0 as int],
        chains[stack.last().0 as int] < graph.size(),
        0 <= counter < graph.size(),
        stack.last().1 == head_rule(root, par, chains, heads, stack.last().0 as int),
        forall|i: int| 0 <= i < stack.len() - 1 ==> (#[trigger] stack[i]).0 != stack.last().0,
{
    reveal(numbering);
    reveal(ready);
    reveal(headed);
    reveal(chained);
    let n = graph.size() as int;
    let top = stack.len() - 1;
    let now = stack.last().0 as int;
    assert(stack[top] == stack.last());
    assert(stack[top].0 < n);
    lemma_count_set(popped, n, now);
    lemma_count_bound(popped, n);
    assert forall|i: int| 0 <= i < stack.len() - 1 implies (#[trigger] stack[i]).0
        != stack.last().0 by {
        assert(stack[i].0 != stack[top].0);
    }
}

proof fn lemma_pop_ready(
    depths: Seq<usize>,
    pushed: Seq<bool>,
    popped: Seq<bool>,
    stack: Seq<(usize, usize)>,
)
    requires
        ready(depths, pushed, popped, stack),
        stack.len() > 0,
        popped.len() == depths.len(),
        depths.len() <= usize::MAX,
    ensures
        ready(depths, pushed, popped.update(stack.last().0 as int, true), stack.drop_last()),
{
    reveal(ready);
    let n = depths.len() as int;
    let top = stack.len() - 1;
    let now = stack.last().0 as int;
    let stack2 = stack.drop_last();
    let popped2 = popped.update(now, true);
    assert(stack[top] == stack.last());
    assert(stack[top].0 < n);
    assert forall|i: int| 0 <= i < stack2.len() implies (#[trigger] stack2[i]).0 < n
        && stack2[i].1 < n && pushed[stack2[i].0 as int] && !popped2[stack2[i].0 as int] by {
        assert(stack[i].0 != stack[top].0);
        assert(stack[i].0 < n);
    }
    assert forall|i: int, j: int| 0 <= i < j < stack2.len() implies (#[trigger] stack2[i]).0 != (
    #[trigger] stack2[j]).0 by {
        assert(stack[i].0 != stack[j].0);
    }
    assert forall|v: int| 0 <= v < n && #[trigger] pushed[v] && !popped2[v] implies exists|i: int|
        0 <= i < stack2.len() && (#[trigger] stack2[i]).0 == v by {
        assert(!popped[v]);
        let i = choose|i: int| 0 <= i < stack.len() && (#[trigger] stack[i]).0 == v;
        assert(i != top);
        assert(stack2[i].0 == v);
    }
}

proof fn lemma_push_ready(
    depths: Seq<usize>,
    pushed: Seq<bool>,
    popped: Seq<bool>,
    stack: Seq<(usize, usize)>,
    next: usize,
    head: usize,
)
    requires
        ready(depths, pushed, popped, stack),
        pushed.len() == depths.len(),
        next < depths.len(),
        head < depths.len(),
        !pushed[next as int],
        depths[next as int] != 0,
    ensures
        ready(depths, pushed.update(next as int, true), popped, stack.push((next, head))),
{
    reveal(ready);
    let n = depths.len() as int;
    let len = stack.len() as int;
    let stack2 = stack.push((next, head));
    let pushed2 = pushed.update(next as int, true);
    assert forall|i: int| 0 <= i < stack2.len() implies (#[trigger] stack2[i]).0 < n
        && stack2[i].1 < n && pushed2[stack2[i].0 as int] && !popped[stack2[i].0 as int] by {
        if i < len {
            assert(stack[i].0 < n);
        }
    }
    assert forall|i: int, j: int| 0 <= i < j < stack2.len() implies (#[trigger] stack2[i]).0 != (
    #[trigger] stack2[j]).0 by {
        if j < len {
            assert(stack[i].0 != stack[j].0);
        } else {
            assert(pushed[stack[i].0 as int]);
        }
    }
    assert forall|v: int| 0 <= v < n && #[trigger] pushed2[v] && !popped[v] implies exists|i: int|
        0 <= i < stack2.len() && (#[trigger] stack2[i]).0 == v by {
        if v == next {
            assert(stack2[len].0 == v);
        } else {
            assert(pushed[v]);
            let i = choose|i: int| 0 <= i < stack.len() && (#[trigger] stack[i]).0 == v;
            assert(stack2[i].0 == v);
        }
    }
    assert forall|v: int| 0 <= v < n && #[trigger] popped[v] implies pushed2[v] by {
        assert(pushed[v]);
    }
    assert forall|v: int| 0 <= v < n && #[trigger] pushed2[v] implies depths[v] != 0 by {
        if v != next {
            assert(pushed[v]);
        }
    }
}

/// What is known of a node that has been pushed.
proof fn lemma_ready_node(
    depths: Seq<usize>,
    pushed: Seq<bool>,
    popped: Seq<bool>,
    stack: Seq<(usize, usize)>,
    v: int,
)
    requires
        ready(depths, pushed, popped, stack),
        0 <= v < depths.len(),
    ensures
        popped[v] ==> pushed[v],
        pushed[v] ==> depths[v] != 0,
        pushed[v] && stack.len() == 0 ==> popped[v],
{
    reveal(ready);
    if pushed[v] && !popped[v] {
        let i = choose|i: int| 0 <= i < stack.len() && (#[trigger] stack[i]).0 == v;
    }
}

proof fn lemma_pop_ordered(
    root: int,
    par: Seq<int>,
    depths: Seq<usize>,
    pushed: Seq<bool>,
    popped: Seq<bool>,
    now: int,
)
    requires
        ordered(root, par, depths, pushed, popped, -1),
        0 <= now < depths.len(),
        popped.len() == depths.len(),
        par.len() == depths.len(),
        forall|v: int| 0 <= v < par.len() ==> 0 <= #[trigger] par[v] < par.len(),
    ensures
        ordered(root, par, depths, pushed, popped.update(now, true), now),
        forall|v: int|
            0 <= v < depths.len() && v != root && #[trigger] pushed[v] ==> popped[par[v]],
{
    reveal(ordered);
    let popped2 = popped.update(now, true);
    assert forall|v: int|
        0 <= v < depths.len() && v != root && #[trigger] pushed[v] implies popped2[par[v]] by {
        assert(0 <= par[v] < par.len());
    }
    assert forall|v: int|
        0 <= v < depths.len() && v != root && #[trigger] depths[v] != 0 && popped2[par[v]]
            && par[v] != now implies pushed[v] by {
        assert(0 <= par[v] < par.len());
    }
}

proof fn lemma_push_ordered(
    root: int,
    par: Seq<int>,
    depths: Seq<usize>,
    pushed: Seq<bool>,
    popped: Seq<bool>,
    open: int,
    next: int,
)
    requires
        ordered(root, par, depths, pushed, popped, open),
        0 <= next < depths.len(),
        pushed.len() == depths.len(),
        0 <= root < depths.len(),
        next != root ==> popped[par[next]],
    ensures
        ordered(root, par, depths, pushed.update(next, true), popped, open),
{
    reveal(ordered);
    let pushed2 = pushed.update(next, true);
    assert forall|v: int| 0 <= v < depths.len() && v != root && #[trigger] pushed2[v] implies popped[par[v]] by {
        if v != next {
            assert(pushed[v]);
        }
    }
    assert forall|v: int|
        0 <= v < depths.len() && v != root && #[trigger] depths[v] != 0 && popped[par[v]] && par[v]
            != open implies pushed2[v] by {
        assert(pushed[v]);
    }
}

/// Once every child of `now` has been pushed, `now` is open no more.
proof fn lemma_close_ordered<T>(
    graph: &Graph<T>,
    root: int,
    par: Seq<int>,
    level: Seq<nat>,
    depths: Seq<usize>,
    pushed: Seq<bool>,
    popped: Seq<bool>,
    now: int,
    chain: int,
)
    requires
        rooted(graph, root, par, level),
        reached(graph, root, par, depths),
        depths.len() == graph.size(),
        pushed.len() == graph.size(),
        ordered(root, par, depths, pushed, popped, now),
        offering(graph, root, par, chain, pushed, now, graph.adjacent(now).len() as int),
        0 <= now < graph.size(),
        chain == now || (0 <= chain < graph.size() && pushed[chain]),
    ensures
        ordered(root, par, depths, pushed, popped, -1),
{
    reveal(ordered);
    reveal(reached);
    reveal(offering);
    assert forall|v: int|
        0 <= v < depths.len() && v != root && #[trigger] depths[v] != 0 && popped[par[v]] && par[v]
            != -1 implies pushed[v] by {
        if par[v] == now && v != chain {
            let j = choose|j: int|
                0 <= j < graph.adjacent(par[v]).len() && #[trigger] target(graph, par[v], j) == v;
            assert(target(graph, now, j) == v);
            if v == par[now] {
                assert(level[v] == level[par[v]] + 1);
                if now != root {
                    assert(level[now] == level[par[now]] + 1);
                }
            }
        }
    }
}

proof fn lemma_pop_headed(
    root: int,
    par: Seq<int>,
    level: Seq<nat>,
    chains: Seq<usize>,
    heads: Seq<usize>,
    depths: Seq<usize>,
    pushed: Seq<bool>,
    popped: Seq<bool>,
    stack: Seq<(usize, usize)>,
)
    requires
        headed(root, par, chains, heads, popped, stack),
        ready(depths, pushed, popped, stack),
        forall|v: int|
            0 <= v < depths.len() && v != root && #[trigger] pushed[v] ==> popped[par[v]],
        stack.len() > 0,
        heads.len() == depths.len(),
        popped.len() == depths.len(),
        par.len() == depths.len(),
        level.len() == depths.len(),
        0 <= root < depths.len(),
        forall|v: int| 0 <= v < par.len() ==> 0 <= #[trigger] par[v] < par.len(),
        forall|v: int|
            0 <= v < par.len() && v != root ==> #[trigger] level[v] == level[par[v]] + 1,
    ensures
        headed(
            root,
            par,
            chains,
            heads.update(stack.last().0 as int, stack.last().1),
            popped.update(stack.last().0 as int, true),
            stack.drop_last(),
        ),
{
    reveal(headed);
    reveal(ready);
    let n = depths.len() as int;
    let top = stack.len() - 1;
    let now = stack.last().0 as int;
    let head = stack.last().1;
    let heads2 = heads.update(now, head);
    let popped2 = popped.update(now, true);
    let stack2 = stack.drop_last();
    assert(stack[top] == stack.last());
    assert(stack[top].0 < n && !popped[stack[top].0 as int]);
    assert forall|v: int| 0 <= v < n && (pushed[v] || v == now) implies head_rule(
        root,
        par,
        chains,
        heads2,
        v,
    ) == head_rule(root, par, chains, heads, v) by {
        if v != root {
            assert(0 <= par[v] < n);
            assert(level[v] == level[par[v]] + 1);
            assert(pushed[v]);
            assert(popped[par[v]]);
        }
    }
    assert forall|v: int| 0 <= v < heads2.len() && #[trigger] popped2[v] implies heads2[v]
        == head_rule(root, par, chains, heads2, v) by {
        if v != now {
            assert(popped[v]);
            assert(pushed[v]);
        }
    }
    assert forall|i: int| 0 <= i < stack2.len() implies (#[trigger] stack2[i]).1 == head_rule(
        root,
        par,
        chains,
        heads2,
        stack2[i].0 as int,
    ) by {
        assert(stack[i].0 < n && pushed[stack[i].0 as int]);
        assert(stack[i].1 == head_rule(root, par, chains, heads, stack[i].0 as int));
    }
}

proof fn lemma_push_headed(
    root: int,
    par: Seq<int>,
    chains: Seq<usize>,
    heads: Seq<usize>,
    popped: Seq<bool>,
    stack: Seq<(usize, usize)>,
    next: usize,
    head: usize,
)
    requires
        headed(root, par, chains, heads, popped, stack),
        head == head_rule(root, par, chains, heads, next as int),
    ensures
        headed(root, par, chains, heads, popped, stack.push((next, head))),
{
    reveal(headed);
    let stack2 = stack.push((next, head));
    assert forall|i: int| 0 <= i < stack2.len() implies (#[trigger] stack2[i]).1 == head_rule(
        root,
        par,
        chains,
        heads,
        stack2[i].0 as int,
    ) by {
        if i < stack.len() {
            assert(stack[i].1 == head_rule(root, par, chains, heads, stack[i].0 as int));
        }
    }
}

proof fn lemma_pop_placed(
    chains: Seq<usize>,
    pos: Seq<usize>,
    popped: Seq<bool>,
    stack: Seq<(usize, usize)>,
    counter: int,
    pending: int,
)
    requires
        placed(chains, pos, popped, counter, pending),
        hanging(chains, pos, popped, stack, counter, pending),
        stack.len() > 0,
        stack.last().0 < pos.len(),
        !popped[stack.last().0 as int],
        popped.len() == pos.len(),
        chains.len() == pos.len(),
        forall|v: int| 0 <= v < chains.len() ==> #[trigger] chains[v] < chains.len(),
        0 <= counter < usize::MAX,
    ensures
        placed(
            chains,
            pos.update(stack.last().0 as int, counter as usize),
            popped.update(stack.last().0 as int, true),
            counter + 1,
            stack.last().0 as int,
        ),
{
    reveal(placed);
    let n = pos.len() as int;
    let now = stack.last().0 as int;
    let pos2 = pos.update(now, counter as usize);
    let popped2 = popped.update(now, true);
    assert forall|v: int| 0 <= v < n && #[trigger] popped2[v] implies pos2[v] < counter + 1 by {
        if v != now {
            assert(popped[v]);
        }
    }
    assert forall|u: int, v: int|
        0 <= u < n && 0 <= v < n && u != v && #[trigger] popped2[u] && #[trigger] popped2[v] implies pos2[u]
        != pos2[v] by {
        if u != now {
            assert(popped[u]);
        }
        if v != now {
            assert(popped[v]);
        }
    }
    assert forall|v: int|
        0 <= v < n && #[trigger] popped2[v] && v != now && chains[v] != v implies popped2[chains[v] as int]
        && pos2[chains[v] as int] == pos2[v] + 1 by {
        assert(popped[v]);
        assert(chains[v] < n);
    }
}

/// With its chain at an end, or the node it goes on with on the stack, a
/// node is pending no more, or hangs.
proof fn lemma_rest_placed(
    chains: Seq<usize>,
    pos: Seq<usize>,
    popped: Seq<bool>,
    counter: int,
    now: int,
)
    requires
        placed(chains, pos, popped, counter, now),
        0 <= now < pos.len(),
        chains[now] == now,
    ensures
        placed(chains, pos, popped, counter, -1),
{
    reveal(placed);
}

proof fn lemma_none_offering<T>(
    graph: &Graph<T>,
    root: int,
    par: Seq<int>,
    chain: int,
    pushed: Seq<bool>,
    popped: Seq<bool>,
    now: int,
)
    requires
        0 <= now < pushed.len(),
        !popped[now],
        forall|v: int|
            0 <= v < pushed.len() && v != root && #[trigger] pushed[v] ==> popped[par[v]],
    ensures
        offering(graph, root, par, chain, pushed, now, 0),
{
    reveal(offering);
}

proof fn lemma_skip_offering<T>(
    graph: &Graph<T>,
    root: int,
    par: Seq<int>,
    chain: int,
    pushed: Seq<bool>,
    now: int,
    done: int,
)
    requires
        offering(graph, root, par, chain, pushed, now, done),
        0 <= done,
        target(graph, now, done) == par[now] || target(graph, now, done) == chain,
    ensures
        offering(graph, root, par, chain, pushed, now, done + 1),
{
    reveal(offering);
    assert forall|v: int|
        0 <= v < pushed.len() && par[v] == now && v != root && #[trigger] pushed[v] implies v
        != chain && exists|j: int| 0 <= j < done + 1 && #[trigger] target(graph, now, j) == v by {
        let j = choose|j: int| 0 <= j < done && #[trigger] target(graph, now, j) == v;
        assert(0 <= j < done + 1 && target(graph, now, j) == v);
    }
}

/// What is known of a child that `now` lists and that starts a chain: it
/// has been seen and has not been pushed.
proof fn lemma_light_child<T>(
    graph: &Graph<T>,
    root: int,
    par: Seq<int>,
    level: Seq<nat>,
    parents: Seq<usize>,
    depths: Seq<usize>,
    chains: Seq<usize>,
    pushed: Seq<bool>,
    now: int,
    done: int,
)
    requires
        explored(graph, root, par, level, parents, depths, chains),
        pushed.len() == graph.size(),
        offering(graph, root, par, chains[now] as int, pushed, now, done),
        0 <= now < graph.size(),
        depths[now] != 0,
        0 <= done < graph.adjacent(now).len(),
        target(graph, now, done) != par[now],
        target(graph, now, done) != chains[now],
    ensures
        0 <= target(graph, now, done) < graph.size(),
        par[target(graph, now, done)] == now,
        target(graph, now, done) != root,
        depths[target(graph, now, done)] != 0,
        !pushed[target(graph, now, done)],
        offering(
            graph,
            root,
            par,
            chains[now] as int,
            pushed.update(target(graph, now, done), true),
            now,
            done + 1,
        ),
{
    reveal(offering);
    let n = graph.size() as int;
    let next = target(graph, now, done);
    let chain = chains[now] as int;
    let pushed2 = pushed.update(next, true);
    assert(0 <= next < n && par[next] == now && next != root);
    assert(listed(graph, par, depths, now, graph.adjacent(now).len() as int));
    if pushed[next] {
        let j = choose|j: int| 0 <= j < done && #[trigger] target(graph, now, j) == next;
        assert(target(graph, now, j) == target(graph, now, done));
    }
    assert forall|v: int|
        0 <= v < pushed2.len() && par[v] == now && v != root && #[trigger] pushed2[v] implies v
        != chain && exists|j: int| 0 <= j < done + 1 && #[trigger] target(graph, now, j) == v by {
        if v == next {
            assert(target(graph, now, done) == v);
        } else {
            assert(pushed[v]);
            let j = choose|j: int| 0 <= j < done && #[trigger] target(graph, now, j) == v;
            assert(0 <= j < done + 1 && target(graph, now, j) == v);
        }
    }
    assert forall|j: int|
        0 <= j < done + 1 && #[trigger] target(graph, now, j) != par[now] && target(graph, now, j)
            != chain implies pushed2[target(graph, now, j)] by {
        if j < done {
            assert(pushed[target(graph, now, j)]);
        }
    }
}

/// The parts of the state of the second traversal.
proof fn lemma_numbering_parts<T>(
    graph: &Graph<T>,
    root: int,
    par: Seq<int>,
    level: Seq<nat>,
    parents: Seq<usize>,
    depths: Seq<usize>,
    chains: Seq<usize>,
    heads: Seq<usize>,
    pos: Seq<usize>,
    pushed: Seq<bool>,
    popped: Seq<bool>,
    stack: Seq<(usize, usize)>,
    counter: int,
    open: int,
    pending: int,
)
    requires
        numbering(
            graph,
            root,
            par,
            level,
            parents,
            depths,
            chains,
            heads,
            pos,
            pushed,
            popped,
            stack,
            counter,
            open,
            pending,
        ),
    ensures
        explored(graph, root, par, level, parents, depths, chains),
        rooted(graph, root, par, level),
        reached(graph, root, par, depths),
        chained(root, par, depths, chains),
        graph.size() <= usize::MAX,
        parents.len() == graph.size(),
        depths.len() == graph.size(),
        chains.len() == graph.size(),
        par.len() == graph.size(),
        level.len() == graph.size(),
        heads.len() == graph.size(),
        pos.len() == graph.size(),
        pushed.len() == graph.size(),
        popped.len() == graph.size(),
        0 <= root < graph.size(),
        forall|v: int| 0 <= v < graph.size() ==> #[trigger] heads[v] < graph.size(),
        forall|v: int| 0 <= v < graph.size() ==> #[trigger] pos[v] < graph.size(),
        forall|v: int| 0 <= v < graph.size() ==> #[trigger] chains[v] < graph.size(),
        forall|v: int| 0 <= v < graph.size() ==> 0 <= #[trigger] par[v] < graph.size(),
        forall|v: int|
            0 <= v < graph.size() && v != root ==> #[trigger] level[v] == level[par[v]] + 1,
        counter == count(popped, graph.size() as int),
        ready(depths, pushed, popped, stack),
        ordered(root, par, depths, pushed, popped, open),
        headed(root, par, chains, heads, popped, stack),
        placed(chains, pos, popped, counter, pending),
{
    reveal(numbering);
    reveal(chained);
}

/// The state of the second traversal from its parts.
proof fn lemma_numbering_whole<T>(
    graph: &Graph<T>,
    root: int,
    par: Seq<int>,
    level: Seq<nat>,
    parents: Seq<usize>,
    depths: Seq<usize>,
    chains: Seq<usize>,
    heads: Seq<usize>,
    pos: Seq<usize>,
    pushed: Seq<bool>,
    popped: Seq<bool>,
    stack: Seq<(usize, usize)>,
    counter: int,
    open: int,
    pending: int,
)
    requires
        explored(graph, root, par, level, parents, depths, chains),
        graph.size() <= usize::MAX,
        heads.len() == graph.size(),
        pos.len() == graph.size(),
        pushed.len() == graph.size(),
        popped.len() == graph.size(),
        forall|v: int| 0 <= v < graph.size() ==> #[trigger] heads[v] < graph.size(),
        forall|v: int| 0 <= v < graph.size() ==> #[trigger] pos[v] < graph.size(),
        counter == count(popped, graph.size() as int),
        ready(depths, pushed, popped, stack),
        ordered(root, par, depths, pushed, popped, open),
        headed(root, par, chains, heads, popped, stack),
        placed(chains, pos, popped, counter, pending),
    ensures
        numbering(
            graph,
            root,
            par,
            level,
            parents,
            depths,
            chains,
            heads,
            pos,
            pushed,
            popped,
            stack,
            counter,
            open,
            pending,
        ),
{
    reveal(numbering);
}

/// The node on top of the stack is popped: it gets its head and the next
/// position.
proof fn lemma_heads_pop<T>(
    graph: &Graph<T>,
    root: int,
    par: Seq<int>,
    level: Seq<nat>,
    parents: Seq<usize>,
    depths: Seq<usize>,
    chains: Seq<usize>,
    heads: Seq<usize>,
    pos: Seq<usize>,
    pushed: Seq<bool>,
    popped: Seq<bool>,
    stack: Seq<(usize, usize)>,
    counter: int,
    pending: int,
)
    requires
        numbering(
            graph,
            root,
            par,
            level,
            parents,
            depths,
            chains,
            heads,
            pos,
            pushed,
            popped,
            stack,
            counter,
            -1,
            pending,
        ),
        hanging(chains, pos, popped, stack, counter, pending),
        stack.len() > 0,
    ensures
        numbering(
            graph,
            root,
            par,
            level,
            parents,
            depths,
            chains,
            heads.update(stack.last().0 as int, stack.last().1),
            pos.update(stack.last().0 as int, counter as usize),
            pushed,
            popped.update(stack.last().0 as int, true),
            stack.drop_last(),
            counter + 1,
            stack.last().0 as int,
            stack.last().0 as int,
        ),
        offering(
            graph,
            root,
            par,
            chains[stack.last().0 as int] as int,
            pushed,
            stack.last().0 as int,
            0,
        ),
{
    let n = graph.size() as int;
    let now = stack.last().0 as int;
    let head = stack.last().1;
    lemma_heads_top(
        graph,
        root,
        par,
        level,
        parents,
        depths,
        chains,
        heads,
        pos,
        pushed,
        popped,
        stack,
        counter,
        -1,
        pending,
    );
    lemma_numbering_parts(
        graph,
        root,
        par,
        level,
        parents,
        depths,
        chains,
        heads,
        pos,
        pushed,
        popped,
        stack,
        counter,
        -1,
        pending,
    );
    let heads2 = heads.update(now, head);
    let pos2 = pos.update(now, counter as usize);
    let popped2 = popped.update(now, true);
    let stack2 = stack.drop_last();
    lemma_pop_ready(depths, pushed, popped, stack);
    lemma_pop_ordered(root, par, depths, pushed, popped, now);
    lemma_pop_headed(root, par, level, chains, heads, depths, pushed, popped, stack);
    lemma_pop_placed(chains, pos, popped, stack, counter, pending);
    lemma_count_set(popped, n, now);
    lemma_none_offering(graph, root, par, chains[now] as int, pushed, popped, now);
    assert forall|v: int| 0 <= v < n implies #[trigger] heads2[v] < n by {
        assert(heads[v] < n);
    }
    assert forall|v: int| 0 <= v < n implies #[trigger] pos2[v] < n by {
        assert(pos[v] < n);
    }
    lemma_numbering_whole(
        graph,
        root,
        par,
        level,
        parents,
        depths,
        chains,
        heads2,
        pos2,
        pushed,
        popped2,
        stack2,
        counter + 1,
        now,
        now,
    );
}

/// A child of `now` that starts a chain goes on the stack as its own head.
proof fn lemma_heads_light<T>(
    graph: &Graph<T>,
    root: int,
    par: Seq<int>,
    level: Seq<nat>,
    parents: Seq<usize>,
    depths: Seq<usize>,
    chains: Seq<usize>,
    heads: Seq<usize>,
    pos: Seq<usize>,
    pushed: Seq<bool>,
    popped: Seq<bool>,
    stack: Seq<(usize, usize)>,
    counter: int,
    now: int,
    done: int,
)
    requires
        numbering(
            graph,
            root,
            par,
            level,
            parents,
            depths,
            chains,
            heads,
            pos,
            pushed,
            popped,
            stack,
            counter,
            now,
            now,
        ),
        0 <= now < graph.size(),
        popped[now],
        offering(graph, root, par, chains[now] as int, pushed, now, done),
        0 <= done < graph.adjacent(now).len(),
        target(graph, now, done) != par[now],
        target(graph, now, done) != chains[now],
    ensures
        0 <= target(graph, now, done) < graph.size(),
        numbering(
            graph,
            root,
            par,
            level,
            parents,
            depths,
            chains,
            heads,
            pos,
            pushed.update(target(graph, now, done), true),
            popped,
            stack.push((target(graph, now, done) as usize, target(graph, now, done) as usize)),
            counter,
            now,
            now,
        ),
        offering(
            graph,
            root,
            par,
            chains[now] as int,
            pushed.update(target(graph, now, done), true),
            now,
            done + 1,
        ),
{
    let n = graph.size() as int;
    let next = target(graph, now, done);
    lemma_numbering_parts(
        graph,
        root,
        par,
        level,
        parents,
        depths,
        chains,
        heads,
        pos,
        pushed,
        popped,
        stack,
        counter,
        now,
        now,
    );
    lemma_ready_node(depths, pushed, popped, stack, now);
    lemma_light_child(graph, root, par, level, parents, depths, chains, pushed, now, done);
    let pushed2 = pushed.update(next, true);
    let stack2 = stack.push((next as usize, next as usize));
    lemma_push_ready(depths, pushed, popped, stack, next as usize, next as usize);
    lemma_push_ordered(root, par, depths, pushed, popped, now, next);
    lemma_push_headed(root, par, chains, heads, popped, stack, next as usize, next as usize);
    lemma_numbering_whole(
        graph,
        root,
        par,
        level,
        parents,
        depths,
        chains,
        heads,
        pos,
        pushed2,
        popped,
        stack2,
        counter,
        now,
        now,
    );
}

/// With every child that starts a chain on the stack, the node the chain of
/// `now` goes on with is pushed on top, if there is one.
proof fn lemma_heads_finish<T>(
    graph: &Graph<T>,
    root: int,
    par: Seq<int>,
    level: Seq<nat>,
    parents: Seq<usize>,
    depths: Seq<usize>,
    chains: Seq<usize>,
    heads: Seq<usize>,
    pos: Seq<usize>,
    pushed: Seq<bool>,
    popped: Seq<bool>,
    stack: Seq<(usize, usize)>,
    counter: int,
    now: int,
)
    requires
        numbering(
            graph,
            root,
            par,
            level,
            parents,
            depths,
            chains,
            heads,
            pos,
            pushed,
            popped,
            stack,
            counter,
            now,
            now,
        ),
        0 <= now < graph.size(),
        popped[now],
        pos[now] + 1 == counter,
        offering(
            graph,
            root,
            par,
            chains[now] as int,
            pushed,
            now,
            graph.adjacent(now).len() as int,
        ),
    ensures
        chains[now] == now ==> numbering(
            graph,
            root,
            par,
            level,
            parents,
            depths,
            chains,
            heads,
            pos,
            pushed,
            popped,
            stack,
            counter,
            -1,
            -1,
        ),
        chains[now] != now ==> chains[now] < graph.size() && heads[now] < graph.size()
            && numbering(
            graph,
            root,
            par,
            level,
            parents,
            depths,
            chains,
            heads,
            pos,
            pushed.update(chains[now] as int, true),
            popped,
            stack.push((chains[now], heads[now])),
            counter,
            -1,
            now,
        ) && hanging(chains, pos, popped, stack.push((chains[now], heads[now])), counter, now),
{
    let n = graph.size() as int;
    let chain = chains[now];
    lemma_numbering_parts(
        graph,
        root,
        par,
        level,
        parents,
        depths,
        chains,
        heads,
        pos,
        pushed,
        popped,
        stack,
        counter,
        now,
        now,
    );
    assert(chain < n);
    if chain == now {
        lemma_close_ordered(graph, root, par, level, depths, pushed, popped, now, chain as int);
        lemma_rest_placed(chains, pos, popped, counter, now);
        lemma_numbering_whole(
            graph,
            root,
            par,
            level,
            parents,
            depths,
            chains,
            heads,
            pos,
            pushed,
            popped,
            stack,
            counter,
            -1,
            -1,
        );
    } else {
        let head = heads[now];
        assert(par[chain as int] == now && chain != root && depths[chain as int] != 0) by {
            reveal(chained);
        }
        assert(!pushed[chain as int]) by {
            reveal(offering);
        }
        let pushed2 = pushed.update(chain as int, true);
        let stack2 = stack.push((chain, head));
        lemma_push_ready(depths, pushed, popped, stack, chain, head);
        lemma_push_ordered(root, par, depths, pushed, popped, now, chain as int);
        lemma_close_ordered_chain(graph, root, par, level, depths, pushed, popped, now, chain as int);
        lemma_push_headed(root, par, chains, heads, popped, stack, chain, head);
        lemma_numbering_whole(
            graph,
            root,
            par,
            level,
            parents,
            depths,
            chains,
            heads,
            pos,
            pushed2,
            popped,
            stack2,
            counter,
            -1,
            now,
        );
    }
}

/// Once every child of `now` has been pushed, the one its chain goes on
/// with among them, `now` is open no more.
proof fn lemma_close_ordered_chain<T>(
    graph: &Graph<T>,
    root: int,
    par: Seq<int>,
    level: Seq<nat>,
    depths: Seq<usize>,
    pushed: Seq<bool>,
    popped: Seq<bool>,
    now: int,
    chain: int,
)
    requires
        rooted(graph, root, par, level),
        reached(graph, root, par, depths),
        depths.len() == graph.size(),
        pushed.len() == graph.size(),
        0 <= chain < graph.size(),
        ordered(root, par, depths, pushed.update(chain, true), popped, now),
        offering(graph, root, par, chain, pushed, now, graph.adjacent(now).len() as int),
        0 <= now < graph.size(),
    ensures
        ordered(root, par, depths, pushed.update(chain, true), popped, -1),
{
    reveal(ordered);
    reveal(reached);
    reveal(offering);
    let pushed2 = pushed.update(chain, true);
    assert forall|v: int|
        0 <= v < depths.len() && v != root && #[trigger] depths[v] != 0 && popped[par[v]] && par[v]
            != -1 implies pushed2[v] by {
        if par[v] == now && v != chain {
            let j = choose|j: int|
                0 <= j < graph.adjacent(par[v]).len() && #[trigger] target(graph, par[v], j) == v;
            assert(target(graph, now, j) == v);
            if v == par[now] {
                assert(level[v] == level[par[v]] + 1);
                if now != root {
                    assert(level[now] == level[par[now]] + 1);
                }
            }
            assert(pushed[v]);
        }
    }
}

/// Every node that has been seen is popped in the end.
proof fn lemma_all_popped<T>(
    graph: &Graph<T>,
    root: int,
    par: Seq<int>,
    level: Seq<nat>,
    depths: Seq<usize>,
    pushed: Seq<bool>,
    popped: Seq<bool>,
    v: int,
)
    requires
        rooted(graph, root, par, level),
        reached(graph, root, par, depths),
        depths.len() == graph.size(),
        ready(depths, pushed, popped, Seq::empty()),
        ordered(root, par, depths, pushed, popped, -1),
        0 <= v < graph.size(),
        depths[v] != 0,
    ensures
        popped[v],
    decreases level[v],
{
    if v == root {
        assert(pushed[root]) by {
            reveal(ordered);
        }
    } else {
        assert(depths[par[v]] != 0) by {
            reveal(reached);
        }
        assert(0 <= par[v] < graph.size() && level[v] == level[par[v]] + 1);
        lemma_all_popped(graph, root, par, level, depths, pushed, popped, par[v]);
        assert(pushed[v]) by {
            reveal(ordered);
        }
    }
    lemma_ready_node(depths, pushed, popped, Seq::empty(), v);
}

/// `v` starts a chain below its parent.
spec fn light(root: int, par: Seq<int>, chains: Seq<usize>, v: int) -> bool {
    v != root && chains[par[v]] != v
}

/// No child of `now` has been popped.
spec fn barren(root: int, par: Seq<int>, popped: Seq<bool>, now: int) -> bool {
    forall|d: int| 0 <= d < popped.len() && d != root && #[trigger] popped[d] ==> par[d] != now
}

/// The root has position `0`, and `order` gives the place of every pushed
/// node that starts a chain in the list of its parent. Such children of one
/// node lie on the stack in the order of that list and are popped from its
/// end, so that the one listed behind the other has the smaller position.
#[verifier::opaque]
spec fn lined<T>(
    graph: &Graph<T>,
    root: int,
    par: Seq<int>,
    chains: Seq<usize>,
    pos: Seq<usize>,
    pushed: Seq<bool>,
    popped: Seq<bool>,
    stack: Seq<(usize, usize)>,
    counter: int,
    order: Seq<int>,
) -> bool {
    let n = pos.len();
    &&& order.len() == n
    &&& ((counter == 0 && stack.len() == 1 && stack[0].0 == root) || (popped[root] && pos[root]
        == 0))
    &&& forall|v: int|
        0 <= v < n && #[trigger] pushed[v] && light(root, par, chains, v) ==> 0 <= order[v]
            < graph.adjacent(par[v]).len() && target(graph, par[v], order[v]) == v
    &&& forall|i: int, j: int|
        0 <= i < j < stack.len() && light(root, par, chains, (#[trigger] stack[i]).0 as int)
            && light(root, par, chains, (#[trigger] stack[j]).0 as int) && par[stack[i].0 as int]
            == par[stack[j].0 as int] ==> order[stack[i].0 as int] < order[stack[j].0 as int]
    &&& forall|i: int, d: int|
        0 <= i < stack.len() && 0 <= d < n && #[trigger] popped[d] && light(root, par, chains, d)
            && light(root, par, chains, (#[trigger] stack[i]).0 as int) && par[d]
            == par[stack[i].0 as int] ==> order[stack[i].0 as int] < order[d]
    &&& forall|c: int, d: int|
        0 <= c < n && 0 <= d < n && #[trigger] popped[c] && #[trigger] popped[d] && light(
            root,
            par,
            chains,
            c,
        ) && light(root, par, chains, d) && par[c] == par[d] && order[c] < order[d] ==> pos[d]
            < pos[c]
}

/// Of two children of a node that both start a chain, the one listed behind
/// the other has the smaller position.
#[verifier::opaque]
spec fn arranged<T>(
    graph: &Graph<T>,
    par: Seq<int>,
    depths: Seq<usize>,
    chains: Seq<usize>,
    pos: Seq<usize>,
) -> bool {
    forall|v: int, i: int, j: int|
        0 <= v < depths.len() && depths[v] != 0 && 0 <= i < j < graph.adjacent(v).len()
            && #[trigger] target(graph, v, i) != par[v] && #[trigger] target(graph, v, j) != par[v]
            && target(graph, v, i) != chains[v] && target(graph, v, j) != chains[v] ==> pos[target(
            graph,
            v,
            j,
        )] < pos[target(graph, v, i)]
}

/// What the state of the second traversal says node by node.
proof fn lemma_numbering_facts<T>(
    graph: &Graph<T>,
    root: int,
    par: Seq<int>,
    level: Seq<nat>,
    parents: Seq<usize>,
    depths: Seq<usize>,
    chains: Seq<usize>,
    heads: Seq<usize>,
    pos: Seq<usize>,
    pushed: Seq<bool>,
    popped: Seq<bool>,
    stack: Seq<(usize, usize)>,
    counter: int,
    open: int,
    pending: int,
)
    requires
        numbering(
            graph,
            root,
            par,
            level,
            parents,
            depths,
            chains,
            heads,
            pos,
            pushed,
            popped,
            stack,
            counter,
            open,
            pending,
        ),
    ensures
        rooted(graph, root, par, level),
        pos.len() == graph.size(),
        par.len() == graph.size(),
        chains.len() == graph.size(),
        pushed.len() == graph.size(),
        popped.len() == graph.size(),
        depths.len() == graph.size(),
        0 <= root < graph.size(),
        0 <= counter,
        forall|v: int| 0 <= v < graph.size() ==> 0 <= #[trigger] par[v] < graph.size(),
        forall|v: int| 0 <= v < graph.size() && v != root ==> #[trigger] par[v] != v,
        forall|i: int|
            0 <= i < stack.len() ==> (#[trigger] stack[i]).0 < graph.size()
                && pushed[stack[i].0 as int] && !popped[stack[i].0 as int],
        forall|i: int, j: int|
            0 <= i < j < stack.len() ==> (#[trigger] stack[i]).0 != (#[trigger] stack[j]).0,
        forall|v: int|
            0 <= v < graph.size() && #[trigger] popped[v] ==> pushed[v] && pos[v] < counter,
        forall|v: int|
            0 <= v < graph.size() && v != root && #[trigger] pushed[v] ==> popped[par[v]],
        forall|p: int|
            0 <= p < graph.size() && chains[p] != p ==> par[#[trigger] chains[p] as int] == p
                && chains[p] != root && chains[p] < graph.size() && depths[chains[p] as int] != 0,
        forall|v: int| 0 <= v < graph.size() && #[trigger] pushed[v] ==> depths[v] != 0,
        grown(root, par, level, parents, depths),
{
    lemma_numbering_parts(
        graph,
        root,
        par,
        level,
        parents,
        depths,
        chains,
        heads,
        pos,
        pushed,
        popped,
        stack,
        counter,
        open,
        pending,
    );
    lemma_explored_grown(graph, root, par, level, parents, depths, chains);
    reveal(ready);
    reveal(ordered);
    reveal(placed);
    reveal(chained);
    lemma_count_bound(popped, graph.size() as int);
    assert forall|v: int| 0 <= v < graph.size() && v != root implies #[trigger] par[v] != v by {
        assert(level[v] == level[par[v]] + 1);
    }
}

proof fn lemma_lined_start<T>(
    graph: &Graph<T>,
    root: int,
    par: Seq<int>,
    chains: Seq<usize>,
    pos: Seq<usize>,
    pushed: Seq<bool>,
    popped: Seq<bool>,
    stack: Seq<(usize, usize)>,
    order: Seq<int>,
)
    requires
        order.len() == pos.len(),
        pushed.len() == pos.len(),
        popped.len() == pos.len(),
        stack.len() == 1,
        stack[0].0 == root,
        forall|v: int| 0 <= v < pos.len() && v != root ==> !pushed[v],
        forall|v: int| 0 <= v < pos.len() ==> !popped[v],
    ensures
        lined(graph, root, par, chains, pos, pushed, popped, stack, 0, order),
{
    reveal(lined);
}

/// The node on top of the stack is popped and gets the next position.
proof fn lemma_lined_pop<T>(
    graph: &Graph<T>,
    root: int,
    par: Seq<int>,
    chains: Seq<usize>,
    pos: Seq<usize>,
    pushed: Seq<bool>,
    popped: Seq<bool>,
    stack: Seq<(usize, usize)>,
    counter: int,
    order: Seq<int>,
)
    requires
        lined(graph, root, par, chains, pos, pushed, popped, stack, counter, order),
        stack.len() > 0,
        0 <= counter <= usize::MAX,
        popped.len() == pos.len(),
        0 <= root < pos.len(),
        forall|v: int| 0 <= v < pos.len() && v != root ==> #[trigger] par[v] != v,
        forall|i: int|
            0 <= i < stack.len() ==> (#[trigger] stack[i]).0 < pos.len()
                && !popped[stack[i].0 as int],
        forall|i: int, j: int|
            0 <= i < j < stack.len() ==> (#[trigger] stack[i]).0 != (#[trigger] stack[j]).0,
        forall|v: int| 0 <= v < pos.len() && #[trigger] popped[v] ==> pushed[v] && pos[v] < counter,
        forall|v: int| 0 <= v < pos.len() && v != root && #[trigger] pushed[v] ==> popped[par[v]],
    ensures
        lined(
            graph,
            root,
            par,
            chains,
            pos.update(stack.last().0 as int, counter as usize),
            pushed,
            popped.update(stack.last().0 as int, true),
            stack.drop_last(),
            counter + 1,
            order,
        ),
        barren(root, par, popped.update(stack.last().0 as int, true), stack.last().0 as int),
{
    reveal(lined);
    let n = pos.len() as int;
    let top = stack.len() - 1;
    let now = stack[top].0 as int;
    assert(stack.last() == stack[top]);
    let pos2 = pos.update(now, counter as usize);
    let popped2 = popped.update(now, true);
    let stack2 = stack.drop_last();
    assert(!popped[now]);
    assert forall|d: int| 0 <= d < popped2.len() && d != root && #[trigger] popped2[d] implies par[d]
        != now by {
        if d != now {
            assert(popped[d]);
            assert(pushed[d]);
        }
    }
    assert forall|i: int, j: int|
        0 <= i < j < stack2.len() && light(root, par, chains, (#[trigger] stack2[i]).0 as int)
            && light(root, par, chains, (#[trigger] stack2[j]).0 as int) && par[stack2[i].0 as int]
            == par[stack2[j].0 as int] implies order[stack2[i].0 as int]
        < order[stack2[j].0 as int] by {
        assert(stack2[i] == stack[i] && stack2[j] == stack[j]);
    }
    assert forall|i: int, d: int|
        0 <= i < stack2.len() && 0 <= d < n && #[trigger] popped2[d] && light(root, par, chains, d)
            && light(root, par, chains, (#[trigger] stack2[i]).0 as int) && par[d]
            == par[stack2[i].0 as int] implies order[stack2[i].0 as int] < order[d] by {
        assert(stack2[i] == stack[i]);
        if d == now {
            assert(light(root, par, chains, stack[top].0 as int));
        } else {
            assert(popped[d]);
        }
    }
    assert forall|c: int, d: int|
        0 <= c < n && 0 <= d < n && #[trigger] popped2[c] && #[trigger] popped2[d] && light(
            root,
            par,
            chains,
            c,
        ) && light(root, par, chains, d) && par[c] == par[d] && order[c] < order[d] implies pos2[d]
        < pos2[c] by {
        if c == now {
            if d != now {
                assert(popped[d]);
            }
        } else if d == now {
            assert(popped[c]);
            assert(light(root, par, chains, stack[top].0 as int));
            assert(order[stack[top].0 as int] < order[c]);
        } else {
            assert(popped[c] && popped[d]);
        }
    }
    if counter == 0 && stack.len() == 1 && stack[0].0 == root {
        assert(now == root);
    } else {
        assert(popped[root]);
        assert(now != root);
    }
}

/// A child of the popped node `now` that starts a chain goes on the stack
/// with its place in the list of `now`.
proof fn lemma_lined_push<T>(
    graph: &Graph<T>,
    root: int,
    par: Seq<int>,
    level: Seq<nat>,
    chains: Seq<usize>,
    pos: Seq<usize>,
    pushed: Seq<bool>,
    popped: Seq<bool>,
    stack: Seq<(usize, usize)>,
    counter: int,
    order: Seq<int>,
    now: int,
    done: int,
)
    requires
        lined(graph, root, par, chains, pos, pushed, popped, stack, counter, order),
        rooted(graph, root, par, level),
        counter > 0,
        pushed.len() == pos.len(),
        popped.len() == pos.len(),
        pos.len() == graph.size(),
        0 <= now < pos.len(),
        0 <= done < graph.adjacent(now).len(),
        0 <= target(graph, now, done) < pos.len(),
        par[target(graph, now, done)] == now,
        target(graph, now, done) != root,
        !pushed[target(graph, now, done)],
        barren(root, par, popped, now),
        offering(graph, root, par, chains[now] as int, pushed, now, done),
        forall|i: int|
            0 <= i < stack.len() ==> (#[trigger] stack[i]).0 < pos.len()
                && pushed[stack[i].0 as int],
        forall|v: int| 0 <= v < pos.len() && #[trigger] popped[v] ==> pushed[v],
    ensures
        lined(
            graph,
            root,
            par,
            chains,
            pos,
            pushed.update(target(graph, now, done), true),
            popped,
            stack.push((target(graph, now, done) as usize, target(graph, now, done) as usize)),
            counter,
            order.update(target(graph, now, done), done),
        ),
{
    reveal(lined);
    let n = pos.len() as int;
    let next = target(graph, now, done);
    let pushed2 = pushed.update(next, true);
    let stack2 = stack.push((next as usize, next as usize));
    let order2 = order.update(next, done);
    assert forall|c: int|
        0 <= c < n && #[trigger] pushed[c] && light(root, par, chains, c) && par[c]
            == now implies 0 <= order[c] < done by {
        reveal(offering);
        lemma_listed_once(graph, root, par, level, now, c, order[c], done);
    }
    assert forall|v: int|
        0 <= v < n && #[trigger] pushed2[v] && light(root, par, chains, v) implies 0 <= order2[v]
        < graph.adjacent(par[v]).len() && target(graph, par[v], order2[v]) == v by {
        if v != next {
            assert(pushed[v]);
        }
    }
    assert forall|i: int, j: int|
        0 <= i < j < stack2.len() && light(root, par, chains, (#[trigger] stack2[i]).0 as int)
            && light(root, par, chains, (#[trigger] stack2[j]).0 as int) && par[stack2[i].0 as int]
            == par[stack2[j].0 as int] implies order2[stack2[i].0 as int]
        < order2[stack2[j].0 as int] by {
        assert(stack2[i] == stack[i]);
        assert(pushed[stack[i].0 as int]);
        if j < stack.len() {
            assert(stack2[j] == stack[j]);
            assert(pushed[stack[j].0 as int]);
        } else {
            assert(stack2[j].0 == next);
        }
    }
    assert forall|i: int, d: int|
        0 <= i < stack2.len() && 0 <= d < n && #[trigger] popped[d] && light(root, par, chains, d)
            && light(root, par, chains, (#[trigger] stack2[i]).0 as int) && par[d]
            == par[stack2[i].0 as int] implies order2[stack2[i].0 as int] < order2[d] by {
        assert(pushed[d]);
        if i < stack.len() {
            assert(stack2[i] == stack[i]);
            assert(pushed[stack[i].0 as int]);
        } else {
            assert(stack2[i].0 == next);
        }
    }
    assert forall|c: int, d: int|
        0 <= c < n && 0 <= d < n && #[trigger] popped[c] && #[trigger] popped[d] && light(
            root,
            par,
            chains,
            c,
        ) && light(root, par, chains, d) && par[c] == par[d] && order2[c] < order2[d] implies pos[d]
        < pos[c] by {
        assert(pushed[c] && pushed[d]);
    }
}

/// The node the chain of the popped node `now` goes on with is pushed last.
proof fn lemma_lined_chain<T>(
    graph: &Graph<T>,
    root: int,
    par: Seq<int>,
    chains: Seq<usize>,
    pos: Seq<usize>,
    pushed: Seq<bool>,
    popped: Seq<bool>,
    stack: Seq<(usize, usize)>,
    counter: int,
    order: Seq<int>,
    now: int,
    head: usize,
)
    requires
        lined(graph, root, par, chains, pos, pushed, popped, stack, counter, order),
        counter > 0,
        pushed.len() == pos.len(),
        0 <= now < pos.len(),
        chains[now] != now,
        chains[now] < pos.len(),
        par[chains[now] as int] == now,
    ensures
        lined(
            graph,
            root,
            par,
            chains,
            pos,
            pushed.update(chains[now] as int, true),
            popped,
            stack.push((chains[now], head)),
            counter,
            order,
        ),
{
    reveal(lined);
    let n = pos.len() as int;
    let chain = chains[now] as int;
    let pushed2 = pushed.update(chain, true);
    let stack2 = stack.push((chains[now], head));
    assert(!light(root, par, chains, chain));
    assert forall|v: int|
        0 <= v < n && #[trigger] pushed2[v] && light(root, par, chains, v) implies 0 <= order[v]
        < graph.adjacent(par[v]).len() && target(graph, par[v], order[v]) == v by {
        assert(pushed[v]);
    }
    assert forall|i: int, j: int|
        0 <= i < j < stack2.len() && light(root, par, chains, (#[trigger] stack2[i]).0 as int)
            && light(root, par, chains, (#[trigger] stack2[j]).0 as int) && par[stack2[i].0 as int]
            == par[stack2[j].0 as int] implies order[stack2[i].0 as int]
        < order[stack2[j].0 as int] by {
        assert(stack2[i] == stack[i]);
        if j < stack.len() {
            assert(stack2[j] == stack[j]);
        } else {
            assert(stack2[j].0 == chain);
        }
    }
    assert forall|i: int, d: int|
        0 <= i < stack2.len() && 0 <= d < n && #[trigger] popped[d] && light(root, par, chains, d)
            && light(root, par, chains, (#[trigger] stack2[i]).0 as int) && par[d]
            == par[stack2[i].0 as int] implies order[stack2[i].0 as int] < order[d] by {
        if i < stack.len() {
            assert(stack2[i] == stack[i]);
        } else {
            assert(stack2[i].0 == chain);
        }
    }
}

/// With the stack empty, the root has position `0` and the children that
/// start chains are arranged by their places in the lists of their parents.
proof fn lemma_lined_end<T>(
    graph: &Graph<T>,
    root: int,
    par: Seq<int>,
    level: Seq<nat>,
    parents: Seq<usize>,
    depths: Seq<usize>,
    chains: Seq<usize>,
    pos: Seq<usize>,
    pushed: Seq<bool>,
    popped: Seq<bool>,
    counter: int,
    order: Seq<int>,
)
    requires
        explored(graph, root, par, level, parents, depths, chains),
        lined(graph, root, par, chains, pos, pushed, popped, Seq::empty(), counter, order),
        ready(depths, pushed, popped, Seq::empty()),
        ordered(root, par, depths, pushed, popped, -1),
        pos.len() == graph.size(),
        pushed.len() == graph.size(),
        popped.len() == graph.size(),
    ensures
        pos[root] == 0,
        arranged(graph, par, depths, chains, pos),
{
    reveal(lined);
    reveal(arranged);
    let n = graph.size() as int;
    assert forall|v: int, i: int, j: int|
        0 <= v < depths.len() && depths[v] != 0 && 0 <= i < j < graph.adjacent(v).len()
            && #[trigger] target(graph, v, i) != par[v] && #[trigger] target(graph, v, j) != par[v]
            && target(graph, v, i) != chains[v] && target(graph, v, j)
            != chains[v] implies pos[target(graph, v, j)] < pos[target(graph, v, i)] by {
        let c = target(graph, v, i);
        let d = target(graph, v, j);
        assert(listed(graph, par, depths, v, graph.adjacent(v).len() as int));
        assert(0 <= c < n && par[c] == v && c != root);
        assert(0 <= d < n && par[d] == v && d != root);
        assert(depths[c] != 0 && depths[d] != 0);
        lemma_all_popped(graph, root, par, level, depths, pushed, popped, c);
        lemma_all_popped(graph, root, par, level, depths, pushed, popped, d);
        lemma_ready_node(depths, pushed, popped, Seq::empty(), c);
        lemma_ready_node(depths, pushed, popped, Seq::empty(), d);
        assert(pushed[c] && pushed[d]) by {
            reveal(ready);
        }
        assert(light(root, par, chains, c) && light(root, par, chains, d));
        assert(v != c && v != d);
        assert(c != par[v] && d != par[v]);
        assert(order[c] == i) by {
            let o = order[c];
            assert(target(graph, v, o) == c);
            if o < i {
                assert(target(graph, v, o) == target(graph, v, i));
            } else if i < o {
                assert(target(graph, v, i) == target(graph, v, o));
            }
        }
        assert(order[d] == j) by {
            let o = order[d];
            assert(target(graph, v, o) == d);
            if o < j {
                assert(target(graph, v, o) == target(graph, v, j));
            } else if j < o {
                assert(target(graph, v, j) == target(graph, v, o));
            }
        }
    }
}

/// What the first traversal leaves behind has grown a tree.
proof fn lemma_explored_grown<T>(
    graph: &Graph<T>,
    root: int,
    par: Seq<int>,
    level: Seq<nat>,
    parents: Seq<usize>,
    depths: Seq<usize>,
    chains: Seq<usize>,
)
    requires
        explored(graph, root, par, level, parents, depths, chains),
    ensures
        grown(root, par, level, parents, depths),
        depths.len() == graph.size(),
{
    reveal(grown);
    reveal(reached);
    assert forall|v: int|
        0 <= v < depths.len() && #[trigger] depths[v] != 0 implies parents[v] == par[v]
        && depths[v] == level[v] + 1 && depths[par[v]] != 0 by {
        if v != root {
            assert(depths[par[v]] != 0);
        }
    }
}

/// Steps up add up.
proof fn lemma_above_add(parents: Seq<usize>, v: int, j: nat, k: nat)
    ensures
        above(parents, v, j + k) == above(parents, above(parents, v, j), k),
    decreases j,
{
    if j > 0 {
        lemma_above_add(parents, parents[v] as int, (j - 1) as nat, k);
        assert(above(parents, v, j + k) == above(parents, parents[v] as int, (j + k - 1) as nat));
    }
}

/// What lies in the subtree of a node lies in the subtrees of the nodes
/// above it.
proof fn lemma_inside_trans(parents: Seq<usize>, depths: Seq<usize>, a: int, b: int, c: int)
    requires
        inside(parents, depths, a, b),
        inside(parents, depths, b, c),
    ensures
        inside(parents, depths, a, c),
{
    lemma_above_add(
        parents,
        c,
        (depths[c] - depths[b]) as nat,
        (depths[b] - depths[a]) as nat,
    );
}

/// A node other than `c` in the subtree of `c` has its parent there.
proof fn lemma_inside_up(
    root: int,
    par: Seq<int>,
    level: Seq<nat>,
    parents: Seq<usize>,
    depths: Seq<usize>,
    c: int,
    x: int,
)
    requires
        grown(root, par, level, parents, depths),
        0 <= x < depths.len(),
        inside(parents, depths, c, x),
        c != x,
    ensures
        x != root,
        inside(parents, depths, c, par[x]),
{
    lemma_grown_node(root, par, level, parents, depths, x);
    reveal_with_fuel(above, 2);
}

/// The children of a node in the subtree of `c` lie in that subtree.
proof fn lemma_inside_down(
    root: int,
    par: Seq<int>,
    level: Seq<nat>,
    parents: Seq<usize>,
    depths: Seq<usize>,
    c: int,
    x: int,
)
    requires
        grown(root, par, level, parents, depths),
        0 <= x < depths.len(),
        depths[x] != 0,
        x != root,
        inside(parents, depths, c, par[x]),
    ensures
        inside(parents, depths, c, x),
{
    lemma_grown_node(root, par, level, parents, depths, x);
    reveal_with_fuel(above, 2);
    assert(above(parents, x, (depths[x] - depths[c]) as nat) == above(
        parents,
        parents[x] as int,
        (depths[x] - depths[c] - 1) as nat,
    ));
}

/// The number of nodes among the first `k` that have been popped and lie in
/// the subtree of `c`.
spec fn taken(parents: Seq<usize>, depths: Seq<usize>, popped: Seq<bool>, c: int, k: int) -> int
    decreases k,
{
    if k <= 0 {
        0
    } else {
        taken(parents, depths, popped, c, k - 1) + if popped[k - 1] && inside(
            parents,
            depths,
            c,
            k - 1,
        ) {
            1int
        } else {
            0int
        }
    }
}

proof fn lemma_taken_pop(
    parents: Seq<usize>,
    depths: Seq<usize>,
    popped: Seq<bool>,
    c: int,
    k: int,
    x: int,
)
    requires
        0 <= x < popped.len(),
        0 <= k <= popped.len(),
        !popped[x],
    ensures
        taken(parents, depths, popped.update(x, true), c, k) == taken(parents, depths, popped, c, k)
            + if x < k && inside(parents, depths, c, x) {
            1int
        } else {
            0int
        },
    decreases k,
{
    if k > 0 {
        lemma_taken_pop(parents, depths, popped, c, k - 1, x);
    }
}

/// While a node of the subtree of `c` has not been popped, fewer nodes of
/// it have been popped than it holds.
proof fn lemma_taken_room(
    parents: Seq<usize>,
    depths: Seq<usize>,
    popped: Seq<bool>,
    c: int,
    k: int,
    x: int,
)
    requires
        0 <= k <= popped.len(),
        0 <= x < popped.len(),
        inside(parents, depths, c, x),
        !popped[x],
    ensures
        0 <= taken(parents, depths, popped, c, k),
        taken(parents, depths, popped, c, k) + (if x < k {
            1int
        } else {
            0int
        }) <= weight(parents, depths, c, k),
    decreases k,
{
    if k > 0 {
        lemma_taken_room(parents, depths, popped, c, k - 1, x);
    }
}

proof fn lemma_taken_none(
    parents: Seq<usize>,
    depths: Seq<usize>,
    popped: Seq<bool>,
    c: int,
    k: int,
)
    requires
        0 <= k <= popped.len(),
        forall|y: int| 0 <= y < k && popped[y] ==> !#[trigger] inside(parents, depths, c, y),
    ensures
        taken(parents, depths, popped, c, k) == 0,
    decreases k,
{
    if k > 0 {
        lemma_taken_none(parents, depths, popped, c, k - 1);
        assert(popped[k - 1] ==> !inside(parents, depths, c, k - 1));
    }
}

/// The positions of a subtree lie together: the nodes popped since a node
/// was popped all lie in its subtree while the traversal is inside it.
///
/// `open` is the node whose children are being pushed, or `-1` between two
/// nodes, when the traversal goes on with the node on top of the stack.
#[verifier::opaque]
spec fn spanning(
    root: int,
    par: Seq<int>,
    parents: Seq<usize>,
    depths: Seq<usize>,
    pos: Seq<usize>,
    popped: Seq<bool>,
    stack: Seq<(usize, usize)>,
    counter: int,
    open: int,
) -> bool {
    let n = depths.len() as int;
    &&& forall|c: int, y: int|
        0 <= c < n && 0 <= y < n && popped[y] && #[trigger] inside(parents, depths, c, y)
            ==> popped[c]
    &&& forall|i: int, j: int|
        0 <= i < j < stack.len() && (#[trigger] stack[i]).0 != root ==> inside(
            parents,
            depths,
            par[stack[i].0 as int],
            (#[trigger] stack[j]).0 as int,
        )
    &&& open >= 0 ==> forall|i: int|
        0 <= i < stack.len() && (#[trigger] stack[i]).0 != root ==> inside(
            parents,
            depths,
            par[stack[i].0 as int],
            open,
        )
    &&& open >= 0 ==> forall|c: int|
        0 <= c < n && popped[c] && #[trigger] inside(parents, depths, c, open) ==> taken(
            parents,
            depths,
            popped,
            c,
            n,
        ) == counter - pos[c]
    &&& open < 0 && stack.len() > 0 ==> forall|c: int|
        0 <= c < n && popped[c] && #[trigger] inside(parents, depths, c, stack.last().0 as int)
            ==> taken(parents, depths, popped, c, n) == counter - pos[c]
    &&& forall|c: int, x: int|
        0 <= c < n && 0 <= x < n && popped[c] && popped[x] && #[trigger] inside(
            parents,
            depths,
            c,
            x,
        ) ==> pos[c] <= pos[x] < pos[c] + weight(parents, depths, c, n)
}

/// The positions of the subtree of a node are those from its own on, as
/// many as the subtree has nodes.
#[verifier::opaque]
spec fn packed(parents: Seq<usize>, depths: Seq<usize>, pos: Seq<usize>) -> bool {
    let n = depths.len() as int;
    forall|c: int, x: int|
        0 <= c < n && 0 <= x < n && #[trigger] inside(parents, depths, c, x) ==> pos[c] <= pos[x]
            < pos[c] + weight(parents, depths, c, n)
}

proof fn lemma_span_start(
    root: int,
    par: Seq<int>,
    parents: Seq<usize>,
    depths: Seq<usize>,
    pos: Seq<usize>,
    popped: Seq<bool>,
    stack: Seq<(usize, usize)>,
)
    requires
        popped.len() == depths.len(),
        stack.len() == 1,
        forall|v: int| 0 <= v < popped.len() ==> !popped[v],
    ensures
        spanning(root, par, parents, depths, pos, popped, stack, 0, -1),
{
    reveal(spanning);
}

/// The node on top of the stack is popped and gets the next position: it is
/// the first of its subtree, and follows what has been popped of every
/// subtree it lies in.
proof fn lemma_span_pop(
    root: int,
    par: Seq<int>,
    level: Seq<nat>,
    parents: Seq<usize>,
    depths: Seq<usize>,
    pos: Seq<usize>,
    popped: Seq<bool>,
    stack: Seq<(usize, usize)>,
    counter: int,
)
    requires
        spanning(root, par, parents, depths, pos, popped, stack, counter, -1),
        grown(root, par, level, parents, depths),
        stack.len() > 0,
        0 <= counter <= usize::MAX,
        popped.len() == depths.len(),
        pos.len() == depths.len(),
        stack.last().0 < depths.len(),
        depths[stack.last().0 as int] != 0,
        !popped[stack.last().0 as int],
        stack.last().0 != root ==> popped[par[stack.last().0 as int]],
        forall|v: int| 0 <= v < pos.len() && #[trigger] popped[v] ==> pos[v] < counter,
    ensures
        spanning(
            root,
            par,
            parents,
            depths,
            pos.update(stack.last().0 as int, counter as usize),
            popped.update(stack.last().0 as int, true),
            stack.drop_last(),
            counter + 1,
            stack.last().0 as int,
        ),
{
    reveal(spanning);
    let n = depths.len() as int;
    let top = stack.len() - 1;
    let x = stack[top].0 as int;
    assert(stack.last() == stack[top]);
    let pos2 = pos.update(x, counter as usize);
    let popped2 = popped.update(x, true);
    let stack2 = stack.drop_last();
    lemma_grown_node(root, par, level, parents, depths, x);
    assert(inside(parents, depths, x, x));
    assert forall|c: int| 0 <= c < n && c != x && #[trigger] inside(parents, depths, c, x) implies popped[c] by {
        lemma_inside_up(root, par, level, parents, depths, c, x);
        assert(inside(parents, depths, c, par[x]));
    }
    assert forall|c: int, y: int|
        0 <= c < n && 0 <= y < n && popped2[y] && #[trigger] inside(
            parents,
            depths,
            c,
            y,
        ) implies popped2[c] by {
        if y != x {
            assert(popped[y]);
        }
    }
    assert forall|i: int, j: int|
        0 <= i < j < stack2.len() && (#[trigger] stack2[i]).0 != root implies inside(
        parents,
        depths,
        par[stack2[i].0 as int],
        (#[trigger] stack2[j]).0 as int,
    ) by {
        assert(stack2[i] == stack[i] && stack2[j] == stack[j]);
    }
    assert forall|i: int| 0 <= i < stack2.len() && (#[trigger] stack2[i]).0 != root implies inside(
        parents,
        depths,
        par[stack2[i].0 as int],
        x,
    ) by {
        assert(stack2[i] == stack[i]);
        assert(inside(parents, depths, par[stack[i].0 as int], stack[top].0 as int));
    }
    assert(taken(parents, depths, popped, x, n) == 0) by {
        assert forall|y: int| 0 <= y < n && popped[y] implies !#[trigger] inside(
            parents,
            depths,
            x,
            y,
        ) by {
            if inside(parents, depths, x, y) {
                assert(popped[x]);
            }
        }
        lemma_taken_none(parents, depths, popped, x, n);
    }
    assert forall|c: int| 0 <= c < n && popped2[c] && #[trigger] inside(parents, depths, c, x) implies taken(
        parents,
        depths,
        popped2,
        c,
        n,
    ) == counter + 1 - pos2[c] by {
        lemma_taken_pop(parents, depths, popped, c, n, x);
        if c != x {
            assert(popped[c]);
            assert(inside(parents, depths, c, stack.last().0 as int));
        }
    }
    assert forall|c: int, y: int|
        0 <= c < n && 0 <= y < n && popped2[c] && popped2[y] && #[trigger] inside(
            parents,
            depths,
            c,
            y,
        ) implies pos2[c] <= pos2[y] < pos2[c] + weight(parents, depths, c, n) by {
        if y == x {
            lemma_taken_room(parents, depths, popped, c, n, x);
            if c != x {
                assert(popped[c]);
                assert(inside(parents, depths, c, stack.last().0 as int));
            }
        } else {
            assert(popped[y]);
            assert(popped[c]);
        }
    }
}

/// A child of the popped node `now` goes on the stack.
proof fn lemma_span_push(
    root: int,
    par: Seq<int>,
    level: Seq<nat>,
    parents: Seq<usize>,
    depths: Seq<usize>,
    pos: Seq<usize>,
    popped: Seq<bool>,
    stack: Seq<(usize, usize)>,
    counter: int,
    now: int,
    entry: (usize, usize),
)
    requires
        spanning(root, par, parents, depths, pos, popped, stack, counter, now),
        grown(root, par, level, parents, depths),
        0 <= now < depths.len(),
        depths[now] != 0,
        entry.0 < depths.len(),
        depths[entry.0 as int] != 0,
        entry.0 != root,
        par[entry.0 as int] == now,
    ensures
        spanning(root, par, parents, depths, pos, popped, stack.push(entry), counter, now),
{
    reveal(spanning);
    let stack2 = stack.push(entry);
    let t = entry.0 as int;
    assert(inside(parents, depths, now, now));
    assert forall|i: int, j: int|
        0 <= i < j < stack2.len() && (#[trigger] stack2[i]).0 != root implies inside(
        parents,
        depths,
        par[stack2[i].0 as int],
        (#[trigger] stack2[j]).0 as int,
    ) by {
        assert(stack2[i] == stack[i]);
        if j < stack.len() {
            assert(stack2[j] == stack[j]);
        } else {
            assert(stack2[j] == entry);
            assert(inside(parents, depths, par[stack[i].0 as int], now));
            lemma_inside_down(root, par, level, parents, depths, par[stack[i].0 as int], t);
        }
    }
    assert forall|i: int| 0 <= i < stack2.len() && (#[trigger] stack2[i]).0 != root implies inside(
        parents,
        depths,
        par[stack2[i].0 as int],
        now,
    ) by {
        if i < stack.len() {
            assert(stack2[i] == stack[i]);
        } else {
            assert(stack2[i] == entry);
        }
    }
}

/// All children of the popped node `now` are on the stack: the traversal
/// goes on with the node on top of it.
proof fn lemma_span_close(
    root: int,
    par: Seq<int>,
    level: Seq<nat>,
    parents: Seq<usize>,
    depths: Seq<usize>,
    pos: Seq<usize>,
    popped: Seq<bool>,
    stack: Seq<(usize, usize)>,
    counter: int,
    now: int,
)
    requires
        spanning(root, par, parents, depths, pos, popped, stack, counter, now),
        grown(root, par, level, parents, depths),
        now >= 0,
        forall|i: int|
            0 <= i < stack.len() ==> (#[trigger] stack[i]).0 < depths.len()
                && !popped[stack[i].0 as int],
    ensures
        spanning(root, par, parents, depths, pos, popped, stack, counter, -1),
{
    reveal(spanning);
    let n = depths.len() as int;
    if stack.len() > 0 {
        let top = stack.len() - 1;
        let t = stack[top].0 as int;
        assert(stack.last() == stack[top]);
        assert forall|c: int| 0 <= c < n && popped[c] && #[trigger] inside(parents, depths, c, t) implies taken(
            parents,
            depths,
            popped,
            c,
            n,
        ) == counter - pos[c] by {
            lemma_inside_up(root, par, level, parents, depths, c, t);
            assert(inside(parents, depths, par[stack[top].0 as int], now));
            lemma_inside_trans(parents, depths, c, par[t], now);
        }
    }
}

/// With the stack empty, the positions of every subtree lie together.
proof fn lemma_span_end(
    root: int,
    par: Seq<int>,
    parents: Seq<usize>,
    depths: Seq<usize>,
    pos: Seq<usize>,
    popped: Seq<bool>,
    counter: int,
)
    requires
        spanning(root, par, parents, depths, pos, popped, Seq::empty(), counter, -1),
        forall|v: int| 0 <= v < depths.len() && depths[v] != 0 ==> #[trigger] popped[v],
    ensures
        packed(parents, depths, pos),
{
    reveal(spanning);
    reveal(packed);
    let n = depths.len() as int;
    assert forall|c: int, x: int|
        0 <= c < n && 0 <= x < n && #[trigger] inside(parents, depths, c, x) implies pos[c]
        <= pos[x] < pos[c] + weight(parents, depths, c, n) by {
        assert(popped[x]);
        assert(popped[c]);
    }
}

/// With the stack empty, the decomposition is complete.
proof fn lemma_heads_end<T>(
    graph: &Graph<T>,
    root: int,
    par: Seq<int>,
    level: Seq<nat>,
    parents: Seq<usize>,
    depths: Seq<usize>,
    chains: Seq<usize>,
    heads: Seq<usize>,
    pos: Seq<usize>,
    pushed: Seq<bool>,
    popped: Seq<bool>,
    counter: int,
    pending: int,
)
    requires
        numbering(
            graph,
            root,
            par,
            level,
            parents,
            depths,
            chains,
            heads,
            pos,
            pushed,
            popped,
            Seq::empty(),
            counter,
            -1,
            pending,
        ),
        hanging(chains, pos, popped, Seq::empty(), counter, pending),
    ensures
        decomposed(graph, root, par, level, parents, depths, chains, heads, pos),
{
    let n = graph.size() as int;
    lemma_numbering_parts(
        graph,
        root,
        par,
        level,
        parents,
        depths,
        chains,
        heads,
        pos,
        pushed,
        popped,
        Seq::empty(),
        counter,
        -1,
        pending,
    );
    assert(pending < 0);
    assert forall|v: int| 0 <= v < n && depths[v] != 0 implies #[trigger] popped[v] by {
        lemma_all_popped(graph, root, par, level, depths, pushed, popped, v);
    }
    assert forall|v: int| 0 <= v < n && #[trigger] depths[v] != 0 implies heads[v] == head_rule(
        root,
        par,
        chains,
        heads,
        v,
    ) by {
        reveal(headed);
        assert(popped[v]);
    }
    assert forall|v: int|
        0 <= v < n && #[trigger] depths[v] != 0 && chains[v] != v implies pos[chains[v] as int]
        == pos[v] + 1 by {
        reveal(placed);
        assert(popped[v]);
    }
    assert forall|u: int, v: int|
        0 <= u < n && 0 <= v < n && u != v && #[trigger] depths[u] != 0 && #[trigger] depths[v]
            != 0 implies pos[u] != pos[v] by {
        reveal(placed);
        assert(popped[u] && popped[v]);
    }
}

/// The pair of positions that a path between `u` and `v` gives up first:
/// the stretch from `u` to `v` where both lie on one chain, and else the
/// stretch from the head of the chain that starts lower down to the end of
/// the path on it.
pub open spec fn hop_range(hld: &HeavyLight, u: usize, v: usize) -> (usize, usize) {
    let heads = hld.head_of();
    let depths = hld.depth_of();
    let pos = hld.position_of();
    if heads[u as int] == heads[v as int] {
        if depths[u as int] > depths[v as int] {
            (pos[v as int], pos[u as int])
        } else {
            (pos[u as int], pos[v as int])
        }
    } else if depths[heads[u as int] as int] > depths[heads[v as int] as int] {
        (pos[heads[u as int] as int], pos[u as int])
    } else {
        (pos[heads[v as int] as int], pos[v as int])
    }
}

/// The ends of the path that are left after the first stretch: none where
/// both ends lie on one chain, and else the end that stays and the parent of
/// the head that was given up.
pub open spec fn hop_rest(hld: &HeavyLight, u: usize, v: usize) -> Option<(usize, usize)> {
    let heads = hld.head_of();
    let depths = hld.depth_of();
    let parents = hld.parent_of();
    if heads[u as int] == heads[v as int] {
        None
    } else if depths[heads[u as int] as int] > depths[heads[v as int] as int] {
        Some((v, parents[heads[u as int] as int]))
    } else {
        Some((u, parents[heads[v as int] as int]))
    }
}

/// The decomposition in terms of the tree leads to the same in terms of the
/// arrays alone.
proof fn lemma_decomposes<T>(
    hld: &HeavyLight,
    graph: &Graph<T>,
    root: int,
    par: Seq<int>,
    level: Seq<nat>,
)
    requires
        decomposed(
            graph,
            root,
            par,
            level,
            hld.parents@,
            hld.depths@,
            hld.chains@,
            hld.heads@,
            hld.pos@,
        ),
        forall|v: int|
            0 <= v < graph.size() && #[trigger] hld.depths@[v] == 0 ==> hld.parents@[v] == 0
                && hld.heads@[v] == 0 && hld.pos@[v] == 0,
        hld.pos@[root] == 0,
        arranged(graph, par, hld.depths@, hld.chains@, hld.pos@),
        packed(hld.parents@, hld.depths@, hld.pos@),
    ensures
        hld.wf(),
        hld.decomposes(graph, root),
{
    let n = graph.size() as int;
    let parents = hld.parents@;
    let depths = hld.depths@;
    let chains = hld.chains@;
    let heads = hld.heads@;
    let pos = hld.pos@;
    reveal(chained);
    reveal(reached);
    reveal(heavy);
    reveal(packed);
    assert forall|v: int| 0 <= v < n implies #[trigger] parents[v] < n by {
        if depths[v] != 0 {
            assert(0 <= par[v] < n);
        }
    }
    assert forall|v: int|
        0 <= v < n && v != root && #[trigger] depths[v] != 0 implies depths[parents[v] as int] != 0
        && depths[v] == depths[parents[v] as int] + 1 && exists|j: int|
        0 <= j < graph.adjacent(parents[v] as int).len() && #[trigger] target(
            graph,
            parents[v] as int,
            j,
        ) == v by {
        assert(level[v] == level[par[v]] + 1);
        assert(0 <= par[v] < n);
        let j = choose|j: int|
            0 <= j < graph.adjacent(par[v]).len() && #[trigger] target(graph, par[v], j) == v;
        assert(target(graph, parents[v] as int, j) == v);
    }
    assert forall|v: int, i: int|
        0 <= v < n && depths[v] != 0 && 0 <= i < graph.adjacent(v).len() && #[trigger] target(
            graph,
            v,
            i,
        ) != parents[v] implies 0 <= target(graph, v, i) < n && depths[target(graph, v, i)] != 0
        && parents[target(graph, v, i)] == v by {
        assert(listed(graph, par, depths, v, graph.adjacent(v).len() as int));
        assert(depths[target(graph, v, i)] != 0);
    }
    assert forall|v: int|
        0 <= v < n implies #[trigger] chains[v] < n && (chains[v] == v || (parents[chains[v] as int]
        == v && chains[v] != root && depths[chains[v] as int] == depths[v] + 1)) by {
        if chains[v] != v {
            let c = chains[v] as int;
            assert(depths[c] != 0);
            assert(level[c] == level[par[c]] + 1);
            assert(depths[par[c]] != 0);
        }
    }
    assert forall|v: int, i: int, j: int|
        0 <= v < n && depths[v] != 0 && chains[v] != v && 0 <= i < j < graph.adjacent(v).len()
            && #[trigger] target(graph, v, i) == chains[v] && #[trigger] target(graph, v, j)
            != parents[v] implies weight(parents, depths, target(graph, v, j), n) < weight(
        parents,
        depths,
        chains[v] as int,
        n,
    ) by {
        reveal(preferred);
        assert(parents[v] == par[v]);
    }
    assert forall|v: int, i: int, j: int|
        0 <= v < n && depths[v] != 0 && 0 <= i < j < graph.adjacent(v).len() && #[trigger] target(
            graph,
            v,
            i,
        ) != parents[v] && #[trigger] target(graph, v, j) != parents[v] && target(graph, v, i)
            != chains[v] && target(graph, v, j) != chains[v] implies pos[target(graph, v, j)]
        < pos[target(graph, v, i)] by {
        reveal(arranged);
        assert(parents[v] == par[v]);
    }
    assert forall|v: int| 0 <= v < n && #[trigger] depths[v] != 0 implies heads[v] as int == (if v
        != root && chains[parents[v] as int] == v {
        heads[parents[v] as int] as int
    } else {
        v
    }) by {
        assert(heads[v] == head_rule(root, par, chains, heads, v));
        assert(0 <= par[v] < n);
    }
}

impl HeavyLight {
    /// The number of nodes.
    pub open spec fn size(&self) -> nat {
        self.parent_of().len()
    }

    /// There is one entry for each node in every array, and every entry is
    /// a node or a position.
    pub open spec fn wf(&self) -> bool {
        let n = self.size();
        &&& self.depth_of().len() == n
        &&& self.chain_of().len() == n
        &&& self.head_of().len() == n
        &&& self.position_of().len() == n
        &&& forall|v: int| 0 <= v < n ==> #[trigger] self.parent_of()[v] < n
        &&& forall|v: int| 0 <= v < n ==> #[trigger] self.chain_of()[v] < n
        &&& forall|v: int| 0 <= v < n ==> #[trigger] self.head_of()[v] < n
        &&& forall|v: int| 0 <= v < n ==> #[trigger] self.position_of()[v] < n
    }

    /// The arrays describe the tree that `graph` holds below `root`, cut
    /// into chains: a node has a depth where it can be reached from the
    /// root.
    ///
    /// - Parents and depths are those of the tree.
    /// - The chain of a node goes on with one of its children, or ends.
    /// - No child weighs more than the one the chain goes on with, and of
    ///   several that weigh the most it is the one the node lists last:
    ///   every child listed behind it is lighter.
    /// - The head of a node is the head of its parent where the chain of
    ///   the parent goes on with it, and the node itself otherwise.
    /// - No two nodes share a position, and the node a chain goes on with
    ///   has the position after that of its parent.
    /// - The root has position `0`, and the positions of the subtree of a
    ///   node are those from its own on, as many as the subtree has nodes.
    /// - Of two children of a node that both start a chain, the one listed
    ///   behind the other has the smaller position.
    pub open spec fn decomposes<T>(&self, graph: &Graph<T>, root: int) -> bool {
        let n = graph.size() as int;
        let parents = self.parent_of();
        let depths = self.depth_of();
        let chains = self.chain_of();
        let heads = self.head_of();
        let pos = self.position_of();
        &&& self.size() == n
        &&& 0 <= root < n
        &&& parents[root] == root
        &&& depths[root] == 1
        &&& forall|v: int|
            0 <= v < n && v != root && #[trigger] depths[v] != 0 ==> depths[parents[v] as int] != 0
                && depths[v] == depths[parents[v] as int] + 1 && exists|j: int|
                0 <= j < graph.adjacent(parents[v] as int).len() && #[trigger] target(
                    graph,
                    parents[v] as int,
                    j,
                ) == v
        &&& forall|v: int, i: int|
            0 <= v < n && depths[v] != 0 && 0 <= i < graph.adjacent(v).len() && #[trigger] target(
                graph,
                v,
                i,
            ) != parents[v] ==> 0 <= target(graph, v, i) < n && depths[target(graph, v, i)] != 0
                && parents[target(graph, v, i)] == v
        &&& forall|v: int|
            0 <= v < n ==> #[trigger] chains[v] < n && (chains[v] == v || (parents[chains[v] as int]
                == v && chains[v] != root && depths[chains[v] as int] == depths[v] + 1))
        &&& forall|c: int|
            0 <= c < n && c != root && #[trigger] depths[c] != 0 ==> chains[parents[c] as int]
                != parents[c] && weight(parents, depths, c, n) <= weight(
                parents,
                depths,
                chains[parents[c] as int] as int,
                n,
            )
        &&& forall|v: int, i: int, j: int|
            0 <= v < n && depths[v] != 0 && chains[v] != v && 0 <= i < j < graph.adjacent(v).len()
                && #[trigger] target(graph, v, i) == chains[v] && #[trigger] target(graph, v, j)
                != parents[v] ==> weight(parents, depths, target(graph, v, j), n) < weight(
                parents,
                depths,
                chains[v] as int,
                n,
            )
        &&& forall|v: int|
            0 <= v < n && #[trigger] depths[v] == 0 ==> parents[v] == 0 && chains[v] == v
                && heads[v] == 0 && pos[v] == 0
        &&& forall|v: int|
            0 <= v < n && #[trigger] depths[v] != 0 ==> heads[v] as int == (if v != root
                && chains[parents[v] as int] == v {
                heads[parents[v] as int] as int
            } else {
                v
            })
        &&& forall|v: int|
            0 <= v < n && #[trigger] depths[v] != 0 && chains[v] != v ==> pos[chains[v] as int]
                == pos[v] + 1
        &&& forall|u: int, v: int|
            0 <= u < n && 0 <= v < n && u != v && #[trigger] depths[u] != 0 && #[trigger] depths[v]
                != 0 ==> pos[u] != pos[v]
        &&& pos[root] == 0
        &&& forall|c: int, x: int|
            0 <= c < n && 0 <= x < n && #[trigger] inside(parents, depths, c, x) ==> pos[c]
                <= pos[x] < pos[c] + weight(parents, depths, c, n)
        &&& forall|v: int, i: int, j: int|
            0 <= v < n && depths[v] != 0 && 0 <= i < j < graph.adjacent(v).len()
                && #[trigger] target(graph, v, i) != parents[v] && #[trigger] target(graph, v, j)
                != parents[v] && target(graph, v, i) != chains[v] && target(graph, v, j)
                != chains[v] ==> pos[target(graph, v, j)] < pos[target(graph, v, i)]
    }

    /// The parents as they are stored.
    pub fn parents(&self) -> (res: &Vec<usize>)
        ensures
            res@ == self.parent_of(),
    {
        &self.parents
    }

    /// The depths as they are stored.
    pub fn depths(&self) -> (res: &Vec<usize>)
        ensures
            res@ == self.depth_of(),
    {
        &self.depths
    }

    /// The chains as they are stored.
    pub fn chains(&self) -> (res: &Vec<usize>)
        ensures
            res@ == self.chain_of(),
    {
        &self.chains
    }

    /// The heads as they are stored.
    pub fn heads(&self) -> (res: &Vec<usize>)
        ensures
            res@ == self.head_of(),
    {
        &self.heads
    }

    /// The positions as they are stored.
    pub fn pos(&self) -> (res: &Vec<usize>)
        ensures
            res@ == self.position_of(),
    {
        &self.pos
    }

    /// The second traversal: heads and positions.
    fn fill_heads<T>(
        &mut self,
        root: usize,
        graph: &Graph<T>,
        Ghost(par): Ghost<Seq<int>>,
        Ghost(level): Ghost<Seq<nat>>,
    )
        requires
            explored(
                graph,
                root as int,
                par,
                level,
                old(self).parents@,
                old(self).depths@,
                old(self).chains@,
            ),
            old(self).heads@.len() == graph.size(),
            old(self).pos@.len() == graph.size(),
            forall|v: int| 0 <= v < graph.size() ==> #[trigger] old(self).heads@[v] < graph.size(),
            forall|v: int| 0 <= v < graph.size() ==> #[trigger] old(self).pos@[v] < graph.size(),
        ensures
            final(self).parents@ == old(self).parents@,
            final(self).depths@ == old(self).depths@,
            final(self).chains@ == old(self).chains@,
            forall|v: int|
                0 <= v < graph.size() && #[trigger] old(self).depths@[v] == 0 ==> final(self).heads@[v] == old(self).heads@[v] && final(self).pos@[v] == old(self).pos@[v],
            decomposed(
                graph,
                root as int,
                par,
                level,
                final(self).parents@,
                final(self).depths@,
                final(self).chains@,
                final(self).heads@,
                final(self).pos@,
            ),
            final(self).pos@[root as int] == 0,
            arranged(graph, par, final(self).depths@, final(self).chains@, final(self).pos@),
            packed(final(self).parents@, final(self).depths@, final(self).pos@),
    {
        let n = graph.node_count();
        let mut pos: usize = 0;
        let mut stack: Vec<(usize, usize)> = Vec::with_capacity(n);
        stack.push((root, root));
        let ghost mut pushed: Seq<bool> = Seq::new(graph.size(), |v: int| v == root as int);
        let ghost mut popped: Seq<bool> = Seq::new(graph.size(), |v: int| false);
        let ghost mut pending: int = -1;
        let ghost mut order: Seq<int> = Seq::new(graph.size(), |v: int| 0int);
        proof {
            assert(stack@ =~= seq![(root, root)]);
            lemma_lined_start(
                graph,
                root as int,
                par,
                self.chains@,
                self.pos@,
                pushed,
                popped,
                stack@,
                order,
            );
            lemma_span_start(
                root as int,
                par,
                self.parents@,
                self.depths@,
                self.pos@,
                popped,
                stack@,
            );
            lemma_heads_start(
                graph,
                root as int,
                par,
                level,
                self.parents@,
                self.depths@,
                self.chains@,
                self.heads@,
                self.pos@,
            );
        }
        while stack.len() > 0
            invariant
                n == graph.size(),
                graph.wf(),
                self.parents@ == old(self).parents@,
                self.depths@ == old(self).depths@,
                self.chains@ == old(self).chains@,
                pos <= n,
                self.heads@.len() == n,
                self.pos@.len() == n,
                popped.len() == n,
                forall|v: int|
                    0 <= v < n && !#[trigger] popped[v] ==> self.heads@[v] == old(self).heads@[v]
                        && self.pos@[v] == old(self).pos@[v],
                numbering(
                    graph,
                    root as int,
                    par,
                    level,
                    self.parents@,
                    self.depths@,
                    self.chains@,
                    self.heads@,
                    self.pos@,
                    pushed,
                    popped,
                    stack@,
                    pos as int,
                    -1,
                    pending,
                ),
                hanging(self.chains@, self.pos@, popped, stack@, pos as int, pending),
                lined(
                    graph,
                    root as int,
                    par,
                    self.chains@,
                    self.pos@,
                    pushed,
                    popped,
                    stack@,
                    pos as int,
                    order,
                ),
                spanning(
                    root as int,
                    par,
                    self.parents@,
                    self.depths@,
                    self.pos@,
                    popped,
                    stack@,
                    pos as int,
                    -1,
                ),
            decreases n - pos,
        {
            proof {
                lemma_heads_top(
                    graph,
                    root as int,
                    par,
                    level,
                    self.parents@,
                    self.depths@,
                    self.chains@,
                    self.heads@,
                    self.pos@,
                    pushed,
                    popped,
                    stack@,
                    pos as int,
                    -1,
                    pending,
                );
                lemma_heads_pop(
                    graph,
                    root as int,
                    par,
                    level,
                    self.parents@,
                    self.depths@,
                    self.chains@,
                    self.heads@,
                    self.pos@,
                    pushed,
                    popped,
                    stack@,
                    pos as int,
                    pending,
                );
                lemma_numbering_facts(
                    graph,
                    root as int,
                    par,
                    level,
                    self.parents@,
                    self.depths@,
                    self.chains@,
                    self.heads@,
                    self.pos@,
                    pushed,
                    popped,
                    stack@,
                    pos as int,
                    -1,
                    pending,
                );
                lemma_lined_pop(
                    graph,
                    root as int,
                    par,
                    self.chains@,
                    self.pos@,
                    pushed,
                    popped,
                    stack@,
                    pos as int,
                    order,
                );
                lemma_span_pop(
                    root as int,
                    par,
                    level,
                    self.parents@,
                    self.depths@,
                    self.pos@,
                    popped,
                    stack@,
                    pos as int,
                );
            }
            let (now, head) = stack.pop().unwrap();
            self.heads[now] = head;
            self.pos[now] = pos;
            pos += 1;
            proof {
                popped = popped.update(now as int, true);
            }
            let chain = self.chains[now];
            let parent = self.parents[now];
            let mut it = graph.neighbors(now);
            let ghost mut done: int = 0;
            let ghost edges = graph.adjacent(now as int);
            loop
                invariant
                    it.wf(),
                    it@ == edges.skip(done),
                    n == graph.size(),
                    graph.wf(),
                    now < n,
                    pos <= n,
                    edges == graph.adjacent(now as int),
                    0 <= done <= edges.len(),
                    self.parents@ == old(self).parents@,
                    self.depths@ == old(self).depths@,
                    self.chains@ == old(self).chains@,
                    self.heads@.len() == n,
                    self.pos@.len() == n,
                    self.heads@[now as int] == head,
                    self.pos@[now as int] + 1 == pos,
                    popped.len() == n,
                    popped[now as int],
                    forall|v: int|
                        0 <= v < n && !#[trigger] popped[v] ==> self.heads@[v] == old(self).heads@[v] && self.pos@[v] == old(self).pos@[v],
                    chain == self.chains@[now as int],
                    parent == par[now as int],
                    numbering(
                        graph,
                    root as int,
                    par,
                    level,
                    self.parents@,
                    self.depths@,
                    self.chains@,
                    self.heads@,
                    self.pos@,
                    pushed,
                    popped,
                    stack@,
                    pos as int,
                        now as int,
                        now as int,
                    ),
                    offering(graph, root as int, par, chain as int, pushed, now as int, done),
                    lined(
                        graph,
                        root as int,
                        par,
                        self.chains@,
                        self.pos@,
                        pushed,
                        popped,
                        stack@,
                        pos as int,
                        order,
                    ),
                    barren(root as int, par, popped, now as int),
                    spanning(
                        root as int,
                        par,
                        self.parents@,
                        self.depths@,
                        self.pos@,
                        popped,
                        stack@,
                        pos as int,
                        now as int,
                    ),
                ensures
                    done == edges.len(),
                decreases edges.len() - done,
            {
                let entry = it.next();
                match entry {
                    Some((next, _)) => {
                        proof {
                            assert(edges.skip(done)[0] == edges[done]);
                            assert(target(graph, now as int, done) == next);
                            assert(edges.skip(done).skip(1) =~= edges.skip(done + 1));
                        }
                        if next != parent && next != chain {
                            proof {
                                lemma_numbering_facts(
                                    graph,
                                    root as int,
                                    par,
                                    level,
                                    self.parents@,
                                    self.depths@,
                                    self.chains@,
                                    self.heads@,
                                    self.pos@,
                                    pushed,
                                    popped,
                                    stack@,
                                    pos as int,
                                    now as int,
                                    now as int,
                                );
                                lemma_numbering_parts(
                                    graph,
                                    root as int,
                                    par,
                                    level,
                                    self.parents@,
                                    self.depths@,
                                    self.chains@,
                                    self.heads@,
                                    self.pos@,
                                    pushed,
                                    popped,
                                    stack@,
                                    pos as int,
                                    now as int,
                                    now as int,
                                );
                                lemma_ready_node(self.depths@, pushed, popped, stack@, now as int);
                                lemma_light_child(
                                    graph,
                                    root as int,
                                    par,
                                    level,
                                    self.parents@,
                                    self.depths@,
                                    self.chains@,
                                    pushed,
                                    now as int,
                                    done,
                                );
                                lemma_lined_push(
                                    graph,
                                    root as int,
                                    par,
                                    level,
                                    self.chains@,
                                    self.pos@,
                                    pushed,
                                    popped,
                                    stack@,
                                    pos as int,
                                    order,
                                    now as int,
                                    done,
                                );
                                lemma_span_push(
                                    root as int,
                                    par,
                                    level,
                                    self.parents@,
                                    self.depths@,
                                    self.pos@,
                                    popped,
                                    stack@,
                                    pos as int,
                                    now as int,
                                    (next, next),
                                );
                                order = order.update(next as int, done);
                                lemma_heads_light(
                                    graph,
                    root as int,
                    par,
                    level,
                    self.parents@,
                    self.depths@,
                    self.chains@,
                    self.heads@,
                    self.pos@,
                    pushed,
                    popped,
                    stack@,
                    pos as int,
                                    now as int,
                                    done,
                                );
                                pushed = pushed.update(next as int, true);
                            }
                            stack.push((next, next));
                        } else {
                            proof {
                                lemma_skip_offering(
                                    graph,
                                    root as int,
                                    par,
                                    chain as int,
                                    pushed,
                                    now as int,
                                    done,
                                );
                            }
                        }
                        proof {
                            done = done + 1;
                        }
                    },
                    None => {
                        break ;
                    },
                }
            }
            proof {
                lemma_numbering_facts(
                    graph,
                    root as int,
                    par,
                    level,
                    self.parents@,
                    self.depths@,
                    self.chains@,
                    self.heads@,
                    self.pos@,
                    pushed,
                    popped,
                    stack@,
                    pos as int,
                    now as int,
                    now as int,
                );
                if chain != now {
                    lemma_span_push(
                        root as int,
                        par,
                        level,
                        self.parents@,
                        self.depths@,
                        self.pos@,
                        popped,
                        stack@,
                        pos as int,
                        now as int,
                        (chain, head),
                    );
                    lemma_lined_chain(
                        graph,
                        root as int,
                        par,
                        self.chains@,
                        self.pos@,
                        pushed,
                        popped,
                        stack@,
                        pos as int,
                        order,
                        now as int,
                        head,
                    );
                }
                lemma_heads_finish(
                    graph,
                    root as int,
                    par,
                    level,
                    self.parents@,
                    self.depths@,
                    self.chains@,
                    self.heads@,
                    self.pos@,
                    pushed,
                    popped,
                    stack@,
                    pos as int,
                    now as int,
                );
            }
            if chain != now {
                stack.push((chain, head));
                proof {
                    pushed = pushed.update(chain as int, true);
                    pending = now as int;
                }
            } else {
                proof {
                    pending = -1;
                }
            }
            proof {
                lemma_numbering_facts(
                    graph,
                    root as int,
                    par,
                    level,
                    self.parents@,
                    self.depths@,
                    self.chains@,
                    self.heads@,
                    self.pos@,
                    pushed,
                    popped,
                    stack@,
                    pos as int,
                    -1,
                    pending,
                );
                lemma_span_close(
                    root as int,
                    par,
                    level,
                    self.parents@,
                    self.depths@,
                    self.pos@,
                    popped,
                    stack@,
                    pos as int,
                    now as int,
                );
            }
        }
        proof {
            assert(stack@ =~= Seq::empty());
            lemma_numbering_parts(
                graph,
                root as int,
                par,
                level,
                self.parents@,
                self.depths@,
                self.chains@,
                self.heads@,
                self.pos@,
                pushed,
                popped,
                stack@,
                pos as int,
                -1,
                pending,
            );
            assert forall|v: int|
                0 <= v < graph.size() && #[trigger] old(self).depths@[v] == 0 implies self.heads@[v]
                == old(self).heads@[v] && self.pos@[v] == old(self).pos@[v] by {
                lemma_ready_node(self.depths@, pushed, popped, stack@, v);
            }
            lemma_lined_end(
                graph,
                root as int,
                par,
                level,
                self.parents@,
                self.depths@,
                self.chains@,
                self.pos@,
                pushed,
                popped,
                pos as int,
                order,
            );
            assert forall|v: int|
                0 <= v < self.depths@.len() && self.depths@[v] != 0 implies #[trigger] popped[v] by {
                lemma_all_popped(graph, root as int, par, level, self.depths@, pushed, popped, v);
            }
            lemma_span_end(
                root as int,
                par,
                self.parents@,
                self.depths@,
                self.pos@,
                popped,
                pos as int,
            );
            lemma_heads_end(
                graph,
                root as int,
                par,
                level,
                self.parents@,
                self.depths@,
                self.chains@,
                self.heads@,
                self.pos@,
                pushed,
                popped,
                pos as int,
                pending,
            );
        }
    }

    /// Decomposes the tree that `graph` holds below `root`.
    pub fn new<T>(root: usize, graph: &Graph<T>) -> (res: Self)
        requires
            exists|par: Seq<int>, level: Seq<nat>| rooted(graph, root as int, par, level),
        ensures
            res.wf(),
            res.decomposes(graph, root as int),
    {
        let ghost tree = choose|tree: (Seq<int>, Seq<nat>)| rooted(graph, root as int, tree.0, tree.1);
        proof {
            let (par, level) = choose|par: Seq<int>, level: Seq<nat>|
                rooted(graph, root as int, par, level);
            assert(rooted(graph, root as int, (par, level).0, (par, level).1));
        }
        let n = graph.node_count();
        let mut parents: Vec<usize> = Vec::new();
        let mut depths: Vec<usize> = Vec::new();
        let mut chains: Vec<usize> = Vec::new();
        let mut heads: Vec<usize> = Vec::new();
        let mut pos: Vec<usize> = Vec::new();
        let mut i: usize = 0;
        while i < n
            invariant
                i <= n,
                parents@.len() == i,
                depths@.len() == i,
                chains@.len() == i,
                heads@.len() == i,
                pos@.len() == i,
                forall|v: int|
                    0 <= v < i ==> parents@[v] == 0 && depths@[v] == 0 && chains@[v] == v
                        && heads@[v] == 0 && pos@[v] == 0,
            decreases n - i,
        {
            parents.push(0);
            depths.push(0);
            chains.push(i);
            heads.push(0);
            pos.push(0);
            i += 1;
        }
        let mut obj = HeavyLight { parents, depths, chains, heads, pos };
        obj.fill_chains(root, graph, Ghost(tree.0), Ghost(tree.1));
        obj.fill_heads(root, graph, Ghost(tree.0), Ghost(tree.1));
        proof {
            lemma_decomposes(&obj, graph, root as int, tree.0, tree.1);
        }
        obj
    }

    /// The path between `u` and `v`, to be read stretch by stretch.
    pub fn path(&self, u: usize, v: usize) -> (res: Path<'_>)
        requires
            self.wf(),
            u < self.size(),
            v < self.size(),
        ensures
            res.wf(),
            res.source() == self,
            res.ends() == Some((u, v)),
    {
        Path { hld: self, endpoints: Some((u, v)) }
    }
}

/// A path through a decomposed tree: what is left of it after the stretches
/// that have been read.
pub struct Path<'a> {
    hld: &'a HeavyLight,
    endpoints: Option<(usize, usize)>,
}

impl<'a> Path<'a> {
    /// The decomposition the path runs through.
    pub closed spec fn source(&self) -> &HeavyLight {
        self.hld
    }

    /// The two ends of what is left of the path.
    pub closed spec fn ends(&self) -> Option<(usize, usize)> {
        self.endpoints
    }

    /// The decomposition is in order and both ends are nodes of it.
    pub open spec fn wf(&self) -> bool {
        &&& self.source().wf()
        &&& self.ends() matches Some((u, v)) ==> u < self.source().size() && v
            < self.source().size()
    }

    /// The next stretch of the path as a pair of positions, the one nearer
    /// to the root first; `None` once the path has been read to its end.
    pub fn next(&mut self) -> (res: Option<(usize, usize)>)
        requires
            old(self).wf(),
        ensures
            final(self).wf(),
            final(self).source() == old(self).source(),
            old(self).ends().is_none() ==> res.is_none() && final(self).ends().is_none(),
            old(self).ends() matches Some((u, v)) ==> res == Some(
                hop_range(old(self).source(), u, v),
            ) && final(self).ends() == hop_rest(old(self).source(), u, v),
    {
        match self.endpoints {
            Some((first, second)) => {
                let mut u = first;
                let mut v = second;
                if self.hld.heads[u] == self.hld.heads[v] {
                    if self.hld.depths[u] > self.hld.depths[v] {
                        core::mem::swap(&mut u, &mut v);
                    }
                    self.endpoints = None;
                    Some((self.hld.pos[u], self.hld.pos[v]))
                } else {
                    if self.hld.depths[self.hld.heads[u]] > self.hld.depths[self.hld.heads[v]] {
                        core::mem::swap(&mut u, &mut v);
                    }
                    self.endpoints = Some((u, self.hld.parents[self.hld.heads[v]]));
                    Some((self.hld.pos[self.hld.heads[v]], self.hld.pos[v]))
                }
            },
            None => None,
        }
    }
}

/// The node `k` steps above `v`.
pub open spec fn above(parents: Seq<usize>, v: int, k: nat) -> int
    decreases k,
{
    if k == 0 {
        v
    } else {
        above(parents, parents[v] as int, (k - 1) as nat)
    }
}

/// `x` is one of the nodes from `v` up to the node `m` steps above it.
pub open spec fn climbs(parents: Seq<usize>, v: int, m: nat, x: int) -> bool
    decreases m,
{
    x == v || (m > 0 && climbs(parents, parents[v] as int, (m - 1) as nat, x))
}

/// `x` is `v` or lies above it.
pub open spec fn over(parents: Seq<usize>, depths: Seq<usize>, x: int, v: int) -> bool {
    depths[x] <= depths[v] && above(parents, v, (depths[v] - depths[x]) as nat) == x
}

/// `x` lies on the path between `u` and `v`: on the way that leads from
/// both ends upwards, always from the deeper one, until they meet.
pub open spec fn on_walk(parents: Seq<usize>, depths: Seq<usize>, u: int, v: int, x: int) -> bool
    decreases depths[u] + depths[v],
{
    if u == v {
        x == u
    } else if depths[u] > depths[v] {
        x == u || (depths[parents[u] as int] < depths[u] && on_walk(
            parents,
            depths,
            parents[u] as int,
            v,
            x,
        ))
    } else {
        x == v || (depths[parents[v] as int] < depths[v] && on_walk(
            parents,
            depths,
            u,
            parents[v] as int,
            x,
        ))
    }
}

/// The position `p` lies within one of the first `fuel` stretches that the
/// path between `u` and `v` gives up.
pub open spec fn in_stretches(hld: &HeavyLight, u: usize, v: usize, fuel: nat, p: int) -> bool
    decreases fuel,
{
    fuel > 0 && (hop_range(hld, u, v).0 <= p <= hop_range(hld, u, v).1 || match hop_rest(
        hld,
        u,
        v,
    ) {
        Some((a, b)) => in_stretches(hld, a, b, (fuel - 1) as nat, p),
        None => false,
    })
}

/// What the proofs about paths need of a decomposition: parents and depths
/// of a tree, the rule for heads, and positions that follow the chains.
#[verifier::opaque]
pub open spec fn chainwise(hld: &HeavyLight, root: int) -> bool {
    let n = hld.size() as int;
    let parents = hld.parent_of();
    let depths = hld.depth_of();
    let chains = hld.chain_of();
    let heads = hld.head_of();
    let pos = hld.position_of();
    &&& hld.wf()
    &&& 0 <= root < n
    &&& parents[root] == root
    &&& depths[root] == 1
    &&& forall|v: int|
        0 <= v < n && v != root && #[trigger] depths[v] != 0 ==> depths[parents[v] as int] != 0
            && depths[v] == depths[parents[v] as int] + 1
    &&& forall|v: int|
        0 <= v < n && #[trigger] depths[v] != 0 ==> heads[v] as int == (if v != root
            && chains[parents[v] as int] == v {
            heads[parents[v] as int] as int
        } else {
            v
        })
    &&& forall|v: int|
        0 <= v < n && #[trigger] depths[v] != 0 && chains[v] != v ==> pos[chains[v] as int]
            == pos[v] + 1
    &&& spaced(hld)
}

/// No two nodes that can be reached from the root share a position.
#[verifier::opaque]
pub open spec fn spaced(hld: &HeavyLight) -> bool {
    forall|u: int, v: int|
        0 <= u < hld.size() && 0 <= v < hld.size() && u != v && #[trigger] hld.depth_of()[u] != 0
            && #[trigger] hld.depth_of()[v] != 0 ==> hld.position_of()[u] != hld.position_of()[v]
}

pub proof fn lemma_chainwise<T>(hld: &HeavyLight, graph: &Graph<T>, root: int)
    requires
        hld.wf(),
        hld.decomposes(graph, root),
    ensures
        chainwise(hld, root),
{
    reveal(chainwise);
    reveal(spaced);
}

/// What is known of one node that can be reached from the root.
proof fn lemma_node(hld: &HeavyLight, root: int, v: int)
    requires
        chainwise(hld, root),
        0 <= v < hld.size(),
        hld.depth_of()[v] != 0,
    ensures
        0 <= root < hld.size(),
        hld.depth_of().len() == hld.size(),
        hld.head_of().len() == hld.size(),
        hld.position_of().len() == hld.size(),
        hld.depth_of()[root] == 1,
        hld.parent_of()[root] == root,
        hld.depth_of()[v] >= 1,
        hld.parent_of()[v] < hld.size(),
        hld.head_of()[v] < hld.size(),
        hld.position_of()[v] < hld.size(),
        hld.depth_of()[v] == 1 <==> v == root,
        v != root ==> hld.depth_of()[hld.parent_of()[v] as int] != 0 && hld.depth_of()[v]
            == hld.depth_of()[hld.parent_of()[v] as int] + 1,
        hld.head_of()[v] == v || (v != root && hld.chain_of()[hld.parent_of()[v] as int] == v
            && hld.head_of()[v] == hld.head_of()[hld.parent_of()[v] as int]
            && hld.position_of()[v] == hld.position_of()[hld.parent_of()[v] as int] + 1),
{
    reveal(chainwise);
    let n = hld.size() as int;
    let p = hld.parent_of()[v] as int;
    assert(0 <= p < n);
    assert(hld.head_of()[v] as int == (if v != root && hld.chain_of()[p] == v {
        hld.head_of()[p] as int
    } else {
        v
    }));
    if v != root {
        assert(hld.depth_of()[p] != 0);
        assert(hld.depth_of()[v] == hld.depth_of()[p] + 1);
        if hld.chain_of()[p] == v {
            assert(hld.chain_of()[p] != p);
            assert(hld.position_of()[hld.chain_of()[p] as int] == hld.position_of()[p] + 1);
        }
    }
}

/// Two nodes with one position are one node.
proof fn lemma_same_position(hld: &HeavyLight, root: int, u: int, v: int)
    requires
        chainwise(hld, root),
        0 <= u < hld.size(),
        0 <= v < hld.size(),
        hld.depth_of()[u] != 0,
        hld.depth_of()[v] != 0,
        hld.position_of()[u] == hld.position_of()[v],
    ensures
        u == v,
{
    assert(spaced(hld)) by {
        reveal(chainwise);
    }
    reveal(spaced);
}

/// The head of a node heads itself and lies above the node, as many
/// positions before it as levels above it.
proof fn lemma_head(hld: &HeavyLight, root: int, v: int)
    requires
        chainwise(hld, root),
        0 <= v < hld.size(),
        hld.depth_of()[v] != 0,
    ensures
        hld.head_of()[v] < hld.size(),
        hld.depth_of()[hld.head_of()[v] as int] != 0,
        hld.head_of()[hld.head_of()[v] as int] == hld.head_of()[v],
        hld.depth_of()[hld.head_of()[v] as int] <= hld.depth_of()[v],
        hld.position_of()[v] - hld.position_of()[hld.head_of()[v] as int] == hld.depth_of()[v]
            - hld.depth_of()[hld.head_of()[v] as int],
    decreases hld.depth_of()[v],
{
    lemma_node(hld, root, v);
    if hld.head_of()[v] != v {
        lemma_head(hld, root, hld.parent_of()[v] as int);
    }
}

/// The nodes from `v` up to its head lie on its chain, one position and one
/// level apart.
proof fn lemma_chain_member(hld: &HeavyLight, root: int, v: int, k: nat)
    requires
        chainwise(hld, root),
        0 <= v < hld.size(),
        hld.depth_of()[v] != 0,
        k <= hld.depth_of()[v] - hld.depth_of()[hld.head_of()[v] as int],
    ensures
        0 <= above(hld.parent_of(), v, k) < hld.size(),
        hld.depth_of()[above(hld.parent_of(), v, k)] == hld.depth_of()[v] - k,
        hld.head_of()[above(hld.parent_of(), v, k)] == hld.head_of()[v],
        hld.position_of()[above(hld.parent_of(), v, k)] == hld.position_of()[v] - k,
    decreases k,
{
    lemma_node(hld, root, v);
    lemma_head(hld, root, v);
    if k > 0 {
        let h = hld.head_of()[v] as int;
        assert(v != h);
        lemma_chain_member(hld, root, hld.parent_of()[v] as int, (k - 1) as nat);
    }
}

/// The nodes above a node can be reached from the root, level by level.
proof fn lemma_above(hld: &HeavyLight, root: int, v: int, k: nat)
    requires
        chainwise(hld, root),
        0 <= v < hld.size(),
        hld.depth_of()[v] != 0,
        k < hld.depth_of()[v],
    ensures
        0 <= above(hld.parent_of(), v, k) < hld.size(),
        hld.depth_of()[above(hld.parent_of(), v, k)] == hld.depth_of()[v] - k,
        k > 0 ==> above(hld.parent_of(), v, k) == hld.parent_of()[above(
            hld.parent_of(),
            v,
            (k - 1) as nat,
        )],
    decreases k,
{
    lemma_node(hld, root, v);
    if k > 0 {
        lemma_above(hld, root, hld.parent_of()[v] as int, (k - 1) as nat);
        if k > 1 {
            lemma_above(hld, root, v, (k - 1) as nat);
        }
    }
}

/// A node that is on a chain at the depth of a node above another is that
/// node: the nodes above `v`, down to the depth of its head, are those of
/// its chain.
proof fn lemma_over_chain(hld: &HeavyLight, root: int, y: int, v: int)
    requires
        chainwise(hld, root),
        0 <= v < hld.size(),
        0 <= y < hld.size(),
        hld.depth_of()[v] != 0,
        hld.depth_of()[y] != 0,
        over(hld.parent_of(), hld.depth_of(), y, v),
        hld.depth_of()[hld.head_of()[v] as int] <= hld.depth_of()[y],
    ensures
        hld.head_of()[y] == hld.head_of()[v],
{
    lemma_chain_member(hld, root, v, (hld.depth_of()[v] - hld.depth_of()[y]) as nat);
}

/// The node `k` steps above `v` is among the nodes from `v` up to the node
/// `m` steps above it, for `k <= m`.
proof fn lemma_climbs_above(parents: Seq<usize>, v: int, m: nat, k: nat)
    requires
        k <= m,
    ensures
        climbs(parents, v, m, above(parents, v, k)),
    decreases k,
{
    if k > 0 {
        lemma_climbs_above(parents, parents[v] as int, (m - 1) as nat, (k - 1) as nat);
    }
}

/// Along a chain, the nodes from `v` up to the node `m` steps above it are
/// the nodes with the `m + 1` positions that end with that of `v`.
proof fn lemma_climbs_positions(hld: &HeavyLight, root: int, v: int, m: nat, x: int)
    requires
        chainwise(hld, root),
        0 <= v < hld.size(),
        0 <= x < hld.size(),
        hld.depth_of()[v] != 0,
        hld.depth_of()[x] != 0,
        m <= hld.depth_of()[v] - hld.depth_of()[hld.head_of()[v] as int],
    ensures
        climbs(hld.parent_of(), v, m, x) <==> hld.position_of()[v] - m <= hld.position_of()[x]
            <= hld.position_of()[v],
    decreases m,
{
    let parents = hld.parent_of();
    let pos = hld.position_of();
    lemma_node(hld, root, v);
    lemma_head(hld, root, v);
    if m > 0 {
        let p = parents[v] as int;
        assert(v != hld.head_of()[v]);
        lemma_climbs_positions(hld, root, p, (m - 1) as nat, x);
    }
    if pos[v] - m <= pos[x] <= pos[v] {
        let k = (pos[v] - pos[x]) as nat;
        lemma_chain_member(hld, root, v, k);
        lemma_same_position(hld, root, above(parents, v, k), x);
        lemma_climbs_above(parents, v, m, k);
    }
    if x == v {
    }
}

/// Where `u` lies `m` steps above `v`, the path between them is the nodes
/// from `v` up to `u`.
proof fn lemma_walk_up_right(hld: &HeavyLight, root: int, u: int, v: int, m: nat, x: int)
    requires
        chainwise(hld, root),
        0 <= v < hld.size(),
        hld.depth_of()[v] != 0,
        m < hld.depth_of()[v],
        u == above(hld.parent_of(), v, m),
    ensures
        on_walk(hld.parent_of(), hld.depth_of(), u, v, x) <==> climbs(hld.parent_of(), v, m, x),
    decreases m,
{
    lemma_node(hld, root, v);
    lemma_above(hld, root, v, m);
    if m > 0 {
        lemma_walk_up_right(hld, root, u, hld.parent_of()[v] as int, (m - 1) as nat, x);
    }
}

/// Where `v` lies `m` steps above `u`, the path between them is the nodes
/// from `u` up to `v`.
proof fn lemma_walk_up_left(hld: &HeavyLight, root: int, u: int, v: int, m: nat, x: int)
    requires
        chainwise(hld, root),
        0 <= u < hld.size(),
        hld.depth_of()[u] != 0,
        m < hld.depth_of()[u],
        v == above(hld.parent_of(), u, m),
    ensures
        on_walk(hld.parent_of(), hld.depth_of(), u, v, x) <==> climbs(hld.parent_of(), u, m, x),
    decreases m,
{
    lemma_node(hld, root, u);
    lemma_above(hld, root, u, m);
    if m > 0 {
        lemma_walk_up_left(hld, root, hld.parent_of()[u] as int, v, (m - 1) as nat, x);
    }
}

/// The path between two nodes is the same from either end.
proof fn lemma_walk_symmetric(hld: &HeavyLight, root: int, u: int, v: int, x: int)
    requires
        chainwise(hld, root),
        0 <= u < hld.size(),
        0 <= v < hld.size(),
        hld.depth_of()[u] != 0,
        hld.depth_of()[v] != 0,
    ensures
        on_walk(hld.parent_of(), hld.depth_of(), u, v, x) <==> on_walk(
            hld.parent_of(),
            hld.depth_of(),
            v,
            u,
            x,
        ),
    decreases hld.depth_of()[u] + hld.depth_of()[v],
{
    let parents = hld.parent_of();
    let depths = hld.depth_of();
    lemma_node(hld, root, u);
    lemma_node(hld, root, v);
    if u != v {
        let pu = parents[u] as int;
        let pv = parents[v] as int;
        if depths[u] > depths[v] {
            lemma_walk_symmetric(hld, root, pu, v, x);
        } else if depths[u] < depths[v] {
            lemma_walk_symmetric(hld, root, u, pv, x);
        } else {
            assert(u != root && v != root);
            lemma_node(hld, root, pu);
            lemma_node(hld, root, pv);
            lemma_walk_symmetric(hld, root, pu, pv, x);
            reveal_with_fuel(on_walk, 2);
        }
    }
}

/// The root lies above every node.
proof fn lemma_root_over(hld: &HeavyLight, root: int, v: int)
    requires
        chainwise(hld, root),
        0 <= v < hld.size(),
        hld.depth_of()[v] != 0,
    ensures
        over(hld.parent_of(), hld.depth_of(), root, v),
{
    lemma_node(hld, root, v);
    let k = (hld.depth_of()[v] - 1) as nat;
    lemma_above(hld, root, v, k);
    lemma_node(hld, root, above(hld.parent_of(), v, k));
}

/// What lies above the parent of a node lies above the node, and so does
/// the parent.
proof fn lemma_over_parent(hld: &HeavyLight, root: int, y: int, u: int)
    requires
        chainwise(hld, root),
        0 <= u < hld.size(),
        hld.depth_of()[u] != 0,
        u != root,
        0 <= y < hld.size(),
        over(hld.parent_of(), hld.depth_of(), y, hld.parent_of()[u] as int),
    ensures
        over(hld.parent_of(), hld.depth_of(), y, u),
        over(hld.parent_of(), hld.depth_of(), hld.parent_of()[u] as int, u),
{
    lemma_node(hld, root, u);
    reveal_with_fuel(above, 2);
}

/// An end of a path that does not lie above the other end is on the path,
/// and the rest of the path leads on from its parent.
proof fn lemma_walk_lift(hld: &HeavyLight, root: int, u: int, v: int, x: int)
    requires
        chainwise(hld, root),
        0 <= u < hld.size(),
        0 <= v < hld.size(),
        hld.depth_of()[u] != 0,
        hld.depth_of()[v] != 0,
        !over(hld.parent_of(), hld.depth_of(), v, u),
    ensures
        v != root,
        on_walk(hld.parent_of(), hld.depth_of(), u, v, x) <==> x == v || on_walk(
            hld.parent_of(),
            hld.depth_of(),
            u,
            hld.parent_of()[v] as int,
            x,
        ),
    decreases hld.depth_of()[u] + hld.depth_of()[v],
{
    let parents = hld.parent_of();
    let depths = hld.depth_of();
    lemma_node(hld, root, u);
    lemma_node(hld, root, v);
    lemma_root_over(hld, root, u);
    assert(u != v);
    if depths[u] > depths[v] {
        let pu = parents[u] as int;
        let pv = parents[v] as int;
        lemma_node(hld, root, pv);
        if pu == v || over(parents, depths, v, pu) {
            if pu == v {
                assert(over(parents, depths, v, pu));
            }
            lemma_over_parent(hld, root, v, u);
        }
        lemma_walk_lift(hld, root, pu, v, x);
        assert(u != pv);
    }
}

/// Where the chain of `v` starts no higher than that of `u`, and is
/// another, the path between `u` and `v` is the nodes from `v` up to its
/// head and the path between `u` and the parent of that head.
proof fn lemma_walk_chain(hld: &HeavyLight, root: int, u: int, v: int, x: int)
    requires
        chainwise(hld, root),
        0 <= u < hld.size(),
        0 <= v < hld.size(),
        hld.depth_of()[u] != 0,
        hld.depth_of()[v] != 0,
        hld.head_of()[u] != hld.head_of()[v],
        hld.depth_of()[hld.head_of()[u] as int] <= hld.depth_of()[hld.head_of()[v] as int],
    ensures
        hld.head_of()[v] != root,
        on_walk(hld.parent_of(), hld.depth_of(), u, v, x) <==> climbs(
            hld.parent_of(),
            v,
            (hld.depth_of()[v] - hld.depth_of()[hld.head_of()[v] as int]) as nat,
            x,
        ) || on_walk(
            hld.parent_of(),
            hld.depth_of(),
            u,
            hld.parent_of()[hld.head_of()[v] as int] as int,
            x,
        ),
    decreases hld.depth_of()[v],
{
    let parents = hld.parent_of();
    let depths = hld.depth_of();
    let heads = hld.head_of();
    lemma_node(hld, root, u);
    lemma_node(hld, root, v);
    lemma_head(hld, root, u);
    lemma_head(hld, root, v);
    if over(parents, depths, v, u) {
        lemma_over_chain(hld, root, v, u);
    }
    lemma_node(hld, root, heads[u] as int);
    lemma_node(hld, root, heads[v] as int);
    lemma_walk_lift(hld, root, u, v, x);
    if heads[v] != v {
        if depths[v] == depths[heads[v] as int] {
            lemma_same_position(hld, root, v, heads[v] as int);
        }
        lemma_walk_chain(hld, root, u, parents[v] as int, x);
    }
}

/// The stretches that a path gives up hold the positions of the nodes of
/// the path and no others: a node that can be reached from the root lies on
/// the path between `u` and `v` if and only if its position lies within one
/// of the stretches.
pub proof fn lemma_path_stretches(
    hld: &HeavyLight,
    root: int,
    u: usize,
    v: usize,
    fuel: nat,
    x: int,
)
    requires
        chainwise(hld, root),
        u < hld.size(),
        v < hld.size(),
        0 <= x < hld.size(),
        hld.depth_of()[u as int] != 0,
        hld.depth_of()[v as int] != 0,
        hld.depth_of()[x] != 0,
        fuel >= hld.depth_of()[hld.head_of()[u as int] as int] + hld.depth_of()[hld.head_of()[v as int] as int],
    ensures
        on_walk(hld.parent_of(), hld.depth_of(), u as int, v as int, x) <==> in_stretches(
            hld,
            u,
            v,
            fuel,
            hld.position_of()[x] as int,
        ),
    decreases fuel,
{
    let parents = hld.parent_of();
    let depths = hld.depth_of();
    let heads = hld.head_of();
    let pos = hld.position_of();
    let hu = heads[u as int];
    let hv = heads[v as int];
    lemma_node(hld, root, u as int);
    lemma_node(hld, root, v as int);
    lemma_head(hld, root, u as int);
    lemma_head(hld, root, v as int);
    lemma_node(hld, root, hu as int);
    lemma_node(hld, root, hv as int);
    if hu == hv {
        if depths[u as int] > depths[v as int] {
            let m = (depths[u as int] - depths[v as int]) as nat;
            lemma_chain_member(hld, root, u as int, m);
            lemma_same_position(hld, root, above(parents, u as int, m), v as int);
            lemma_walk_up_left(hld, root, u as int, v as int, m, x);
            lemma_climbs_positions(hld, root, u as int, m, x);
        } else {
            let m = (depths[v as int] - depths[u as int]) as nat;
            lemma_chain_member(hld, root, v as int, m);
            lemma_same_position(hld, root, above(parents, v as int, m), u as int);
            lemma_walk_up_right(hld, root, u as int, v as int, m, x);
            lemma_climbs_positions(hld, root, v as int, m, x);
        }
    } else if depths[hu as int] > depths[hv as int] {
        let next = parents[hu as int];
        lemma_walk_symmetric(hld, root, u as int, v as int, x);
        lemma_walk_chain(hld, root, v as int, u as int, x);
        lemma_climbs_positions(
            hld,
            root,
            u as int,
            (depths[u as int] - depths[hu as int]) as nat,
            x,
        );
        lemma_node(hld, root, next as int);
        lemma_head(hld, root, next as int);
        lemma_path_stretches(hld, root, v, next, (fuel - 1) as nat, x);
    } else {
        let next = parents[hv as int];
        lemma_walk_chain(hld, root, u as int, v as int, x);
        lemma_climbs_positions(
            hld,
            root,
            v as int,
            (depths[v as int] - depths[hv as int]) as nat,
            x,
        );
        lemma_node(hld, root, next as int);
        lemma_head(hld, root, next as int);
        lemma_path_stretches(hld, root, u, next, (fuel - 1) as nat, x);
    }
}

/// Every stretch is given with the position nearer to the root first, and
/// the path comes to an end: what is left after a stretch lies between two
/// nodes that can be reached from the root and whose heads lie, taken
/// together, higher up than those of the ends before.
pub proof fn lemma_stretch_step(hld: &HeavyLight, root: int, u: usize, v: usize)
    requires
        chainwise(hld, root),
        u < hld.size(),
        v < hld.size(),
        hld.depth_of()[u as int] != 0,
        hld.depth_of()[v as int] != 0,
    ensures
        hop_range(hld, u, v).0 <= hop_range(hld, u, v).1,
        hop_rest(hld, u, v) matches Some((a, b)) ==> a < hld.size() && b < hld.size()
            && hld.depth_of()[a as int] != 0 && hld.depth_of()[b as int] != 0
            && hld.depth_of()[hld.head_of()[a as int] as int]
            + hld.depth_of()[hld.head_of()[b as int] as int]
            < hld.depth_of()[hld.head_of()[u as int] as int]
            + hld.depth_of()[hld.head_of()[v as int] as int],
{
    let parents = hld.parent_of();
    let depths = hld.depth_of();
    let heads = hld.head_of();
    let hu = heads[u as int];
    let hv = heads[v as int];
    lemma_node(hld, root, u as int);
    lemma_node(hld, root, v as int);
    lemma_head(hld, root, u as int);
    lemma_head(hld, root, v as int);
    lemma_node(hld, root, hu as int);
    lemma_node(hld, root, hv as int);
    if hu != hv {
        if depths[hu as int] > depths[hv as int] {
            let next = parents[hu as int];
            lemma_node(hld, root, next as int);
            lemma_head(hld, root, next as int);
        } else {
            let next = parents[hv as int];
            assert(hv as int != root) by {
                if hv as int == root {
                    lemma_root_over(hld, root, u as int);
                    lemma_over_chain(hld, root, root, u as int);
                }
            }
            lemma_node(hld, root, next as int);
            lemma_head(hld, root, next as int);
        }
    }
}

/// Every position within a stretch is the position of a node that can be
/// reached from the root.
pub proof fn lemma_stretch_positions(
    hld: &HeavyLight,
    root: int,
    u: usize,
    v: usize,
    fuel: nat,
    p: int,
)
    requires
        chainwise(hld, root),
        u < hld.size(),
        v < hld.size(),
        hld.depth_of()[u as int] != 0,
        hld.depth_of()[v as int] != 0,
        in_stretches(hld, u, v, fuel, p),
    ensures
        exists|x: int|
            0 <= x < hld.size() && hld.depth_of()[x] != 0 && #[trigger] hld.position_of()[x] == p,
    decreases fuel,
{
    let parents = hld.parent_of();
    let depths = hld.depth_of();
    let heads = hld.head_of();
    let pos = hld.position_of();
    let hu = heads[u as int];
    let hv = heads[v as int];
    lemma_node(hld, root, u as int);
    lemma_node(hld, root, v as int);
    lemma_head(hld, root, u as int);
    lemma_head(hld, root, v as int);
    lemma_node(hld, root, hu as int);
    lemma_node(hld, root, hv as int);
    let range = hop_range(hld, u, v);
    if range.0 <= p <= range.1 {
        let low: int = if hu == hv {
            if depths[u as int] > depths[v as int] {
                u as int
            } else {
                v as int
            }
        } else if depths[hu as int] > depths[hv as int] {
            u as int
        } else {
            v as int
        };
        assert(range.1 == pos[low]);
        assert(pos[low] - p <= depths[low] - depths[heads[low] as int]);
        let k = (pos[low] - p) as nat;
        lemma_chain_member(hld, root, low, k);
        assert(pos[above(parents, low, k)] == p);
    } else {
        if depths[hu as int] > depths[hv as int] {
            let next = parents[hu as int];
            lemma_node(hld, root, next as int);
            lemma_stretch_positions(hld, root, v, next, (fuel - 1) as nat, p);
        } else {
            let next = parents[hv as int];
            lemma_node(hld, root, next as int);
            lemma_stretch_positions(hld, root, u, next, (fuel - 1) as nat, p);
        }
    }
}

} // verus!
