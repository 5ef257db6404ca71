//! Directed graph kept as one list of edges for each node.

use vstd::prelude::*;

verus! {

/// The number of entries of the first `k` lists.
pub open spec fn total<T>(lists: Seq<Seq<(usize, T)>>, k: int) -> int
    decreases k,
{
    if k <= 0 {
        0
    } else {
        total(lists, k - 1) + lists[k - 1].len()
    }
}

/// One more entry in the list of `from` is one more entry in all.
proof fn lemma_total_push<T>(
    lists: Seq<Seq<(usize, T)>>,
    from: int,
    longer: Seq<(usize, T)>,
    k: int,
)
    requires
        0 <= from < lists.len(),
        0 <= k <= lists.len(),
        longer.len() == lists[from].len() + 1,
    ensures
        total(lists.update(from, longer), k) == total(lists, k) + if from < k {
            1int
        } else {
            0int
        },
    decreases k,
{
    if k > 0 {
        lemma_total_push(lists, from, longer, k - 1);
    }
}

/// A directed graph on the nodes `0..n` whose edges carry a value of `T`.
pub struct Graph<T> {
    list: Vec<Vec<(usize, T)>>,
    edges: usize,
}

impl<T> View for Graph<T> {
    type V = Seq<Seq<(usize, T)>>;

    /// For each node the edges that leave it, target and value, in the
    /// order in which they were added.
    closed spec fn view(&self) -> Seq<Seq<(usize, T)>> {
        Seq::new(self.list@.len(), |i: int| self.list@[i]@)
    }
}

impl<T> Graph<T> {
    /// The number of edges added so far.
    pub closed spec fn edges(&self) -> nat {
        self.edges as nat
    }

    /// The edge counter agrees with the lists.
    pub open spec fn wf(&self) -> bool {
        self.edges() == total(self@, self@.len() as int)
    }

    /// The lists as they are stored.
    pub fn list(&self) -> (res: &Vec<Vec<(usize, T)>>)
        ensures
            res@.len() == self@.len(),
            forall|i: int| 0 <= i < res@.len() ==> res@[i]@ == self@[i],
    {
        &self.list
    }

    /// A graph of `n` nodes without edges.
    pub fn new(n: usize) -> (res: Self)
        ensures
            res.wf(),
            res@.len() == n,
            forall|i: int| 0 <= i < n ==> res@[i].len() == 0,
            res.edges() == 0,
    {
        let mut list: Vec<Vec<(usize, T)>> = Vec::new();
        let mut i: usize = 0;
        while i < n
            invariant
                i <= n,
                list@.len() == i,
                forall|j: int| 0 <= j < i ==> list@[j]@.len() == 0,
            decreases n - i,
        {
            list.push(Vec::new());
            i += 1;
        }
        let res = Graph { list, edges: 0 };
        proof {
            lemma_total_empty(res@, n as int);
        }
        res
    }

    /// Adds an edge from `from` to `to` that carries `data`, behind the
    /// edges that leave `from` already.
    pub fn connect(&mut self, from: usize, to: usize, data: T)
        requires
            old(self).wf(),
            from < old(self)@.len(),
            old(self).edges() < usize::MAX,
        ensures
            final(self).wf(),
            final(self)@ == old(self)@.update(from as int, old(self)@[from as int].push((to, data))),
            final(self).edges() == old(self).edges() + 1,
    {
        let ghost before = self@;
        self.list[from].push((to, data));
        self.edges += 1;
        proof {
            let longer = before[from as int].push((to, data));
            assert(self@ =~= before.update(from as int, longer));
            lemma_total_push(before, from as int, longer, before.len() as int);
        }
    }

    /// The edges that leave `node`, to be read one by one.
    pub fn neighbors(&self, node: usize) -> (res: Neighbors<'_, T>)
        requires
            node < self@.len(),
        ensures
            res@ == self@[node as int],
    {
        Neighbors { items: &self.list[node], pos: 0 }
    }

    pub fn node_count(&self) -> (res: usize)
        ensures
            res == self@.len(),
    {
        self.list.len()
    }

    pub fn edge_count(&self) -> (res: usize)
        ensures
            res == self.edges(),
    {
        self.edges
    }
}

/// Lists without entries have no entries in all.
proof fn lemma_total_empty<T>(lists: Seq<Seq<(usize, T)>>, k: int)
    requires
        0 <= k <= lists.len(),
        forall|i: int| 0 <= i < lists.len() ==> lists[i].len() == 0,
    ensures
        total(lists, k) == 0,
    decreases k,
{
    if k > 0 {
        lemma_total_empty(lists, k - 1);
    }
}

/// A cursor over the edges that leave one node.
pub struct Neighbors<'a, T> {
    items: &'a Vec<(usize, T)>,
    pos: usize,
}

impl<'a, T> View for Neighbors<'a, T> {
    type V = Seq<(usize, T)>;

    /// The edges that are still to come.
    closed spec fn view(&self) -> Seq<(usize, T)> {
        self.items@.skip(self.pos as int)
    }
}

impl<'a, T> Neighbors<'a, T> {
    /// The cursor has not run past the end of its list.
    pub closed spec fn wf(&self) -> bool {
        self.pos <= self.items@.len()
    }

    /// The next edge, target and value, or `None` after the last one.
    pub fn next(&mut self) -> (res: Option<(usize, &'a T)>)
        requires
            old(self).wf(),
        ensures
            final(self).wf(),
            old(self)@.len() == 0 ==> res.is_none() && final(self)@ == old(self)@,
            old(self)@.len() > 0 ==> res == Some((old(self)@[0].0, &old(self)@[0].1))
                && final(self)@ == old(self)@.skip(1),
    {
        if self.pos < self.items.len() {
            let entry = &self.items[self.pos];
            self.pos += 1;
            proof {
                assert(self.items@.skip(self.pos as int) =~= old(self)@.skip(1));
            }
            Some((entry.0, &entry.1))
        } else {
            None
        }
    }
}

} // verus!
