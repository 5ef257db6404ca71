//! Directed graph kept as linked lists of edges in one array.
//!
//! Every node holds the index of the edge added to it last; every edge holds
//! the index of the edge that was added to the same node before it.

pub mod hld;

use vstd::prelude::*;

verus! {

/// The edges found from `cur` on by following the links: target and value,
/// the edge added last first.
pub open spec fn chain<T>(edges: Seq<(Option<usize>, usize, T)>, cur: Option<usize>) -> Seq<
    (usize, T),
>
    decreases
            (match cur {
                Some(e) => e + 1,
                None => 0,
            }),
{
    match cur {
        None => Seq::empty(),
        Some(e) => {
            let rest = match edges[e as int].0 {
                Some(before) if before < e => chain(edges, Some(before)),
                _ => Seq::empty(),
            };
            seq![(edges[e as int].1, edges[e as int].2)] + rest
        },
    }
}

/// Every link leads to an edge that was added earlier.
pub open spec fn linked<T>(nodes: Seq<Option<usize>>, edges: Seq<(Option<usize>, usize, T)>) -> bool {
    &&& forall|i: int|
        0 <= i < nodes.len() ==> (#[trigger] nodes[i] matches Some(e) ==> e < edges.len())
    &&& forall|e: int|
        0 <= e < edges.len() ==> (#[trigger] edges[e].0 matches Some(before) ==> before < e)
}

/// A chain reads only the edges up to the one it starts from.
pub proof fn lemma_chain_prefix<T>(
    edges: Seq<(Option<usize>, usize, T)>,
    longer: Seq<(Option<usize>, usize, T)>,
    cur: Option<usize>,
)
    requires
        edges.len() <= longer.len(),
        forall|e: int| 0 <= e < edges.len() ==> longer[e] == edges[e],
        cur matches Some(e) ==> e < edges.len(),
    ensures
        chain(longer, cur) == chain(edges, cur),
    decreases
            (match cur {
                Some(e) => e + 1,
                None => 0,
            }),
{
    match cur {
        None => {},
        Some(e) => {
            match edges[e as int].0 {
                Some(before) => {
                    if before < e {
                        lemma_chain_prefix(edges, longer, Some(before));
                    }
                },
                None => {},
            }
        },
    }
}

/// A directed graph on the nodes `0..n` whose edges carry a value of `T`.
pub struct Graph<T> {
    nodes: Vec<Option<usize>>,
    edges: Vec<(Option<usize>, usize, T)>,
}

impl<T> Graph<T> {
    /// For each node the index of the edge added to it last.
    pub closed spec fn heads(&self) -> Seq<Option<usize>> {
        self.nodes@
    }

    /// The edges in the order in which they were added: the link to the
    /// edge added to the same node before, the target, the value.
    pub closed spec fn links(&self) -> Seq<(Option<usize>, usize, T)> {
        self.edges@
    }

    /// Every link leads to an edge that was added earlier.
    pub open spec fn wf(&self) -> bool {
        linked(self.heads(), self.links())
    }

    /// The number of nodes.
    pub open spec fn size(&self) -> nat {
        self.heads().len()
    }

    /// The edges that leave `node`, target and value, the edge added last
    /// first.
    pub open spec fn adjacent(&self, node: int) -> Seq<(usize, T)> {
        chain(self.links(), self.heads()[node])
    }

    /// The heads as they are stored.
    pub fn nodes(&self) -> (res: &Vec<Option<usize>>)
        ensures
            res@ == self.heads(),
    {
        &self.nodes
    }

    /// The edges as they are stored.
    pub fn edges(&self) -> (res: &Vec<(Option<usize>, usize, T)>)
        ensures
            res@ == self.links(),
    {
        &self.edges
    }

    /// A graph of `n` nodes without edges, with room for `e` edges.
    pub fn new(n: usize, e: usize) -> (res: Self)
        ensures
            res.wf(),
            res.size() == n,
            res.links().len() == 0,
            forall|i: int| 0 <= i < n ==> res.heads()[i].is_none(),
            forall|i: int| 0 <= i < n ==> res.adjacent(i).len() == 0,
    {
        let mut nodes: Vec<Option<usize>> = Vec::new();
        let mut i: usize = 0;
        while i < n
            invariant
                i <= n,
                nodes@.len() == i,
                forall|j: int| 0 <= j < i ==> nodes@[j].is_none(),
            decreases n - i,
        {
            nodes.push(None);
            i += 1;
        }
        Graph { nodes, edges: Vec::with_capacity(e) }
    }

    /// Adds an edge from `from` to `to` that carries `data`, in front of
    /// the edges that leave `from` already.
    pub fn connect(&mut self, from: usize, to: usize, data: T)
        requires
            old(self).wf(),
            from < old(self).size(),
        ensures
            final(self).wf(),
            final(self).size() == old(self).size(),
            final(self).heads() == old(self).heads().update(
                from as int,
                Some(old(self).links().len() as usize),
            ),
            final(self).links() == old(self).links().push(
                (old(self).heads()[from as int], to, data),
            ),
            final(self).adjacent(from as int) == seq![(to, data)] + old(self).adjacent(
                from as int,
            ),
            forall|i: int|
                0 <= i < old(self).size() && i != from ==> final(self).adjacent(i) == old(
                    self,
                ).adjacent(i),
    {
        let ghost before = self.edges@;
        let ghost heads = self.nodes@;
        let new_edge = self.edges.len();
        let mut prev = Some(new_edge);
        core::mem::swap(&mut self.nodes[from], &mut prev);
        self.edges.push((prev, to, data));
        proof {
            lemma_chain_prefix(before, self.edges@, prev);
            assert forall|i: int| 0 <= i < heads.len() && i != from implies chain(
                self.edges@,
                self.nodes@[i],
            ) == chain(before, heads[i]) by {
                lemma_chain_prefix(before, self.edges@, heads[i]);
            }
        }
    }

    /// The edges that leave `node`, to be read one by one.
    pub fn neighbors(&self, node: usize) -> (res: Neighbors<'_, T>)
        requires
            self.wf(),
            node < self.size(),
        ensures
            res.wf(),
            res@ == self.adjacent(node as int),
    {
        Neighbors { graph: self, next: self.nodes[node] }
    }

    pub fn node_count(&self) -> (res: usize)
        ensures
            res == self.size(),
    {
        self.nodes.len()
    }

    pub fn edge_count(&self) -> (res: usize)
        ensures
            res == self.links().len(),
    {
        self.edges.len()
    }
}

/// A cursor over the edges that leave one node.
pub struct Neighbors<'a, T> {
    graph: &'a Graph<T>,
    next: Option<usize>,
}

impl<'a, T> View for Neighbors<'a, T> {
    type V = Seq<(usize, T)>;

    /// The edges that are still to come.
    closed spec fn view(&self) -> Seq<(usize, T)> {
        chain(self.graph.edges@, self.next)
    }
}

impl<'a, T> Neighbors<'a, T> {
    /// The cursor stands on an edge of a well-formed graph, or at the end.
    pub closed spec fn wf(&self) -> bool {
        &&& self.graph.wf()
        &&& self.next matches Some(e) ==> e < self.graph.edges@.len()
    }

    /// The next edge, target and value, or `None` after the last one.
    pub fn next(&mut self) -> (res: Option<(usize, &'a T)>)
        requires
            old(self).wf(),
        ensures
            final(self).wf(),
            old(self)@.len() == 0 ==> res.is_none() && final(self)@ == old(self)@,
            old(self)@.len() > 0 ==> res == Some((old(self)@[0].0, &old(self)@[0].1))
                && final(self)@ == old(self)@.skip(1),
    {
        if let Some(at) = self.next {
            let entry = &self.graph.edges[at];
            proof {
                assert(old(self)@.skip(1) =~= chain(self.graph.edges@, entry.0));
            }
            self.next = entry.0;
            Some((entry.1, &entry.2))
        } else {
            None
        }
    }
}

} // verus!
