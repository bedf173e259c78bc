//! Directed netlists: numbered nodes, and edges from a driven node to each
//! of its drivers, in the order in which they were connected.
use vstd::prelude::*;

verus! {

/// A netlist over node weights `N`.  Node `i` is `nodes[i]`; an edge
/// `(parent, child)` says that `child` drives an input of `parent`.
#[derive(Debug)]
pub struct Netlist<N> {
    pub nodes: Vec<N>,
    pub edges: Vec<(usize, usize)>,
    pub roots: Vec<usize>,
    pub leaves: Vec<usize>,
}

/// The drivers of `node`, in connection order.
pub open spec fn fanins_of(edges: Seq<(usize, usize)>, node: int) -> Seq<usize>
    decreases edges.len(),
{
    if edges.len() == 0 {
        Seq::empty()
    } else if edges.last().0 == node {
        fanins_of(edges.drop_last(), node).push(edges.last().1)
    } else {
        fanins_of(edges.drop_last(), node)
    }
}

/// The nodes that `node` drives, in connection order.
pub open spec fn fanouts_of(edges: Seq<(usize, usize)>, node: int) -> Seq<usize>
    decreases edges.len(),
{
    if edges.len() == 0 {
        Seq::empty()
    } else if edges.last().1 == node {
        fanouts_of(edges.drop_last(), node).push(edges.last().0)
    } else {
        fanouts_of(edges.drop_last(), node)
    }
}

/// Every edge and every root and leaf names an existing node.
pub open spec fn netlist_wf(
    n: nat,
    edges: Seq<(usize, usize)>,
    roots: Seq<usize>,
    leaves: Seq<usize>,
) -> bool {
    &&& forall|k: int| 0 <= k < edges.len() ==> (#[trigger] edges[k]).0 < n && edges[k].1 < n
    &&& forall|k: int| 0 <= k < roots.len() ==> #[trigger] roots[k] < n
    &&& forall|k: int| 0 <= k < leaves.len() ==> #[trigger] leaves[k] < n
}

/// Every member of `fanins_of(edges, node)` is the child of some edge of `node`.
pub proof fn lemma_fanins_are_children(edges: Seq<(usize, usize)>, node: int)
    ensures
        forall|k: int|
            0 <= k < fanins_of(edges, node).len() ==> exists|m: int|
                0 <= m < edges.len() && edges[m].0 == node && edges[m].1 == #[trigger] fanins_of(
                    edges,
                    node,
                )[k],
    decreases edges.len(),
{
    if edges.len() > 0 {
        lemma_fanins_are_children(edges.drop_last(), node);
        let prev = fanins_of(edges.drop_last(), node);
        assert forall|k: int| 0 <= k < fanins_of(edges, node).len() implies exists|m: int|
            0 <= m < edges.len() && edges[m].0 == node && edges[m].1 == #[trigger] fanins_of(
                edges,
                node,
            )[k] by {
            if k < prev.len() {
                let m = choose|m: int|
                    0 <= m < edges.drop_last().len() && edges.drop_last()[m].0 == node
                        && edges.drop_last()[m].1 == prev[k];
                assert(edges[m] == edges.drop_last()[m]);
            } else {
                assert(edges[edges.len() - 1].1 == fanins_of(edges, node)[k]);
            }
        }
    }
}

impl<N> Netlist<N> {
    pub open spec fn wf(&self) -> bool {
        &&& netlist_wf(self.nodes@.len(), self.edges@, self.roots@, self.leaves@)
    }

    /// An empty netlist.
    pub fn new() -> (r: Self)
        ensures
            r.nodes@.len() == 0,
            r.edges@.len() == 0,
            r.roots@.len() == 0,
            r.leaves@.len() == 0,
            r.wf(),
    {
        Netlist { nodes: Vec::new(), edges: Vec::new(), roots: Vec::new(), leaves: Vec::new() }
    }

    /// The number of nodes.
    pub fn node_count(&self) -> (r: usize)
        ensures
            r == self.nodes@.len(),
    {
        self.nodes.len()
    }

    /// Appends a node and returns its index.
    pub fn add_node(&mut self, weight: N) -> (r: usize)
        ensures
            r == old(self).nodes@.len(),
            final(self).nodes@ == old(self).nodes@.push(weight),
            final(self).edges@ == old(self).edges@,
            final(self).roots@ == old(self).roots@,
            final(self).leaves@ == old(self).leaves@,
            old(self).wf() ==> final(self).wf(),
    {
        self.nodes.push(weight);
        self.nodes.len() - 1
    }

    /// Connects `child` as the next input of `parent`.
    pub fn add_edge(&mut self, parent: usize, child: usize)
        ensures
            final(self).nodes@ == old(self).nodes@,
            final(self).edges@ == old(self).edges@.push((parent, child)),
            final(self).roots@ == old(self).roots@,
            final(self).leaves@ == old(self).leaves@,
            (old(self).wf() && parent < old(self).nodes@.len() && child < old(self).nodes@.len())
                ==> final(self).wf(),
    {
        self.edges.push((parent, child));
    }

    /// The drivers of `idx`, in the order they were connected.
    pub fn inputs(&self, idx: usize) -> (r: Vec<usize>)
        ensures
            r@ == fanins_of(self.edges@, idx as int),
    {
        let mut r: Vec<usize> = Vec::new();
        let mut k: usize = 0;
        while k < self.edges.len()
            invariant
                0 <= k <= self.edges@.len(),
                r@ == fanins_of(self.edges@.take(k as int), idx as int),
            decreases self.edges@.len() - k,
        {
            assert(self.edges@.take(k + 1).drop_last() =~= self.edges@.take(k as int));
            let (p, c) = self.edges[k];
            if p == idx {
                r.push(c);
            }
            k = k + 1;
        }
        assert(self.edges@.take(k as int) =~= self.edges@);
        r
    }

    /// The nodes driven by `idx`, in the order they were connected.
    pub fn outputs(&self, idx: usize) -> (r: Vec<usize>)
        ensures
            r@ == fanouts_of(self.edges@, idx as int),
    {
        let mut r: Vec<usize> = Vec::new();
        let mut k: usize = 0;
        while k < self.edges.len()
            invariant
                0 <= k <= self.edges@.len(),
                r@ == fanouts_of(self.edges@.take(k as int), idx as int),
            decreases self.edges@.len() - k,
        {
            assert(self.edges@.take(k + 1).drop_last() =~= self.edges@.take(k as int));
            let (p, c) = self.edges[k];
            if c == idx {
                r.push(p);
            }
            k = k + 1;
        }
        assert(self.edges@.take(k as int) =~= self.edges@);
        r
    }
}

/// `order` lists every node of an `n`-node graph exactly once, and each edge
/// `(parent, child)` has `parent` listed before `child`.
pub open spec fn is_topological_order(n: nat, edges: Seq<(usize, usize)>, order: Seq<usize>) -> bool {
    &&& order.len() == n
    &&& order.no_duplicates()
    &&& forall|i: int| 0 <= i < order.len() ==> #[trigger] order[i] < n
    &&& forall|k: int, i: int, j: int|
        #![trigger edges[k], order[i], order[j]]
        0 <= k < edges.len() && 0 <= i < order.len() && 0 <= j < order.len() && order[i]
            == edges[k].0 && order[j] == edges[k].1 ==> i < j
}

/// The graph has no directed cycle: some order lists parents before children.
pub open spec fn acyclic(n: nat, edges: Seq<(usize, usize)>) -> bool {
    exists|order: Seq<usize>| is_topological_order(n, edges, order)
}

/// The result of petgraph's topological sort of the `n`-node graph whose
/// edges were added in the order of `edges`: the order, or a node on a cycle.
pub uninterp spec fn petgraph_toposort(n: nat, edges: Seq<(usize, usize)>) -> Result<Seq<usize>, usize>;

/// Runs `petgraph::algo::toposort` on the graph with nodes `0..n` and the
/// given edges, added in order.  As petgraph documents, the result is either
/// a topological order of all nodes, or a node of a cycle when the graph is
/// not acyclic.  Which order, or which cycle node, is left to petgraph and
/// only named here.
#[verifier::external_body]
pub(crate) fn toposort_nodes(n: usize, edges: &Vec<(usize, usize)>) -> (r: Result<Vec<usize>, usize>)
    requires
        forall|k: int| 0 <= k < edges@.len() ==> (#[trigger] edges@[k]).0 < n && edges@[k].1 < n,
    ensures
        match r {
            Ok(o) => petgraph_toposort(n as nat, edges@) == Ok::<Seq<usize>, usize>(o@)
                && is_topological_order(n as nat, edges@, o@),
            Err(c) => petgraph_toposort(n as nat, edges@) == Err::<Seq<usize>, usize>(c) && c < n
                && !acyclic(n as nat, edges@),
        },
{
    let mut graph = petgraph::Graph::<(), ()>::new();
    let ids: Vec<petgraph::graph::NodeIndex> = (0..n).map(|_| graph.add_node(())).collect();
    for &(parent, child) in edges.iter() {
        graph.add_edge(ids[parent], ids[child], ());
    }
    match petgraph::algo::toposort(&graph, None) {
        Ok(order) => Ok(order.into_iter().map(|node| node.index()).collect()),
        Err(cycle) => Err(cycle.node_id().index()),
    }
}

/// Whether `v` contains `x`.
pub fn contains_index(v: &Vec<usize>, x: usize) -> (r: bool)
    ensures
        r == v@.contains(x),
{
    let mut i: usize = 0;
    while i < v.len()
        invariant
            0 <= i <= v.len(),
            forall|j: int| 0 <= j < i ==> v@[j] != x,
        decreases v.len() - i,
    {
        if v[i] == x {
            assert(v@[i as int] == x);
            return true;
        }
        i = i + 1;
    }
    false
}

impl<N> Netlist<N> {
    /// A topological order of the netlist's nodes (drivers after the nodes
    /// they drive, as edges run from a node to its drivers), or a node on a
    /// cycle.
    pub fn toposort(&self) -> (r: Result<Vec<usize>, usize>)
        requires
            self.wf(),
        ensures
            match r {
                Ok(o) => petgraph_toposort(self.nodes@.len(), self.edges@) == Ok::<Seq<usize>, usize>(o@)
                    && is_topological_order(self.nodes@.len(), self.edges@, o@),
                Err(c) => petgraph_toposort(self.nodes@.len(), self.edges@) == Err::<Seq<usize>, usize>(c)
                    && c < self.nodes@.len() && !acyclic(self.nodes@.len(), self.edges@),
            },
    {
        toposort_nodes(self.nodes.len(), &self.edges)
    }
}

} // verus!
