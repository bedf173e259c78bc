//! Leaves-to-roots traversal of a serialized e-graph, and a queue whose
//! elements are unique.
use vstd::prelude::*;

use crate::mining::MiningGraph;

verus! {

/// A FIFO queue in which an element occurs at most once.
pub struct UniqueQueue {
    pub queue: Vec<usize>,
}

impl Default for UniqueQueue {
    /// An empty queue.
    fn default() -> (r: Self)
        ensures
            r.inv(),
            r.queue@.len() == 0,
    {
        UniqueQueue::new()
    }
}

impl UniqueQueue {
    /// No element occurs twice.
    pub open spec fn inv(&self) -> bool {
        self.queue@.no_duplicates()
    }

    /// An empty queue.
    pub fn new() -> (r: Self)
        ensures
            r.inv(),
            r.queue@.len() == 0,
    {
        UniqueQueue { queue: Vec::new() }
    }

    /// Appends `t` unless it is already queued.
    pub fn insert(&mut self, t: usize)
        requires
            old(self).inv(),
        ensures
            final(self).inv(),
            old(self).queue@.contains(t) ==> final(self).queue@ == old(self).queue@,
            !old(self).queue@.contains(t) ==> final(self).queue@ == old(self).queue@.push(t),
    {
        let mut i: usize = 0;
        while i < self.queue.len()
            invariant
                0 <= i <= self.queue@.len(),
                self.queue@ == old(self).queue@,
                self.inv(),
                forall|j: int| 0 <= j < i ==> self.queue@[j] != t,
            decreases self.queue.len() - i,
        {
            if self.queue[i] == t {
                assert(self.queue@[i as int] == t);
                assert(self.queue@.contains(t));
                return ;
            }
            i = i + 1;
        }
        let ghost before = self.queue@;
        assert(!before.contains(t));
        self.queue.push(t);
        assert(self.queue@.no_duplicates()) by {
            assert forall|a: int, b: int| 0 <= a < self.queue@.len() && 0 <= b < self.queue@.len() && a != b
                implies self.queue@[a] != self.queue@[b] by {
                if a < before.len() && b < before.len() {
                    assert(self.queue@[a] == before[a] && self.queue@[b] == before[b]);
                }
            }
        }
    }

    /// Inserts every element of `items`, in order.
    pub fn extend(&mut self, items: &Vec<usize>)
        requires
            old(self).inv(),
        ensures
            final(self).inv(),
            forall|x: usize| #[trigger] final(self).queue@.contains(x) <==> (old(self).queue@.contains(x)
                || items@.contains(x)),
            forall|j: int| 0 <= j < old(self).queue@.len() ==> #[trigger] final(self).queue@[j] == old(self).queue@[j],
    {
        let mut i: usize = 0;
        while i < items.len()
            invariant
                0 <= i <= items@.len(),
                self.inv(),
                forall|x: usize| #[trigger] self.queue@.contains(x) <==> (old(self).queue@.contains(x)
                    || items@.take(i as int).contains(x)),
                self.queue@.len() >= old(self).queue@.len(),
                forall|j: int| 0 <= j < old(self).queue@.len() ==> #[trigger] self.queue@[j] == old(self).queue@[j],
            decreases items.len() - i,
        {
            let ghost before = self.queue@;
            self.insert(items[i]);
            assert(items@.take(i + 1) =~= items@.take(i as int).push(items@[i as int]));
            let ghost y = items@[i as int];
            assert forall|x: usize| #[trigger] self.queue@.contains(x) <==> (old(self).queue@.contains(x)
                || items@.take(i + 1).contains(x)) by {
                if items@.take(i + 1).contains(x) && x != y {
                    let k = choose|k: int| 0 <= k < i + 1 && #[trigger] items@.take(i + 1)[k] == x;
                    assert(items@.take(i as int)[k] == x);
                }
                if items@.take(i as int).contains(x) {
                    let k = choose|k: int| 0 <= k < i && #[trigger] items@.take(i as int)[k] == x;
                    assert(items@.take(i + 1)[k] == x);
                }
                if x == y {
                    assert(items@.take(i + 1)[i as int] == x);
                }
                if before.contains(y) {
                    assert(self.queue@ == before);
                } else {
                    assert(self.queue@ == before.push(y));
                    if self.queue@.contains(x) {
                        let k = choose|k: int| 0 <= k < self.queue@.len() && self.queue@[k] == x;
                        if k < before.len() {
                            assert(before[k] == x);
                        }
                    }
                    if before.contains(x) {
                        let k = choose|k: int| 0 <= k < before.len() && before[k] == x;
                        assert(self.queue@[k] == x);
                    }
                    if x == y {
                        assert(self.queue@[before.len() as int] == x);
                    }
                }
            }
            i = i + 1;
        }
        assert(items@.take(i as int) =~= items@);
    }

    /// Whether nothing is queued.
    pub fn is_empty(&self) -> (r: bool)
        ensures
            r == (self.queue@.len() == 0),
    {
        self.queue.len() == 0
    }

    /// Takes the first element.
    pub fn pop(&mut self) -> (r: Option<usize>)
        requires
            old(self).inv(),
        ensures
            final(self).inv(),
            old(self).queue@.len() == 0 ==> r is None && final(self).queue@ == old(self).queue@,
            old(self).queue@.len() > 0 ==> r == Some(old(self).queue@[0]) && final(self).queue@
                == old(self).queue@.drop_first(),
    {
        if self.queue.len() == 0 {
            return None;
        }
        let ghost before = self.queue@;
        let t = self.queue.remove(0);
        assert(self.queue@ =~= before.drop_first());
        assert(self.queue@.no_duplicates()) by {
            assert forall|a: int, b: int| 0 <= a < self.queue@.len() && 0 <= b < self.queue@.len() && a != b
                implies self.queue@[a] != self.queue@[b] by {
                assert(self.queue@[a] == before[a + 1] && self.queue@[b] == before[b + 1]);
            }
        }
        Some(t)
    }
}

/// The nodes of a graph in class order: each class's nodes, class after
/// class.
pub open spec fn class_order(classes: Seq<Seq<usize>>) -> Seq<usize>
    decreases classes.len(),
{
    if classes.len() == 0 {
        Seq::empty()
    } else {
        class_order(classes.drop_last()) + classes.last()
    }
}

/// The class members of a graph, by class.
pub open spec fn class_members(g: MiningGraph) -> Seq<Seq<usize>> {
    g.classes@.map_values(|c: Vec<usize>| c@)
}

/// `n` once for each of `children` that is class `c`.
pub open spec fn child_hits(n: usize, children: Seq<usize>, c: usize) -> Seq<usize>
    decreases children.len(),
{
    if children.len() == 0 {
        Seq::empty()
    } else {
        child_hits(n, children.drop_last(), c) + if children.last() == c {
            seq![n]
        } else {
            Seq::empty()
        }
    }
}

/// The parent nodes of class `c`, one entry per child reference, in the
/// order of `order`.
pub open spec fn parent_refs(g: MiningGraph, order: Seq<usize>, c: usize) -> Seq<usize>
    decreases order.len(),
{
    if order.len() == 0 {
        Seq::empty()
    } else {
        parent_refs(g, order.drop_last(), c) + child_hits(
            order.last(),
            g.nodes@[order.last() as int].children@,
            c,
        )
    }
}

/// The starting queue: the leaves in `order`, each once.
pub open spec fn initial_queue(g: MiningGraph, order: Seq<usize>) -> Seq<usize>
    decreases order.len(),
{
    if order.len() == 0 {
        Seq::empty()
    } else {
        let q = initial_queue(g, order.drop_last());
        let n = order.last();
        if g.nodes@[n as int].children@.len() == 0 && !q.contains(n) {
            q.push(n)
        } else {
            q
        }
    }
}

/// The counters, marks and queue of a traversal.
pub struct TopoState {
    pub outdegree: Seq<usize>,
    pub visited: Seq<bool>,
    pub queue: Seq<usize>,
}

/// One parent's child has been visited: its count drops (not below zero)
/// and, on reaching zero, an unvisited parent is queued.
pub open spec fn relax(st: TopoState, p: usize) -> TopoState {
    let d = if st.outdegree[p as int] > 0 {
        (st.outdegree[p as int] - 1) as usize
    } else {
        0usize
    };
    let o = st.outdegree.update(p as int, d);
    if d == 0 && !st.visited[p as int] {
        TopoState { outdegree: o, visited: st.visited.update(p as int, true), queue: st.queue.push(p) }
    } else {
        TopoState { outdegree: o, ..st }
    }
}

/// `relax` for each of `ps`, in order.
pub open spec fn relax_all(st: TopoState, ps: Seq<usize>) -> TopoState
    decreases ps.len(),
{
    if ps.len() == 0 {
        st
    } else {
        relax(relax_all(st, ps.drop_last()), ps.last())
    }
}

/// The nodes whose count is still positive, in order.
pub open spec fn positive_nodes(outdegree: Seq<usize>) -> Seq<usize>
    decreases outdegree.len(),
{
    if outdegree.len() == 0 {
        Seq::empty()
    } else {
        let rest = positive_nodes(outdegree.drop_last());
        if outdegree.last() > 0 {
            rest.push((outdegree.len() - 1) as usize)
        } else {
            rest
        }
    }
}

/// A traversal of an e-graph from its leaves towards its roots: a node
/// comes out once every reference to a child class has seen a child come
/// out; what is left when the queue runs dry lies on a cycle.
pub struct TopoSortEgraphIterator {
    pub node_class: Vec<usize>,
    pub outdegree: Vec<usize>,
    pub parents: Vec<Vec<usize>>,
    /// Every node ever queued, in order; those before `head` came out.
    pub queue: Vec<usize>,
    pub head: usize,
    pub visited: Vec<bool>,
    pub found_cycle: bool,
}

impl TopoSortEgraphIterator {
    /// The traversal's counters, marks and queue.
    pub open spec fn state(&self) -> TopoState {
        TopoState { outdegree: self.outdegree@, visited: self.visited@, queue: self.queue@ }
    }

    /// The traversal is consistent: a node is marked exactly when it was
    /// queued, it is queued at most once, and a node whose count reached
    /// zero is marked.
    pub open spec fn inv(&self) -> bool {
        &&& self.outdegree@.len() == self.node_class@.len()
        &&& self.visited@.len() == self.node_class@.len()
        &&& forall|n: int| 0 <= n < self.node_class@.len() ==> #[trigger] self.node_class@[n] < self.parents@.len()
        &&& forall|c: int, k: int|
            0 <= c < self.parents@.len() && 0 <= k < self.parents@[c]@.len() ==> #[trigger] self.parents@[c]@[k]
                < self.node_class@.len()
        &&& self.head <= self.queue@.len()
        &&& self.queue@.no_duplicates()
        &&& forall|k: int| 0 <= k < self.queue@.len() ==> #[trigger] self.queue@[k] < self.node_class@.len()
        &&& forall|n: usize| n < self.visited@.len() ==> (#[trigger] self.visited@[n as int] <==> self.queue@.contains(n))
        &&& forall|n: int| 0 <= n < self.outdegree@.len() ==> (#[trigger] self.outdegree@[n] == 0 ==> self.visited@[n])
    }

    /// The nodes that came out so far, in order.
    pub open spec fn yielded(&self) -> Seq<usize> {
        self.queue@.take(self.head as int)
    }
}

proof fn lemma_relax_inv(it: TopoSortEgraphIterator, st: TopoState, p: usize)
    requires
        st.outdegree.len() == it.node_class@.len(),
        st.visited.len() == it.node_class@.len(),
        p < it.node_class@.len(),
        st.queue.no_duplicates(),
        forall|k: int| 0 <= k < st.queue.len() ==> #[trigger] st.queue[k] < it.node_class@.len(),
        forall|n: usize| n < st.visited.len() ==> (#[trigger] st.visited[n as int] <==> st.queue.contains(n)),
        forall|n: int| 0 <= n < st.outdegree.len() ==> (#[trigger] st.outdegree[n] == 0 ==> st.visited[n]),
    ensures
        ({
            let s2 = relax(st, p);
            &&& s2.outdegree.len() == it.node_class@.len()
            &&& s2.visited.len() == it.node_class@.len()
            &&& s2.queue.no_duplicates()
            &&& s2.queue.len() >= st.queue.len()
            &&& forall|k: int| 0 <= k < st.queue.len() ==> #[trigger] s2.queue[k] == st.queue[k]
            &&& forall|k: int| 0 <= k < s2.queue.len() ==> #[trigger] s2.queue[k] < it.node_class@.len()
            &&& forall|n: usize| n < s2.visited.len() ==> (#[trigger] s2.visited[n as int] <==> s2.queue.contains(n))
            &&& forall|n: int| 0 <= n < s2.outdegree.len() ==> (#[trigger] s2.outdegree[n] == 0 ==> s2.visited[n])
        }),
{
    let s2 = relax(st, p);
    let d = if st.outdegree[p as int] > 0 {
        (st.outdegree[p as int] - 1) as usize
    } else {
        0usize
    };
    if d == 0 && !st.visited[p as int] {
        assert(!st.queue.contains(p));
        assert forall|a: int, b: int| 0 <= a < b < s2.queue.len() implies s2.queue[a] != s2.queue[b] by {
            if b == st.queue.len() {
                assert(st.queue.contains(st.queue[a]));
            }
        }
        assert forall|n: usize| n < s2.visited.len() implies (#[trigger] s2.visited[n as int] <==> s2.queue.contains(
            n,
        )) by {
            if n == p {
                assert(s2.queue[st.queue.len() as int] == p);
            } else {
                if s2.queue.contains(n) {
                    let k = choose|k: int| 0 <= k < s2.queue.len() && s2.queue[k] == n;
                    if k < st.queue.len() {
                        assert(st.queue[k] == n);
                    }
                }
                if st.queue.contains(n) {
                    let k = choose|k: int| 0 <= k < st.queue.len() && st.queue[k] == n;
                    assert(s2.queue[k] == n);
                }
            }
        }
    }
}

proof fn lemma_relax_all_inv(it: TopoSortEgraphIterator, st: TopoState, ps: Seq<usize>)
    requires
        st.outdegree.len() == it.node_class@.len(),
        st.visited.len() == it.node_class@.len(),
        forall|k: int| 0 <= k < ps.len() ==> #[trigger] ps[k] < it.node_class@.len(),
        st.queue.no_duplicates(),
        forall|k: int| 0 <= k < st.queue.len() ==> #[trigger] st.queue[k] < it.node_class@.len(),
        forall|n: usize| n < st.visited.len() ==> (#[trigger] st.visited[n as int] <==> st.queue.contains(n)),
        forall|n: int| 0 <= n < st.outdegree.len() ==> (#[trigger] st.outdegree[n] == 0 ==> st.visited[n]),
    ensures
        ({
            let s2 = relax_all(st, ps);
            &&& s2.outdegree.len() == it.node_class@.len()
            &&& s2.visited.len() == it.node_class@.len()
            &&& s2.queue.no_duplicates()
            &&& s2.queue.len() >= st.queue.len()
            &&& forall|k: int| 0 <= k < st.queue.len() ==> #[trigger] s2.queue[k] == st.queue[k]
            &&& forall|k: int| 0 <= k < s2.queue.len() ==> #[trigger] s2.queue[k] < it.node_class@.len()
            &&& forall|n: usize| n < s2.visited.len() ==> (#[trigger] s2.visited[n as int] <==> s2.queue.contains(n))
            &&& forall|n: int| 0 <= n < s2.outdegree.len() ==> (#[trigger] s2.outdegree[n] == 0 ==> s2.visited[n])
        }),
    decreases ps.len(),
{
    if ps.len() > 0 {
        lemma_relax_all_inv(it, st, ps.drop_last());
        let mid = relax_all(st, ps.drop_last());
        lemma_relax_inv(it, mid, ps.last());
        let s2 = relax(mid, ps.last());
        assert forall|k: int| 0 <= k < st.queue.len() implies #[trigger] s2.queue[k] == st.queue[k] by {
            assert(mid.queue[k] == st.queue[k]);
        }
    }
}

impl TopoSortEgraphIterator {
    /// Yields the next node, or once the list of nodes left on a cycle, or
    /// nothing.
    pub fn next(&mut self) -> (r: Option<Result<usize, Vec<usize>>>)
        requires
            old(self).inv(),
        ensures
            final(self).inv(),
            final(self).node_class == old(self).node_class,
            final(self).parents == old(self).parents,
            old(self).head < old(self).queue@.len() ==> {
                let n = old(self).queue@[old(self).head as int];
                &&& r == Some(Ok::<usize, Vec<usize>>(n))
                &&& final(self).head == old(self).head + 1
                &&& final(self).state() == relax_all(
                    old(self).state(),
                    old(self).parents@[old(self).node_class@[n as int] as int]@,
                )
                &&& final(self).found_cycle == old(self).found_cycle
            },
            old(self).head == old(self).queue@.len() ==> {
                &&& final(self).head == old(self).head
                &&& final(self).state() == old(self).state()
                &&& if !old(self).found_cycle && positive_nodes(old(self).outdegree@).len() > 0 {
                    &&& r matches Some(Err(rest)) && rest@ == positive_nodes(old(self).outdegree@)
                    &&& final(self).found_cycle
                } else {
                    r is None && final(self).found_cycle == old(self).found_cycle
                }
            },
            final(self).yielded().no_duplicates(),
            r is None && !final(self).found_cycle ==> forall|n: usize|
                n < final(self).node_class@.len() ==> #[trigger] final(self).yielded().contains(n),
    {
        if self.head < self.queue.len() {
            let nid = self.queue[self.head];
            self.head = self.head + 1;
            let c = self.node_class[nid];
            let ghost start = self.state();
            let ghost ps = self.parents@[c as int]@;
            let ghost it0 = *self;
            let mut k: usize = 0;
            assert(ps.take(0) =~= Seq::<usize>::empty());
            while k < self.parents[c].len()
                invariant
                    0 <= k <= ps.len(),
                    ps == self.parents@[c as int]@,
                    c < self.parents@.len(),
                    self.node_class == it0.node_class,
                    self.parents == it0.parents,
                    self.head == it0.head,
                    self.found_cycle == it0.found_cycle,
                    it0.inv(),
                    self.state() == relax_all(start, ps.take(k as int)),
                    start == it0.state(),
                decreases ps.len() - k,
            {
                let p = self.parents[c][k];
                proof {
                    assert(ps.take(k + 1).drop_last() =~= ps.take(k as int));
                    lemma_relax_all_inv(it0, start, ps.take(k as int));
                }
                let d = self.outdegree[p];
                let d2 = if d > 0 {
                    d - 1
                } else {
                    0
                };
                self.outdegree.set(p, d2);
                if d2 == 0 && !self.visited[p] {
                    self.visited.set(p, true);
                    self.queue.push(p);
                }
                k = k + 1;
            }
            assert(ps.take(k as int) =~= ps);
            proof {
                lemma_relax_all_inv(it0, start, ps);
            }
            proof {
                assert forall|a: int, b: int| 0 <= a < b < self.yielded().len() implies self.yielded()[a]
                    != self.yielded()[b] by {
                    assert(self.yielded()[a] == self.queue@[a] && self.yielded()[b] == self.queue@[b]);
                }
            }
            return Some(Ok(nid));
        }
        proof {
            assert forall|a: int, b: int| 0 <= a < b < self.yielded().len() implies self.yielded()[a]
                != self.yielded()[b] by {
                assert(self.yielded()[a] == self.queue@[a] && self.yielded()[b] == self.queue@[b]);
            }
            assert(self.yielded() =~= self.queue@);
        }
        if !self.found_cycle {
            let mut rest: Vec<usize> = Vec::new();
            let mut n: usize = 0;
            assert(self.outdegree@.take(0) =~= Seq::<usize>::empty());
            while n < self.outdegree.len()
                invariant
                    0 <= n <= self.outdegree@.len(),
                    rest@ == positive_nodes(self.outdegree@.take(n as int)),
                decreases self.outdegree.len() - n,
            {
                let ghost t = self.outdegree@.take(n + 1);
                assert(t.drop_last() =~= self.outdegree@.take(n as int));
                if self.outdegree[n] > 0 {
                    rest.push(n);
                }
                n = n + 1;
            }
            assert(self.outdegree@.take(n as int) =~= self.outdegree@);
            if rest.len() > 0 {
                self.found_cycle = true;
                return Some(Err(rest));
            }
            proof {
                lemma_no_positive(self.outdegree@);
                assert forall|m: usize| m < self.node_class@.len() implies #[trigger] self.yielded().contains(m) by {
                    assert(self.outdegree@[m as int] == 0);
                    assert(self.visited@[m as int]);
                }
            }
        }
        None
    }
}

proof fn lemma_no_positive(o: Seq<usize>)
    requires
        positive_nodes(o).len() == 0,
    ensures
        forall|n: int| 0 <= n < o.len() ==> #[trigger] o[n] == 0,
    decreases o.len(),
{
    if o.len() > 0 {
        lemma_no_positive(o.drop_last());
        assert forall|n: int| 0 <= n < o.len() implies #[trigger] o[n] == 0 by {
            if n < o.len() - 1 {
                assert(o.drop_last()[n] == o[n]);
            }
        }
    }
}

/// Every node is listed in its own class.
pub open spec fn members_complete(g: MiningGraph) -> bool {
    forall|n: int| 0 <= n < g.nodes@.len() ==> g.classes@[#[trigger] g.nodes@[n].class as int]@.contains(
        n as usize,
    )
}

proof fn lemma_class_order_members(cs: Seq<Seq<usize>>, c: int, x: usize)
    requires
        0 <= c < cs.len(),
        cs[c].contains(x),
    ensures
        class_order(cs).contains(x),
    decreases cs.len(),
{
    let o = class_order(cs);
    assert(o == class_order(cs.drop_last()) + cs.last());
    if c == cs.len() - 1 {
        let k = choose|k: int| 0 <= k < cs.last().len() && cs.last()[k] == x;
        assert(o[class_order(cs.drop_last()).len() + k] == x);
    } else {
        assert(cs.drop_last()[c] == cs[c]);
        lemma_class_order_members(cs.drop_last(), c, x);
        let k = choose|k: int| 0 <= k < class_order(cs.drop_last()).len() && class_order(cs.drop_last())[k] == x;
        assert(o[k] == x);
    }
}

proof fn lemma_class_order_bound(cs: Seq<Seq<usize>>, bound: nat)
    requires
        forall|c: int, j: int| 0 <= c < cs.len() && 0 <= j < cs[c].len() ==> #[trigger] cs[c][j] < bound,
    ensures
        forall|k: int| 0 <= k < class_order(cs).len() ==> #[trigger] class_order(cs)[k] < bound,
    decreases cs.len(),
{
    if cs.len() > 0 {
        assert forall|c: int, j: int| 0 <= c < cs.len() - 1 && 0 <= j < cs.drop_last()[c].len() implies #[trigger] cs.drop_last()[c][j] < bound by {
            assert(cs.drop_last()[c] == cs[c]);
        }
        lemma_class_order_bound(cs.drop_last(), bound);
        let o = class_order(cs);
        let h = class_order(cs.drop_last());
        assert forall|k: int| 0 <= k < o.len() implies #[trigger] o[k] < bound by {
            if k < h.len() {
                assert(o[k] == h[k]);
            } else {
                assert(o[k] == cs.last()[k - h.len()]);
            }
        }
    }
}

proof fn lemma_initial_queue(g: MiningGraph, order: Seq<usize>)
    requires
        forall|k: int| 0 <= k < order.len() ==> #[trigger] order[k] < g.nodes@.len(),
    ensures
        initial_queue(g, order).no_duplicates(),
        forall|k: int| 0 <= k < initial_queue(g, order).len() ==> order.contains(#[trigger] initial_queue(g, order)[k]),
        forall|k: int|
            0 <= k < order.len() && g.nodes@[#[trigger] order[k] as int].children@.len() == 0 ==> initial_queue(
                g,
                order,
            ).contains(order[k]),
    decreases order.len(),
{
    if order.len() > 0 {
        let d = order.drop_last();
        assert forall|k: int| 0 <= k < d.len() implies #[trigger] d[k] < g.nodes@.len() by {
            assert(d[k] == order[k]);
        }
        lemma_initial_queue(g, d);
        let q = initial_queue(g, d);
        let n = order.last();
        let q2 = initial_queue(g, order);
        if g.nodes@[n as int].children@.len() == 0 && !q.contains(n) {
            assert(q2 == q.push(n));
            assert forall|a: int, b: int| 0 <= a < b < q2.len() implies q2[a] != q2[b] by {
                if b == q.len() {
                    assert(q.contains(q[a]));
                }
            }
            assert forall|k: int| 0 <= k < q2.len() implies order.contains(#[trigger] q2[k]) by {
                if k < q.len() {
                    let j = choose|j: int| 0 <= j < d.len() && d[j] == q[k];
                    assert(order[j] == q[k]);
                } else {
                    assert(order[order.len() - 1] == n);
                }
            }
            assert forall|k: int|
                0 <= k < order.len() && g.nodes@[#[trigger] order[k] as int].children@.len() == 0 implies q2.contains(
                order[k],
            ) by {
                if k < d.len() {
                    assert(d[k] == order[k]);
                    let j = choose|j: int| 0 <= j < q.len() && q[j] == order[k];
                    assert(q2[j] == order[k]);
                } else {
                    assert(q2[q.len() as int] == n);
                }
            }
        } else {
            assert forall|k: int| 0 <= k < q2.len() implies order.contains(#[trigger] q2[k]) by {
                let j = choose|j: int| 0 <= j < d.len() && d[j] == q[k];
                assert(order[j] == q[k]);
            }
            assert forall|k: int|
                0 <= k < order.len() && g.nodes@[#[trigger] order[k] as int].children@.len() == 0 implies q2.contains(
                order[k],
            ) by {
                if k < d.len() {
                    assert(d[k] == order[k]);
                }
            }
        }
    }
}

/// The traversal of `g` before any step: consistent, nothing out yet, each
/// node's class and count of children, each class's parents (once per
/// child reference, in class order), the leaves queued and marked.
pub open spec fn initial_traversal(r: TopoSortEgraphIterator, g: MiningGraph) -> bool {
    &&& r.inv()
    &&& r.head == 0
    &&& !r.found_cycle
    &&& r.node_class@.len() == g.nodes@.len()
    &&& forall|n: int| 0 <= n < g.nodes@.len() ==> #[trigger] r.node_class@[n] == g.nodes@[n].class
    &&& forall|n: int| 0 <= n < g.nodes@.len() ==> #[trigger] r.outdegree@[n] == g.nodes@[n].children@.len()
    &&& r.parents@.len() == g.classes@.len()
    &&& forall|c: int|
        0 <= c < g.classes@.len() ==> (#[trigger] r.parents@[c])@ == parent_refs(
            g,
            class_order(class_members(g)),
            c as usize,
        )
    &&& r.queue@ == initial_queue(g, class_order(class_members(g)))
}

impl TopoSortEgraphIterator {
    /// The traversal of `g` before any step: each node's count is its
    /// number of children, each class lists its parents (once per child
    /// reference, in class order), and the leaves are queued.
    pub fn new(g: &MiningGraph) -> (r: Self)
        requires
            g.wf(),
            members_complete(*g),
        ensures
            initial_traversal(r, *g),
    {
        let nn = g.nodes.len();
        let mut node_class: Vec<usize> = Vec::new();
        let mut outdegree: Vec<usize> = Vec::new();
        let mut i: usize = 0;
        while i < nn
            invariant
                0 <= i <= nn,
                nn == g.nodes@.len(),
                node_class@.len() == i,
                outdegree@.len() == i,
                forall|n: int| 0 <= n < i ==> #[trigger] node_class@[n] == g.nodes@[n].class,
                forall|n: int| 0 <= n < i ==> #[trigger] outdegree@[n] == g.nodes@[n].children@.len(),
            decreases nn - i,
        {
            node_class.push(g.nodes[i].class);
            outdegree.push(g.nodes[i].children.len());
            i = i + 1;
        }
        // Nodes in class order.
        let ghost members = class_members(*g);
        let mut order: Vec<usize> = Vec::new();
        let mut c: usize = 0;
        assert(members.take(0) =~= Seq::<Seq<usize>>::empty());
        while c < g.classes.len()
            invariant
                0 <= c <= g.classes@.len(),
                members == class_members(*g),
                order@ == class_order(members.take(c as int)),
            decreases g.classes.len() - c,
        {
            let mut j: usize = 0;
            let ghost head = order@;
            while j < g.classes[c].len()
                invariant
                    0 <= j <= g.classes@[c as int]@.len(),
                    c < g.classes@.len(),
                    order@ == head + g.classes@[c as int]@.take(j as int),
                decreases g.classes@[c as int]@.len() - j,
            {
                order.push(g.classes[c][j]);
                assert(g.classes@[c as int]@.take(j + 1) =~= g.classes@[c as int]@.take(j as int).push(
                    g.classes@[c as int]@[j as int],
                ));
                j = j + 1;
            }
            assert(g.classes@[c as int]@.take(j as int) =~= g.classes@[c as int]@);
            let ghost t = members.take(c + 1);
            assert(t.drop_last() =~= members.take(c as int));
            assert(t.last() == g.classes@[c as int]@);
            c = c + 1;
        }
        assert(members.take(c as int) =~= members);
        let ghost ord = order@;
        proof {
            assert forall|cc: int, j: int| 0 <= cc < members.len() && 0 <= j < members[cc].len() implies #[trigger] members[cc][j] < g.nodes@.len() by {
                assert(members[cc] == g.classes@[cc]@);
            }
            lemma_class_order_bound(members, g.nodes@.len());
        }
        // Parents of each class.
        let mut parents: Vec<Vec<usize>> = Vec::new();
        let mut pc: usize = 0;
        while pc < g.classes.len()
            invariant
                0 <= pc <= g.classes@.len(),
                ord == order@,
                ord == class_order(members),
                members == class_members(*g),
                g.wf(),
                forall|k: int| 0 <= k < ord.len() ==> #[trigger] ord[k] < g.nodes@.len(),
                parents@.len() == pc,
                forall|x: int| 0 <= x < pc ==> (#[trigger] parents@[x])@ == parent_refs(*g, ord, x as usize),
                forall|x: int, k: int| 0 <= x < pc && 0 <= k < parents@[x]@.len() ==> #[trigger] parents@[x]@[k] < g.nodes@.len(),
            decreases g.classes.len() - pc,
        {
            let mut list: Vec<usize> = Vec::new();
            let mut oi: usize = 0;
            assert(ord.take(0) =~= Seq::<usize>::empty());
            while oi < order.len()
                invariant
                    0 <= oi <= ord.len(),
                    ord == order@,
                    g.wf(),
                    forall|k: int| 0 <= k < ord.len() ==> #[trigger] ord[k] < g.nodes@.len(),
                    list@ == parent_refs(*g, ord.take(oi as int), pc),
                    forall|k: int| 0 <= k < list@.len() ==> #[trigger] list@[k] < g.nodes@.len(),
                decreases ord.len() - oi,
            {
                let n = order[oi];
                let ghost head = list@;
                let mut j: usize = 0;
                assert(g.nodes@[n as int].children@.take(0) =~= Seq::<usize>::empty());
                while j < g.nodes[n].children.len()
                    invariant
                        0 <= j <= g.nodes@[n as int].children@.len(),
                        n < g.nodes@.len(),
                        list@ == head + child_hits(n, g.nodes@[n as int].children@.take(j as int), pc),
                        forall|k: int| 0 <= k < head.len() ==> #[trigger] head[k] < g.nodes@.len(),
                        forall|k: int| 0 <= k < list@.len() ==> #[trigger] list@[k] < g.nodes@.len(),
                    decreases g.nodes@[n as int].children@.len() - j,
                {
                    let ghost ch = g.nodes@[n as int].children@;
                    assert(ch.take(j + 1).drop_last() =~= ch.take(j as int));
                    assert(ch.take(j + 1).last() == ch[j as int]);
                    if g.nodes[n].children[j] == pc {
                        list.push(n);
                        assert(list@ =~= head + child_hits(n, ch.take(j + 1), pc));
                    } else {
                        assert(list@ =~= head + child_hits(n, ch.take(j + 1), pc));
                    }
                    j = j + 1;
                }
                assert(g.nodes@[n as int].children@.take(j as int) =~= g.nodes@[n as int].children@);
                let ghost t = ord.take(oi + 1);
                assert(t.drop_last() =~= ord.take(oi as int));
                assert(t.last() == n);
                oi = oi + 1;
            }
            assert(ord.take(oi as int) =~= ord);
            parents.push(list);
            pc = pc + 1;
        }
        // The leaves start the queue.
        let mut queue: Vec<usize> = Vec::new();
        let mut visited: Vec<bool> = Vec::new();
        let mut v: usize = 0;
        while v < nn
            invariant
                0 <= v <= nn,
                visited@.len() == v,
                forall|x: int| 0 <= x < v ==> !#[trigger] visited@[x],
            decreases nn - v,
        {
            visited.push(false);
            v = v + 1;
        }
        let mut oi: usize = 0;
        assert(ord.take(0) =~= Seq::<usize>::empty());
        while oi < order.len()
            invariant
                0 <= oi <= ord.len(),
                ord == order@,
                visited@.len() == nn,
                nn == g.nodes@.len(),
                forall|k: int| 0 <= k < ord.len() ==> #[trigger] ord[k] < g.nodes@.len(),
                queue@ == initial_queue(*g, ord.take(oi as int)),
                forall|x: usize| x < visited@.len() ==> (#[trigger] visited@[x as int] <==> queue@.contains(x)),
            decreases ord.len() - oi,
        {
            let n = order[oi];
            let ghost t = ord.take(oi + 1);
            assert(t.drop_last() =~= ord.take(oi as int));
            assert(t.last() == n);
            if g.nodes[n].children.len() == 0 && !visited[n] {
                let ghost before = queue@;
                visited.set(n, true);
                queue.push(n);
                assert forall|x: usize| x < visited@.len() implies (#[trigger] visited@[x as int] <==> queue@.contains(
                    x,
                )) by {
                    if x == n {
                        assert(queue@[before.len() as int] == n);
                    } else {
                        if queue@.contains(x) {
                            let k = choose|k: int| 0 <= k < queue@.len() && queue@[k] == x;
                            assert(k < before.len());
                            assert(before[k] == x);
                        }
                        if before.contains(x) {
                            let k = choose|k: int| 0 <= k < before.len() && before[k] == x;
                            assert(queue@[k] == x);
                        }
                    }
                }
            }
            oi = oi + 1;
        }
        assert(ord.take(oi as int) =~= ord);
        proof {
            lemma_initial_queue(*g, ord);
            assert forall|k: int| 0 <= k < queue@.len() implies #[trigger] queue@[k] < nn by {
                let j = choose|j: int| 0 <= j < ord.len() && ord[j] == queue@[k];
            }
            assert forall|n: int| 0 <= n < outdegree@.len() implies (#[trigger] outdegree@[n] == 0 ==> visited@[n]) by {
                if outdegree@[n] == 0 {
                    let cl = g.nodes@[n].class as int;
                    assert(members[cl] == g.classes@[cl]@);
                    lemma_class_order_members(members, cl, n as usize);
                    let j = choose|j: int| 0 <= j < ord.len() && ord[j] == n as usize;
                    assert(g.nodes@[ord[j] as int].children@.len() == 0);
                    assert(queue@.contains(ord[j]));
                    assert(visited@[(n as usize) as int]);
                }
            }
        }
        TopoSortEgraphIterator { node_class, outdegree, parents, queue, head: 0, visited, found_cycle: false }
    }
}

/// The leaves-to-roots traversal of an e-graph.
pub fn topo_sort_egragh(g: &MiningGraph) -> (r: TopoSortEgraphIterator)
    requires
        g.wf(),
        members_complete(*g),
    ensures
        initial_traversal(r, *g),
{
    TopoSortEgraphIterator::new(g)
}

} // verus!
