//! The structural plan of a one-instance change: which cone instances must
//! be evaluated again when one instance changes cell, found through the
//! consumers of the cone; and the sources, primary inputs and primary
//! consumers that the change touches.
use vstd::prelude::*;

use crate::circuit::{cone_marks, cone_source, in_cone, wired_view, CircuitStructure, WiredView};
use crate::topology::{count_true, lemma_count_true_bound, lemma_count_true_set};

verus! {

/// The adjacency lists as plain sequences.
pub open spec fn adj_view(adj: Seq<Vec<(usize, usize)>>) -> Seq<Seq<(usize, usize)>> {
    adj.map_values(|v: Vec<(usize, usize)>| v@)
}

/// The nodes that the entries of an adjacency list lead to.
pub open spec fn targets(es: Seq<(usize, usize)>) -> Seq<int> {
    es.map_values(|e: (usize, usize)| e.0 as int)
}

/// Some entry of `adj[x]` leads to `y`.
pub open spec fn adj_step(adj: Seq<Seq<(usize, usize)>>, x: int, y: int) -> bool {
    0 <= x < adj.len() && 0 <= y < adj.len() && targets(adj[x]).contains(y)
}

/// A walk that starts at a seed and follows the adjacency lists.
pub open spec fn is_walk(adj: Seq<Seq<(usize, usize)>>, seeds: Seq<usize>, path: Seq<int>) -> bool {
    &&& path.len() >= 1
    &&& 0 <= path[0] < adj.len()
    &&& seeds.contains(path[0] as usize)
    &&& forall|t: int| 0 <= t < path.len() - 1 ==> adj_step(adj, #[trigger] path[t], path[t + 1])
}

/// Node `x` is reached from a seed.
pub open spec fn reached(adj: Seq<Seq<(usize, usize)>>, seeds: Seq<usize>, x: int) -> bool {
    exists|path: Seq<int>| #[trigger] is_walk(adj, seeds, path) && path.last() == x
}

proof fn lemma_walk_marked(adj: Seq<Seq<(usize, usize)>>, seeds: Seq<usize>, path: Seq<int>, marks: Seq<bool>)
    requires
        is_walk(adj, seeds, path),
        adj.len() <= usize::MAX,
        marks.len() == adj.len(),
        forall|r: int| 0 <= r < seeds.len() && seeds[r] < adj.len() ==> marks[seeds[r] as int],
        forall|i: int, s: int| #[trigger] adj_step(adj, i, s) && marks[i] ==> marks[s],
    ensures
        marks[path.last()],
    decreases path.len(),
{
    if path.len() == 1 {
        let r = choose|r: int| 0 <= r < seeds.len() && seeds[r] == path[0] as usize;
        assert(seeds[r] as int == path[0]);
        assert(marks[seeds[r] as int]);
    } else {
        let prefix = path.drop_last();
        assert forall|t: int| 0 <= t < prefix.len() - 1 implies adj_step(adj, #[trigger] prefix[t], prefix[t + 1]) by {
            assert(prefix[t] == path[t] && prefix[t + 1] == path[t + 1]);
        }
        lemma_walk_marked(adj, seeds, prefix, marks);
        assert(adj_step(adj, path[path.len() - 2], path[path.len() - 1]));
    }
}

/// Marks every node reached from the seeds along the adjacency lists.
pub fn closure_marks(adj: &Vec<Vec<(usize, usize)>>, seeds: &Vec<usize>) -> (m: Vec<bool>)
    requires
        forall|x: int, e: int| 0 <= x < adj@.len() && 0 <= e < adj@[x]@.len() ==> (#[trigger] adj@[x]@[e]).0 < adj@.len(),
    ensures
        m@.len() == adj@.len(),
        forall|i: int| 0 <= i < m@.len() ==> #[trigger] m@[i] == reached(adj_view(adj@), seeds@, i),
{
    let ghost av = adj_view(adj@);
    let ghost sv = seeds@;
    let n = adj.len();
    let mut marks: Vec<bool> = Vec::new();
    let mut i: usize = 0;
    while i < n
        invariant
            0 <= i <= n,
            marks@.len() == i,
            forall|q: int| 0 <= q < i ==> !(#[trigger] marks@[q]),
        decreases n - i,
    {
        marks.push(false);
        i = i + 1;
    }
    let mut stack: Vec<usize> = Vec::new();
    let mut k: usize = 0;
    while k < seeds.len()
        invariant
            0 <= k <= seeds@.len(),
            av == adj_view(adj@),
            sv == seeds@,
            n == av.len(),
            marks@.len() == n,
            forall|j: int| 0 <= j < stack@.len() ==> (#[trigger] stack@[j]) < n && marks@[stack@[j] as int],
            forall|q: int| 0 <= q < n && #[trigger] marks@[q] ==> reached(av, sv, q),
            forall|q: int| 0 <= q < n && #[trigger] marks@[q] ==> stack@.contains(q as usize),
            forall|t: int| 0 <= t < k && sv[t] < n ==> marks@[#[trigger] sv[t] as int],
        decreases seeds.len() - k,
    {
        let x = seeds[k];
        if x < n && !marks[x] {
            proof {
                let path = seq![x as int];
                assert(sv[k as int] == x);
                assert(is_walk(av, sv, path));
            }
            let ghost m_before = marks@;
            let ghost s_before = stack@;
            marks.set(x, true);
            stack.push(x);
            proof {
                assert forall|q: int| 0 <= q < n && #[trigger] marks@[q] implies stack@.contains(q as usize) by {
                    if q == x as int {
                        assert(stack@[stack@.len() - 1] == x);
                    } else {
                        assert(m_before[q]);
                        let j = choose|j: int| 0 <= j < s_before.len() && s_before[j] == q as usize;
                        assert(stack@[j] == q as usize);
                    }
                }
            }
        }
        k = k + 1;
    }
    proof {
        lemma_count_true_bound(marks@);
    }
    while stack.len() > 0
        invariant
            av == adj_view(adj@),
            sv == seeds@,
            n == av.len(),
            n == adj@.len(),
            forall|x: int, e: int| 0 <= x < adj@.len() && 0 <= e < adj@[x]@.len() ==> (#[trigger] adj@[x]@[e]).0 < adj@.len(),
            marks@.len() == n,
            forall|j: int| 0 <= j < stack@.len() ==> (#[trigger] stack@[j]) < n && marks@[stack@[j] as int],
            forall|q: int| 0 <= q < n && #[trigger] marks@[q] ==> reached(av, sv, q),
            forall|q: int, s: int| #[trigger] adj_step(av, q, s) && marks@[q] && !stack@.contains(q as usize) ==> marks@[s],
            forall|t: int| 0 <= t < sv.len() && sv[t] < n ==> marks@[#[trigger] sv[t] as int],
            count_true(marks@) <= n,
        decreases 2 * (n - count_true(marks@)) + stack@.len(),
    {
        let ghost before = stack@;
        let top = stack.len() - 1;
        let q = stack[top];
        stack.pop();
        assert(before =~= stack@.push(q));
        let outs = &adj[q];
        assert(av[q as int] == outs@);
        let ghost stack0 = stack@;
        let ghost m0 = 2 * (n - count_true(marks@)) + stack@.len();
        proof {
            assert forall|x: int, s: int| #[trigger] adj_step(av, x, s) && marks@[x] && x != q && !stack0.contains(x as usize) implies marks@[s] by {
                if before.contains(x as usize) {
                    let j = choose|j: int| 0 <= j < before.len() && before[j] == x as usize;
                    if j < stack0.len() {
                        assert(stack0[j] == x as usize);
                    }
                }
            }
        }
        let mut p: usize = 0;
        while p < outs.len()
            invariant
                av == adj_view(adj@),
                sv == seeds@,
                n == av.len(),
                n == adj@.len(),
                q < n,
                marks@[q as int],
                outs@ == av[q as int],
                forall|e: int| 0 <= e < outs@.len() ==> (#[trigger] outs@[e]).0 < n,
                0 <= p <= outs@.len(),
                marks@.len() == n,
                stack0.len() <= stack@.len(),
                forall|j: int| 0 <= j < stack0.len() ==> stack@[j] == stack0[j],
                2 * (n - count_true(marks@)) + stack@.len() <= m0,
                forall|j: int| 0 <= j < stack@.len() ==> (#[trigger] stack@[j]) < n && marks@[stack@[j] as int],
                forall|x: int| 0 <= x < n && #[trigger] marks@[x] ==> reached(av, sv, x),
                forall|x: int, s: int| #[trigger] adj_step(av, x, s) && marks@[x] && x != q && !stack@.contains(x as usize) ==> marks@[s],
                forall|t: int| 0 <= t < sv.len() && sv[t] < n ==> marks@[#[trigger] sv[t] as int],
                forall|t: int| 0 <= t < p ==> marks@[(#[trigger] outs@[t]).0 as int],
                count_true(marks@) <= n,
            decreases outs.len() - p,
        {
            let s = outs[p].0;
            if !marks[s] {
                proof {
                    let path = choose|path: Seq<int>| #[trigger] is_walk(av, sv, path) && path.last() == q as int;
                    let longer = path.push(s as int);
                    assert(av[q as int][p as int].0 == s);
                    assert(targets(av[q as int])[p as int] == s as int);
                    assert(adj_step(av, q as int, s as int));
                    assert forall|t: int| 0 <= t < longer.len() - 1 implies adj_step(av, #[trigger] longer[t], longer[t + 1]) by {
                        if t < path.len() - 1 {
                            assert(longer[t] == path[t] && longer[t + 1] == path[t + 1]);
                        }
                    }
                    assert(is_walk(av, sv, longer));
                    lemma_count_true_set(marks@, s as int);
                    lemma_count_true_bound(marks@.update(s as int, true));
                }
                let ghost m_before = marks@;
                let ghost s_before = stack@;
                marks.set(s, true);
                stack.push(s);
                proof {
                    assert(stack@[stack@.len() - 1] == s);
                    assert(stack@.contains(s));
                    assert forall|x: int, y: int| #[trigger] adj_step(av, x, y) && marks@[x] && x != q && !stack@.contains(x as usize) implies marks@[y] by {
                        assert(x != s as int);
                        assert(m_before[x]);
                        if s_before.contains(x as usize) {
                            let j = choose|j: int| 0 <= j < s_before.len() && s_before[j] == x as usize;
                            assert(stack@[j] == x as usize);
                        }
                    }
                }
            }
            p = p + 1;
        }
        proof {
            assert forall|x: int, s: int| #[trigger] adj_step(av, x, s) && marks@[x] && !stack@.contains(x as usize) implies marks@[s] by {
                if x == q {
                    let e = choose|e: int| 0 <= e < targets(av[x]).len() && #[trigger] targets(av[x])[e] == s;
                    assert(outs@[e].0 as int == s);
                }
            }
        }
    }
    proof {
        assert forall|x: int, s: int| #[trigger] adj_step(av, x, s) && marks@[x] implies marks@[s] by {
            assert(!stack@.contains(x as usize));
        }
        assert forall|x: int| 0 <= x < marks@.len() implies #[trigger] marks@[x] == reached(av, sv, x) by {
            if reached(av, sv, x) {
                let path = choose|path: Seq<int>| #[trigger] is_walk(av, sv, path) && path.last() == x;
                lemma_walk_marked(av, sv, path, marks@);
            }
        }
    }
    marks
}

/// The indices `i < n` with `m[i]`, in increasing order.
pub open spec fn marked_list(m: Seq<bool>, n: int) -> Seq<usize>
    decreases n,
{
    if n <= 0 {
        Seq::empty()
    } else if m[n - 1] {
        marked_list(m, n - 1).push((n - 1) as usize)
    } else {
        marked_list(m, n - 1)
    }
}

/// The cone instances that feed the changed instance.
pub open spec fn source_marks(ws: Seq<WiredView>, roots: Seq<usize>, changed: int) -> Seq<bool> {
    Seq::new(
        ws.len(),
        |s: int|
            exists|p: int|
                0 <= p < ws[changed].input_sources.len() && #[trigger] cone_source(ws, roots, changed, p) == Some(
                    s as usize,
                ),
    )
}

/// The primary inputs that the changed instance reads.
pub open spec fn primary_marks(ws: Seq<WiredView>, changed: int, inputs: nat) -> Seq<bool> {
    Seq::new(inputs, |j: int| ws[changed].input_primary_index.contains(Some(j as usize)))
}

/// The cone instances that read a primary input the changed instance reads.
pub open spec fn primary_consumer_marks(
    ws: Seq<WiredView>,
    changed: int,
    pcons: Seq<Seq<(usize, usize)>>,
) -> Seq<bool> {
    Seq::new(
        ws.len(),
        |k: int|
            exists|j: int, e: int|
                0 <= j < pcons.len() && ws[changed].input_primary_index.contains(Some(j as usize)) && 0 <= e
                    < pcons[j].len() && (#[trigger] pcons[j][e]).0 == k,
    )
}

/// The members of `topo[..n]` reached from the seeds, in order.
pub open spec fn reached_in(adj: Seq<Seq<(usize, usize)>>, seeds: Seq<usize>, topo: Seq<usize>, n: int) -> Seq<usize>
    decreases n,
{
    if n <= 0 {
        Seq::empty()
    } else if reached(adj, seeds, topo[n - 1] as int) {
        reached_in(adj, seeds, topo, n - 1).push(topo[n - 1])
    } else {
        reached_in(adj, seeds, topo, n - 1)
    }
}

/// What changing the cell of one instance touches.
#[derive(Debug)]
pub struct DeltaPlan {
    /// The instances to evaluate again, in evaluation order.
    pub affected_topo: Vec<usize>,
    /// The cone instances feeding the changed one, in increasing order.
    pub changed_sources: Vec<usize>,
    /// The cone instances reading a primary input the changed one reads.
    pub changed_primary_consumers: Vec<usize>,
    /// The primary inputs the changed instance reads, in increasing order.
    pub changed_primaries: Vec<usize>,
    pub touches_primary: bool,
}

/// The plan of changing instance `changed`, given the evaluation order
/// `topo`, the consumers of every instance (`consumers`) and of every
/// primary input (`primary_consumers`): the changed instance, its cone
/// sources and the consumers of its primary inputs are affected, and so is
/// every consumer of an affected instance.
pub open spec fn delta_seeds(
    ws: Seq<WiredView>,
    roots: Seq<usize>,
    changed: int,
    pcons: Seq<Seq<(usize, usize)>>,
) -> Seq<usize> {
    seq![changed as usize] + marked_list(source_marks(ws, roots, changed), ws.len() as int) + marked_list(
        primary_consumer_marks(ws, changed, pcons),
        ws.len() as int,
    )
}

fn list_marked(m: &Vec<bool>) -> (r: Vec<usize>)
    ensures
        r@ == marked_list(m@, m@.len() as int),
{
    let mut r: Vec<usize> = Vec::new();
    let mut i: usize = 0;
    while i < m.len()
        invariant
            0 <= i <= m@.len(),
            r@ == marked_list(m@, i as int),
        decreases m.len() - i,
    {
        if m[i] {
            r.push(i);
        }
        i = i + 1;
    }
    r
}

fn falses(n: usize) -> (r: Vec<bool>)
    ensures
        r@.len() == n,
        forall|i: int| 0 <= i < n ==> !(#[trigger] r@[i]),
{
    let mut r: Vec<bool> = Vec::new();
    let mut i: usize = 0;
    while i < n
        invariant
            0 <= i <= n,
            r@.len() == i,
            forall|q: int| 0 <= q < i ==> !(#[trigger] r@[q]),
        decreases n - i,
    {
        r.push(false);
        i = i + 1;
    }
    r
}

/// The plan of changing the cell of instance `changed` (see `delta_seeds`).
pub fn probability_delta_plan(
    c: &CircuitStructure,
    topo: &Vec<usize>,
    consumers: &Vec<Vec<(usize, usize)>>,
    primary_consumers: &Vec<Vec<(usize, usize)>>,
    changed: usize,
) -> (r: DeltaPlan)
    requires
        changed < c@.instances.len(),
        consumers@.len() == c@.instances.len(),
        forall|x: int, e: int|
            0 <= x < consumers@.len() && 0 <= e < consumers@[x]@.len() ==> (#[trigger] consumers@[x]@[e]).0
                < consumers@.len(),
        forall|j: int, e: int|
            0 <= j < primary_consumers@.len() && 0 <= e < primary_consumers@[j]@.len() ==> (
            #[trigger] primary_consumers@[j]@[e]).0 < c@.instances.len(),
        forall|p: int|
            0 <= p < c@.instances[changed as int].input_primary_index.len() && (
            #[trigger] c@.instances[changed as int].input_primary_index[p]) is Some ==> c@.instances[changed as int].input_primary_index[p]->0
                < primary_consumers@.len(),
        forall|t: int| 0 <= t < topo@.len() ==> #[trigger] topo@[t] < c@.instances.len(),
    ensures
        ({
            let ws = c@.instances;
            let roots = c@.roots;
            let pcons = adj_view(primary_consumers@);
            let seeds = delta_seeds(ws, roots, changed as int, pcons);
            &&& r.changed_sources@ == marked_list(source_marks(ws, roots, changed as int), ws.len() as int)
            &&& r.changed_primaries@ == marked_list(
                primary_marks(ws, changed as int, primary_consumers@.len()),
                primary_consumers@.len() as int,
            )
            &&& r.changed_primary_consumers@ == marked_list(primary_consumer_marks(ws, changed as int, pcons), ws.len() as int)
            &&& r.touches_primary == (r.changed_primaries@.len() > 0)
            &&& r.affected_topo@ == reached_in(adj_view(consumers@), seeds, topo@, topo@.len() as int)
        }),
{
    let ghost ws = c@.instances;
    let ghost roots = c@.roots;
    let ghost pcons = adj_view(primary_consumers@);
    let n = consumers.len();
    let cm = cone_marks(c);
    assert(ws[changed as int] == wired_view(c.instances@[changed as int]));
    let srcs = &c.instances[changed].input_sources;
    let mut sm = falses(n);
    let mut p: usize = 0;
    while p < srcs.len()
        invariant
            0 <= p <= srcs@.len(),
            n == ws.len(),
            changed < n,
            srcs@ == ws[changed as int].input_sources,
            cm@.len() == n,
            forall|i: int| 0 <= i < n ==> #[trigger] cm@[i] == in_cone(ws, roots, i),
            sm@.len() == n,
            forall|s: int|
                0 <= s < n ==> #[trigger] sm@[s] == exists|q: int|
                    0 <= q < p && #[trigger] cone_source(ws, roots, changed as int, q) == Some(s as usize),
        decreases srcs.len() - p,
    {
        match srcs[p] {
            Some(x) => {
                if x < n && cm[x] {
                    assert(cone_source(ws, roots, changed as int, p as int) == Some(x));
                    sm.set(x, true);
                } else {
                    assert(cone_source(ws, roots, changed as int, p as int) is None);
                }
            },
            None => {
                assert(cone_source(ws, roots, changed as int, p as int) is None);
            },
        }
        p = p + 1;
    }
    assert(sm@ =~= source_marks(ws, roots, changed as int));
    let np = primary_consumers.len();
    let prims = &c.instances[changed].input_primary_index;
    let mut pm = falses(np);
    let mut p: usize = 0;
    while p < prims.len()
        invariant
            0 <= p <= prims@.len(),
            prims@ == ws[changed as int].input_primary_index,
            forall|q: int| 0 <= q < prims@.len() && (#[trigger] prims@[q]) is Some ==> prims@[q]->0 < np,
            pm@.len() == np,
            forall|j: int| 0 <= j < np ==> #[trigger] pm@[j] == prims@.take(p as int).contains(Some(j as usize)),
        decreases prims.len() - p,
    {
        let ghost before = prims@.take(p as int);
        assert(prims@.take(p + 1) =~= before.push(prims@[p as int]));
        let ghost pm0 = pm@;
        match prims[p] {
            Some(j) => {
                pm.set(j, true);
            },
            None => {},
        }
        proof {
            let after = prims@.take(p + 1);
            assert forall|a: int| 0 <= a < np implies #[trigger] pm@[a] == after.contains(Some(a as usize)) by {
                if prims@[p as int] == Some(a as usize) {
                    assert(after[p as int] == Some(a as usize));
                } else {
                    assert(pm@[a] == pm0[a]);
                    if after.contains(Some(a as usize)) {
                        let k = choose|k: int| 0 <= k < after.len() && after[k] == Some(a as usize);
                        assert(before[k] == Some(a as usize));
                    }
                    if before.contains(Some(a as usize)) {
                        let k = choose|k: int| 0 <= k < before.len() && before[k] == Some(a as usize);
                        assert(after[k] == Some(a as usize));
                    }
                }
            }
        }
        p = p + 1;
    }
    assert(prims@.take(p as int) =~= prims@);
    assert(pm@ =~= primary_marks(ws, changed as int, np as nat));
    let mut cmk = falses(n);
    let mut j: usize = 0;
    while j < np
        invariant
            0 <= j <= np,
            np == pcons.len(),
            pcons == adj_view(primary_consumers@),
            n == ws.len(),
            pm@ == primary_marks(ws, changed as int, np as nat),
            forall|a: int, e: int|
                0 <= a < primary_consumers@.len() && 0 <= e < primary_consumers@[a]@.len() ==> (
                #[trigger] primary_consumers@[a]@[e]).0 < n,
            cmk@.len() == n,
            forall|k: int|
                0 <= k < n ==> #[trigger] cmk@[k] == exists|a: int, e: int|
                    0 <= a < j && ws[changed as int].input_primary_index.contains(Some(a as usize)) && 0 <= e
                        < pcons[a].len() && (#[trigger] pcons[a][e]).0 == k,
        decreases np - j,
    {
        if pm[j] {
            let list = &primary_consumers[j];
            assert(pcons[j as int] == list@);
            let mut e: usize = 0;
            while e < list.len()
                invariant
                    0 <= e <= list@.len(),
                    j < np,
                    np == pcons.len(),
                    n == ws.len(),
                    pcons[j as int] == list@,
                    pm@ == primary_marks(ws, changed as int, np as nat),
                    pm@[j as int],
                    forall|q: int| 0 <= q < list@.len() ==> (#[trigger] list@[q]).0 < n,
                    cmk@.len() == n,
                    forall|k: int|
                        0 <= k < n ==> #[trigger] cmk@[k] == ((exists|a: int, f: int|
                            0 <= a < j && ws[changed as int].input_primary_index.contains(Some(a as usize)) && 0 <= f
                                < pcons[a].len() && (#[trigger] pcons[a][f]).0 == k) || exists|f: int|
                            0 <= f < e && (#[trigger] list@[f]).0 == k),
                decreases list.len() - e,
            {
                cmk.set(list[e].0, true);
                e = e + 1;
            }
            proof {
                assert forall|k: int| 0 <= k < n implies #[trigger] cmk@[k] == exists|a: int, f: int|
                    0 <= a < j + 1 && ws[changed as int].input_primary_index.contains(Some(a as usize)) && 0 <= f
                        < pcons[a].len() && (#[trigger] pcons[a][f]).0 == k by {
                    if exists|f: int| 0 <= f < e && (#[trigger] list@[f]).0 == k {
                        let f = choose|f: int| 0 <= f < e && (#[trigger] list@[f]).0 == k;
                        assert(pcons[j as int][f].0 == k);
                    }
                    if exists|a: int, f: int|
                        0 <= a < j + 1 && ws[changed as int].input_primary_index.contains(Some(a as usize)) && 0 <= f
                            < pcons[a].len() && (#[trigger] pcons[a][f]).0 == k {
                        let (a, f) = choose|a: int, f: int|
                            0 <= a < j + 1 && ws[changed as int].input_primary_index.contains(Some(a as usize)) && 0 <= f
                                < pcons[a].len() && (#[trigger] pcons[a][f]).0 == k;
                        if a == j {
                            assert(list@[f].0 == k);
                        }
                    }
                }
            }
        } else {
            proof {
                assert forall|k: int| 0 <= k < n implies #[trigger] cmk@[k] == exists|a: int, f: int|
                    0 <= a < j + 1 && ws[changed as int].input_primary_index.contains(Some(a as usize)) && 0 <= f
                        < pcons[a].len() && (#[trigger] pcons[a][f]).0 == k by {
                    if exists|a: int, f: int|
                        0 <= a < j + 1 && ws[changed as int].input_primary_index.contains(Some(a as usize)) && 0 <= f
                            < pcons[a].len() && (#[trigger] pcons[a][f]).0 == k {
                        let (a, f) = choose|a: int, f: int|
                            0 <= a < j + 1 && ws[changed as int].input_primary_index.contains(Some(a as usize)) && 0 <= f
                                < pcons[a].len() && (#[trigger] pcons[a][f]).0 == k;
                        if a == j {
                            assert(pm@[j as int]);
                        }
                    }
                }
            }
        }
        j = j + 1;
    }
    assert(cmk@ =~= primary_consumer_marks(ws, changed as int, pcons));
    let changed_sources = list_marked(&sm);
    let changed_primaries = list_marked(&pm);
    let changed_primary_consumers = list_marked(&cmk);
    let mut seeds: Vec<usize> = Vec::new();
    seeds.push(changed);
    let mut i: usize = 0;
    while i < changed_sources.len()
        invariant
            0 <= i <= changed_sources@.len(),
            seeds@ == seq![changed] + changed_sources@.take(i as int),
        decreases changed_sources.len() - i,
    {
        seeds.push(changed_sources[i]);
        assert(changed_sources@.take(i + 1) =~= changed_sources@.take(i as int).push(changed_sources@[i as int]));
        i = i + 1;
    }
    assert(changed_sources@.take(i as int) =~= changed_sources@);
    let ghost mid = seeds@;
    let mut i: usize = 0;
    while i < changed_primary_consumers.len()
        invariant
            0 <= i <= changed_primary_consumers@.len(),
            seeds@ == mid + changed_primary_consumers@.take(i as int),
        decreases changed_primary_consumers.len() - i,
    {
        seeds.push(changed_primary_consumers[i]);
        assert(changed_primary_consumers@.take(i + 1) =~= changed_primary_consumers@.take(i as int).push(
            changed_primary_consumers@[i as int],
        ));
        i = i + 1;
    }
    assert(changed_primary_consumers@.take(i as int) =~= changed_primary_consumers@);
    assert(seeds@ =~= delta_seeds(ws, roots, changed as int, pcons));
    let aff = closure_marks(consumers, &seeds);
    let mut affected_topo: Vec<usize> = Vec::new();
    let mut t: usize = 0;
    while t < topo.len()
        invariant
            0 <= t <= topo@.len(),
            aff@.len() == n,
            forall|x: int| 0 <= x < aff@.len() ==> #[trigger] aff@[x] == reached(adj_view(consumers@), seeds@, x),
            forall|q: int| 0 <= q < topo@.len() ==> #[trigger] topo@[q] < n,
            affected_topo@ == reached_in(adj_view(consumers@), seeds@, topo@, t as int),
        decreases topo.len() - t,
    {
        if aff[topo[t]] {
            affected_topo.push(topo[t]);
        }
        t = t + 1;
    }
    let touches_primary = changed_primaries.len() > 0;
    DeltaPlan { affected_topo, changed_sources, changed_primary_consumers, changed_primaries, touches_primary }
}

} // verus!
