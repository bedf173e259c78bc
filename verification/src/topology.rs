//! Occurrence-anchored physicalization for topology-changing rewrites.
//!
//! A logical e-class is deliberately not used as physical identity.  Every
//! original mapped-netlist occurrence is an independent anchor.  A selected
//! realization is a tree-shaped cell fragment whose boundary references other
//! original anchors.  Original anchors are memoized (preserving real fanout),
//! while cells created inside a fragment are materialized once per explicit
//! expression occurrence and receive a stable `anchor/path` identity.
use vstd::prelude::*;

use crate::language::{cell_from_text, cell_text, CellModel, StdCellType};
use crate::netlist::{acyclic, contains_index, fanins_of, is_topological_order, toposort_nodes, petgraph_toposort, Netlist};
use crate::text::{decimal, push_decimal, push_str, str_equals, string_of};

verus! {

/// A realization of one anchor: either the output of another original
/// occurrence, or an explicit standard-cell occurrence over sub-realizations.
#[derive(Debug, PartialEq, Eq)]
pub enum TopologyExpr {
    /// Use the output of another original physical occurrence as a boundary.
    Anchor(usize),
    /// Materialize an explicit standard-cell occurrence.
    Cell { op: String, children: Vec<TopologyExpr> },
}

impl TopologyExpr {
    /// An explicit cell occurrence.
    pub fn cell(op: &str, children: Vec<TopologyExpr>) -> (r: TopologyExpr)
        ensures
            r matches TopologyExpr::Cell { op: o, children: c } && o@ == op@ && c == children,
    {
        TopologyExpr::Cell { op: op.to_owned(), children }
    }
}

/// The identity of a materialized occurrence: an original anchor, or a cell
/// created inside the realization of `anchor` at the given child path.
#[derive(Debug, PartialEq, Eq, PartialOrd, Ord)]
pub enum PhysicalOccurrenceId {
    Original(usize),
    Generated { anchor: usize, path: Vec<usize> },
}

/// The mathematical value of an occurrence identity.
pub enum OccurrenceModel {
    Original(usize),
    Generated(usize, Seq<usize>),
}

impl View for PhysicalOccurrenceId {
    type V = OccurrenceModel;

    open spec fn view(&self) -> OccurrenceModel {
        match self {
            PhysicalOccurrenceId::Original(a) => OccurrenceModel::Original(*a),
            PhysicalOccurrenceId::Generated { anchor, path } => OccurrenceModel::Generated(
                *anchor,
                path@,
            ),
        }
    }
}

/// A deterministic realization map from anchors to expressions.  Anchors
/// without an entry keep their exact original one-cell form.
pub struct TopologySelection {
    pub choices: Vec<(usize, TopologyExpr)>,
}

/// The expression chosen for `anchor`, if any (the first entry for it).
pub open spec fn choice_for(choices: Seq<(usize, TopologyExpr)>, anchor: usize) -> Option<
    TopologyExpr,
>
    decreases choices.len(),
{
    if choices.len() == 0 {
        None
    } else if choices[0].0 == anchor {
        Some(choices[0].1)
    } else {
        choice_for(choices.drop_first(), anchor)
    }
}

/// Why a selection cannot be materialized.
#[derive(Debug, PartialEq, Eq, Clone, Copy)]
pub enum MaterializeError {
    /// The selection makes the anchor depend on itself.
    Cycle(usize),
    /// The anchor is not a node of the source netlist.
    Unknown(usize),
    /// A fixed leaf or constant was given a structural choice.
    LeafChoice(usize),
    /// A primary-output wrapper was given a structural choice.
    OutputChoice(usize),
    /// A primary-output wrapper with the given number of inputs.
    OutputArity(usize, usize),
}

/// The state of a materialization: the netlist built so far, the anchors
/// materialized so far, and the identities handed out.
#[verifier::ext_equal]
pub struct MatModel {
    pub nodes: Seq<CellModel>,
    pub edges: Seq<(usize, usize)>,
    pub roots: Seq<usize>,
    pub leaves: Seq<usize>,
    pub memo: Seq<Option<usize>>,
    pub ids: Seq<OccurrenceModel>,
    pub created: Seq<OccurrenceModel>,
}

/// The number of `true` entries.
pub open spec fn count_true(s: Seq<bool>) -> nat
    decreases s.len(),
{
    if s.len() == 0 {
        0
    } else {
        count_true(s.drop_last()) + if s.last() {
            1nat
        } else {
            0nat
        }
    }
}

pub proof fn lemma_count_true_bound(s: Seq<bool>)
    ensures
        count_true(s) <= s.len(),
    decreases s.len(),
{
    if s.len() > 0 {
        lemma_count_true_bound(s.drop_last());
    }
}

pub proof fn lemma_count_true_set(s: Seq<bool>, i: int)
    requires
        0 <= i < s.len(),
        !s[i],
    ensures
        count_true(s.update(i, true)) == count_true(s) + 1,
    decreases s.len(),
{
    let t = s.update(i, true);
    if i == s.len() - 1 {
        assert(t.drop_last() =~= s.drop_last());
    } else {
        assert(t.drop_last() =~= s.drop_last().update(i, true));
        lemma_count_true_set(s.drop_last(), i);
    }
}

/// The size of an expression; a cell is larger than the sum of its children.
pub open spec fn expr_size(e: TopologyExpr) -> nat
    decreases e,
{
    match e {
        TopologyExpr::Anchor(_) => 1,
        TopologyExpr::Cell { children, .. } => 2 + children_size(children@),
    }
}

pub open spec fn children_size(cs: Seq<TopologyExpr>) -> nat
    decreases cs,
{
    if cs.len() == 0 {
        0
    } else {
        children_size(cs.drop_last()) + expr_size(cs.last())
    }
}

pub proof fn lemma_child_smaller(cs: Seq<TopologyExpr>, i: int)
    requires
        0 <= i < cs.len(),
    ensures
        expr_size(cs[i]) <= children_size(cs),
    decreases cs.len(),
{
    if i < cs.len() - 1 {
        lemma_child_smaller(cs.drop_last(), i);
        assert(cs.drop_last()[i] == cs[i]);
    }
}

/// The measure that bounds the materialization recursion.
pub open spec fn open_anchors(n: nat, active: Seq<bool>) -> nat {
    if count_true(active) <= n {
        (n - count_true(active)) as nat
    } else {
        0
    }
}

/// Appends a cell node over `kids` for the realization of `owner` at `path`.
pub open spec fn finish_cell(
    st: MatModel,
    owner: usize,
    w: CellModel,
    kids: Seq<usize>,
    path: Seq<usize>,
) -> (MatModel, usize) {
    let nid = st.nodes.len() as usize;
    let id = if path.len() == 0 {
        OccurrenceModel::Original(owner)
    } else {
        OccurrenceModel::Generated(owner, path)
    };
    (
        MatModel {
            nodes: st.nodes.push(w),
            edges: st.edges + kids.map_values(|c: usize| (nid, c)),
            ids: st.ids.push(id),
            created: if path.len() == 0 {
                st.created
            } else {
                st.created.push(id)
            },
            ..st
        },
        nid,
    )
}

/// Records that `anchor` is materialized as `node`.
pub open spec fn remember(st: MatModel, anchor: usize, node: usize) -> MatModel {
    MatModel { memo: st.memo.update(anchor as int, Some(node)), ..st }
}

/// Materializes one original anchor, reusing an earlier materialization.
pub open spec fn mat_anchor(
    src: Netlist<StdCellType>,
    sel: Seq<(usize, TopologyExpr)>,
    active: Seq<bool>,
    st: MatModel,
    a: usize,
) -> (MatModel, Result<usize, MaterializeError>)
    decreases open_anchors(src.nodes@.len(), active), 0nat, 0nat,
{
    let n = src.nodes@.len();
    if active.len() != n || st.memo.len() != n || a >= n {
        (st, Err(MaterializeError::Unknown(a)))
    } else if st.memo[a as int] is Some {
        (st, Ok(st.memo[a as int]->0))
    } else if active[a as int] {
        (st, Err(MaterializeError::Cycle(a)))
    } else {
        let act = active.update(a as int, true);
        proof {
            lemma_count_true_set(active, a as int);
            lemma_count_true_bound(act);
        }
        let w = src.nodes@[a as int]@;
        if src.leaves@.contains(a) || w is Bool {
            if choice_for(sel, a) is Some {
                (st, Err(MaterializeError::LeafChoice(a)))
            } else {
                let nid = st.nodes.len() as usize;
                let st2 = MatModel {
                    nodes: st.nodes.push(w),
                    leaves: st.leaves.push(nid),
                    ids: st.ids.push(OccurrenceModel::Original(a)),
                    ..st
                };
                (remember(st2, a, nid), Ok(nid))
            }
        } else if src.roots@.contains(a) {
            let ch = fanins_of(src.edges@, a as int);
            if choice_for(sel, a) is Some {
                (st, Err(MaterializeError::OutputChoice(a)))
            } else if ch.len() != 1 {
                (st, Err(MaterializeError::OutputArity(a, ch.len() as usize)))
            } else {
                let (st1, r) = mat_anchor(src, sel, act, st, ch[0]);
                match r {
                    Err(e) => (st1, Err(e)),
                    Ok(c) => {
                        let nid = st1.nodes.len() as usize;
                        let st2 = MatModel {
                            nodes: st1.nodes.push(w),
                            edges: st1.edges.push((nid, c)),
                            roots: st1.roots.push(nid),
                            ids: st1.ids.push(OccurrenceModel::Original(a)),
                            ..st1
                        };
                        (remember(st2, a, nid), Ok(nid))
                    },
                }
            }
        } else {
            let (st1, r) = match choice_for(sel, a) {
                Some(e) => mat_expr(src, sel, act, st, a, e, Seq::empty()),
                None => {
                    let ch = fanins_of(src.edges@, a as int);
                    let (st0, kids) = mat_anchor_list(src, sel, act, st, ch, 0, Seq::empty());
                    match kids {
                        Err(e) => (st0, Err(e)),
                        Ok(k) => {
                            let (st3, nid) = finish_cell(
                                st0,
                                a,
                                cell_from_text(cell_text(w)),
                                k,
                                Seq::empty(),
                            );
                            (st3, Ok(nid))
                        },
                    }
                },
            };
            match r {
                Err(e) => (st1, Err(e)),
                Ok(nid) => (remember(st1, a, nid), Ok(nid)),
            }
        }
    }
}

/// Materializes the anchors `ch[i..]`, in order, collecting their nodes.
pub open spec fn mat_anchor_list(
    src: Netlist<StdCellType>,
    sel: Seq<(usize, TopologyExpr)>,
    active: Seq<bool>,
    st: MatModel,
    ch: Seq<usize>,
    i: int,
    acc: Seq<usize>,
) -> (MatModel, Result<Seq<usize>, MaterializeError>)
    decreases open_anchors(src.nodes@.len(), active), 0nat, (ch.len() - i + 1) as nat,
{
    if i < 0 || i >= ch.len() {
        (st, Ok(acc))
    } else {
        let (st1, r) = mat_anchor(src, sel, active, st, ch[i]);
        match r {
            Err(e) => (st1, Err(e)),
            Ok(c) => mat_anchor_list(src, sel, active, st1, ch, i + 1, acc.push(c)),
        }
    }
}

/// Materializes one expression occurrence of the realization of `owner`.
pub open spec fn mat_expr(
    src: Netlist<StdCellType>,
    sel: Seq<(usize, TopologyExpr)>,
    active: Seq<bool>,
    st: MatModel,
    owner: usize,
    e: TopologyExpr,
    path: Seq<usize>,
) -> (MatModel, Result<usize, MaterializeError>)
    decreases open_anchors(src.nodes@.len(), active), expr_size(e), 0nat,
{
    match e {
        TopologyExpr::Anchor(b) => mat_anchor(src, sel, active, st, b),
        TopologyExpr::Cell { op, children } => {
            let (st1, r) = mat_children(
                src,
                sel,
                active,
                st,
                owner,
                children@,
                path,
                0,
                Seq::empty(),
                (expr_size(e) - 1) as nat,
            );
            match r {
                Err(err) => (st1, Err(err)),
                Ok(kids) => {
                    let (st2, nid) = finish_cell(st1, owner, cell_from_text(op@), kids, path);
                    (st2, Ok(nid))
                },
            }
        },
    }
}

/// Materializes the child expressions `cs[i..]`, in order.
pub open spec fn mat_children(
    src: Netlist<StdCellType>,
    sel: Seq<(usize, TopologyExpr)>,
    active: Seq<bool>,
    st: MatModel,
    owner: usize,
    cs: Seq<TopologyExpr>,
    path: Seq<usize>,
    i: int,
    acc: Seq<usize>,
    bound: nat,
) -> (MatModel, Result<Seq<usize>, MaterializeError>)
    decreases open_anchors(src.nodes@.len(), active), bound, (cs.len() - i + 1) as nat,
{
    if i < 0 || i >= cs.len() {
        (st, Ok(acc))
    } else if expr_size(cs[i]) >= bound {
        (st, Err(MaterializeError::Unknown(owner)))
    } else {
        let (st1, r) = mat_expr(src, sel, active, st, owner, cs[i], path.push(i as usize));
        match r {
            Err(e) => (st1, Err(e)),
            Ok(c) => mat_children(src, sel, active, st1, owner, cs, path, i + 1, acc.push(c), bound),
        }
    }
}

/// The shape every materialization state keeps: each driver edge points to
/// an earlier node (so the materialized netlist is acyclic), every
/// remembered anchor and every root and leaf names an existing node, and
/// every node has an identity.
pub open spec fn mat_inv(st: MatModel, n: nat) -> bool {
    &&& st.memo.len() == n
    &&& st.ids.len() == st.nodes.len()
    &&& forall|i: int| 0 <= i < n && (#[trigger] st.memo[i]) is Some ==> st.memo[i]->0 < st.nodes.len()
    &&& forall|k: int| 0 <= k < st.edges.len() ==> (#[trigger] st.edges[k]).1 < st.edges[k].0
        && st.edges[k].0 < st.nodes.len()
    &&& forall|k: int| 0 <= k < st.roots.len() ==> #[trigger] st.roots[k] < st.nodes.len()
    &&& forall|k: int| 0 <= k < st.leaves.len() ==> #[trigger] st.leaves[k] < st.nodes.len()
}

proof fn lemma_finish_cell_inv(
    st: MatModel,
    n: nat,
    owner: usize,
    w: CellModel,
    kids: Seq<usize>,
    path: Seq<usize>,
)
    requires
        mat_inv(st, n),
        st.nodes.len() < usize::MAX,
        forall|k: int| 0 <= k < kids.len() ==> #[trigger] kids[k] < st.nodes.len(),
    ensures
        mat_inv(finish_cell(st, owner, w, kids, path).0, n),
        finish_cell(st, owner, w, kids, path).0.nodes.len() == st.nodes.len() + 1,
        finish_cell(st, owner, w, kids, path).1 == st.nodes.len(),
{
    let r = finish_cell(st, owner, w, kids, path).0;
    let nid = st.nodes.len() as usize;
    assert forall|k: int| 0 <= k < r.edges.len() implies (#[trigger] r.edges[k]).1 < r.edges[k].0
        && r.edges[k].0 < r.nodes.len() by {
        if k >= st.edges.len() {
            assert(r.edges[k] == (nid, kids[k - st.edges.len()]));
        }
    }
}

/// Materializing an anchor keeps the state's shape, only adds nodes, and
/// yields an existing node.
proof fn lemma_mat_anchor_inv(
    src: Netlist<StdCellType>,
    sel: Seq<(usize, TopologyExpr)>,
    active: Seq<bool>,
    st: MatModel,
    a: usize,
    cap: nat,
)
    requires
        st.nodes.len() < cap ==> mat_inv(st, src.nodes@.len()),
        cap <= usize::MAX + 1,
    ensures
        ({
            let (st2, r) = mat_anchor(src, sel, active, st, a);
            &&& st2.nodes.len() >= st.nodes.len()
            &&& st2.nodes.len() < cap ==> mat_inv(st2, src.nodes@.len())
            &&& (st2.nodes.len() < cap && r is Ok) ==> r->Ok_0 < st2.nodes.len()
        }),
    decreases open_anchors(src.nodes@.len(), active), 0nat, 0nat,
{
    let n = src.nodes@.len();
    if active.len() != n || st.memo.len() != n || a >= n {
    } else if st.memo[a as int] is Some {
    } else if active[a as int] {
    } else {
        let act = active.update(a as int, true);
        lemma_count_true_set(active, a as int);
        lemma_count_true_bound(act);
        let w = src.nodes@[a as int]@;
        if src.leaves@.contains(a) || w is Bool {
        } else if src.roots@.contains(a) {
            let ch = fanins_of(src.edges@, a as int);
            if choice_for(sel, a) is None && ch.len() == 1 {
                lemma_mat_anchor_inv(src, sel, act, st, ch[0], cap);
            }
        } else {
            match choice_for(sel, a) {
                Some(e) => {
                    lemma_mat_expr_inv(src, sel, act, st, a, e, Seq::empty(), cap);
                },
                None => {
                    let ch = fanins_of(src.edges@, a as int);
                    lemma_mat_anchor_list_inv(src, sel, act, st, ch, 0, Seq::empty(), cap);
                    let (st0, kids) = mat_anchor_list(src, sel, act, st, ch, 0, Seq::empty());
                    if kids is Ok && st0.nodes.len() + 1 < cap {
                        lemma_finish_cell_inv(
                            st0,
                            n,
                            a,
                            cell_from_text(cell_text(w)),
                            kids->Ok_0,
                            Seq::empty(),
                        );
                    }
                },
            }
        }
    }
}

proof fn lemma_mat_anchor_list_inv(
    src: Netlist<StdCellType>,
    sel: Seq<(usize, TopologyExpr)>,
    active: Seq<bool>,
    st: MatModel,
    ch: Seq<usize>,
    i: int,
    acc: Seq<usize>,
    cap: nat,
)
    requires
        st.nodes.len() < cap ==> mat_inv(st, src.nodes@.len()),
        cap <= usize::MAX + 1,
        st.nodes.len() < cap ==> forall|k: int| 0 <= k < acc.len() ==> #[trigger] acc[k] < st.nodes.len(),
    ensures
        ({
            let (st2, r) = mat_anchor_list(src, sel, active, st, ch, i, acc);
            &&& st2.nodes.len() >= st.nodes.len()
            &&& st2.nodes.len() < cap ==> mat_inv(st2, src.nodes@.len())
            &&& (st2.nodes.len() < cap && r is Ok) ==> forall|k: int|
                0 <= k < r->Ok_0.len() ==> #[trigger] r->Ok_0[k] < st2.nodes.len()
        }),
    decreases open_anchors(src.nodes@.len(), active), 0nat, (ch.len() - i + 1) as nat,
{
    if i < 0 || i >= ch.len() {
    } else {
        lemma_mat_anchor_inv(src, sel, active, st, ch[i], cap);
        let (st1, r) = mat_anchor(src, sel, active, st, ch[i]);
        if r is Ok {
            let (st2, _) = mat_anchor_list(src, sel, active, st1, ch, i + 1, acc.push(r->Ok_0));
            lemma_mat_anchor_list_inv(src, sel, active, st1, ch, i + 1, acc.push(r->Ok_0), cap);
            if st1.nodes.len() >= cap {
                // the final state is at least as large, so nothing is claimed
            }
        }
    }
}

proof fn lemma_mat_expr_inv(
    src: Netlist<StdCellType>,
    sel: Seq<(usize, TopologyExpr)>,
    active: Seq<bool>,
    st: MatModel,
    owner: usize,
    e: TopologyExpr,
    path: Seq<usize>,
    cap: nat,
)
    requires
        st.nodes.len() < cap ==> mat_inv(st, src.nodes@.len()),
        cap <= usize::MAX + 1,
    ensures
        ({
            let (st2, r) = mat_expr(src, sel, active, st, owner, e, path);
            &&& st2.nodes.len() >= st.nodes.len()
            &&& st2.nodes.len() < cap ==> mat_inv(st2, src.nodes@.len())
            &&& (st2.nodes.len() < cap && r is Ok) ==> r->Ok_0 < st2.nodes.len()
        }),
    decreases open_anchors(src.nodes@.len(), active), expr_size(e), 0nat,
{
    match e {
        TopologyExpr::Anchor(b) => {
            lemma_mat_anchor_inv(src, sel, active, st, b, cap);
        },
        TopologyExpr::Cell { op, children } => {
            let bound = (expr_size(e) - 1) as nat;
            lemma_mat_children_inv(
                src,
                sel,
                active,
                st,
                owner,
                children@,
                path,
                0,
                Seq::empty(),
                bound,
                cap,
            );
            let (st1, r) = mat_children(
                src,
                sel,
                active,
                st,
                owner,
                children@,
                path,
                0,
                Seq::empty(),
                bound,
            );
            if r is Ok && st1.nodes.len() + 1 < cap {
                lemma_finish_cell_inv(st1, src.nodes@.len(), owner, cell_from_text(op@), r->Ok_0, path);
            }
        },
    }
}

proof fn lemma_mat_children_inv(
    src: Netlist<StdCellType>,
    sel: Seq<(usize, TopologyExpr)>,
    active: Seq<bool>,
    st: MatModel,
    owner: usize,
    cs: Seq<TopologyExpr>,
    path: Seq<usize>,
    i: int,
    acc: Seq<usize>,
    bound: nat,
    cap: nat,
)
    requires
        st.nodes.len() < cap ==> mat_inv(st, src.nodes@.len()),
        cap <= usize::MAX + 1,
        st.nodes.len() < cap ==> forall|k: int| 0 <= k < acc.len() ==> #[trigger] acc[k] < st.nodes.len(),
    ensures
        ({
            let (st2, r) = mat_children(src, sel, active, st, owner, cs, path, i, acc, bound);
            &&& st2.nodes.len() >= st.nodes.len()
            &&& st2.nodes.len() < cap ==> mat_inv(st2, src.nodes@.len())
            &&& (st2.nodes.len() < cap && r is Ok) ==> forall|k: int|
                0 <= k < r->Ok_0.len() ==> #[trigger] r->Ok_0[k] < st2.nodes.len()
        }),
    decreases open_anchors(src.nodes@.len(), active), bound, (cs.len() - i + 1) as nat,
{
    if i < 0 || i >= cs.len() {
    } else if expr_size(cs[i]) >= bound {
    } else {
        lemma_mat_expr_inv(src, sel, active, st, owner, cs[i], path.push(i as usize), cap);
        let (st1, r) = mat_expr(src, sel, active, st, owner, cs[i], path.push(i as usize));
        if r is Ok {
            lemma_mat_children_inv(
                src,
                sel,
                active,
                st1,
                owner,
                cs,
                path,
                i + 1,
                acc.push(r->Ok_0),
                bound,
                cap,
            );
        }
    }
}

/// The execution state of a materialization.
pub struct MatState {
    pub result: Netlist<StdCellType>,
    pub memo: Vec<Option<usize>>,
    pub ids: Vec<PhysicalOccurrenceId>,
    pub created: Vec<PhysicalOccurrenceId>,
}

impl MatState {
    pub open spec fn model(&self) -> MatModel {
        MatModel {
            nodes: self.result.nodes@.map_values(|w: StdCellType| w@),
            edges: self.result.edges@,
            roots: self.result.roots@,
            leaves: self.result.leaves@,
            memo: self.memo@,
            ids: self.ids@.map_values(|i: PhysicalOccurrenceId| i@),
            created: self.created@.map_values(|i: PhysicalOccurrenceId| i@),
        }
    }
}

fn finish_cell_exec(
    st: &mut MatState,
    owner: usize,
    w: StdCellType,
    kids: &Vec<usize>,
    path: &Vec<usize>,
) -> (nid: usize)
    ensures
        final(st).model() == finish_cell(old(st).model(), owner, w@, kids@, path@).0,
        nid == finish_cell(old(st).model(), owner, w@, kids@, path@).1,
{
    let ghost m0 = st.model();
    let ghost wv = w@;
    let nid = st.result.add_node(w);
    let ghost e0 = st.result.edges@;
    let mut k: usize = 0;
    while k < kids.len()
        invariant
            0 <= k <= kids.len(),
            st.result.edges@ == e0 + kids@.take(k as int).map_values(|c: usize| (nid, c)),
            st.result.nodes@ == old(st).result.nodes@.push(w),
            st.result.roots@ == old(st).result.roots@,
            st.result.leaves@ == old(st).result.leaves@,
            st.memo@ == old(st).memo@,
            st.ids@ == old(st).ids@,
            st.created@ == old(st).created@,
            e0 == old(st).result.edges@,
        decreases kids.len() - k,
    {
        st.result.add_edge(nid, kids[k]);
        assert(kids@.take(k + 1).map_values(|c: usize| (nid, c)) =~= kids@.take(k as int).map_values(
            |c: usize| (nid, c),
        ).push((nid, kids@[k as int])));
        k = k + 1;
    }
    assert(kids@.take(k as int) =~= kids@);
    if path.len() == 0 {
        st.ids.push(PhysicalOccurrenceId::Original(owner));
    } else {
        let id = PhysicalOccurrenceId::Generated { anchor: owner, path: copy_indices(path) };
        st.created.push(id.duplicate());
        st.ids.push(id);
    }
    let ghost expect = finish_cell(m0, owner, wv, kids@, path@).0;
    assert(st.model().nodes =~= expect.nodes);
    assert(st.model().edges =~= expect.edges);
    assert(st.model().ids =~= expect.ids);
    assert(st.model().created =~= expect.created);
    nid
}

fn materialize_anchor(
    src: &Netlist<StdCellType>,
    sel: &TopologySelection,
    active: &mut Vec<bool>,
    st: &mut MatState,
    a: usize,
) -> (r: Result<usize, MaterializeError>)
    requires
        old(active)@.len() == src.nodes@.len(),
        old(st).memo@.len() == src.nodes@.len(),
    ensures
        final(st).model() == mat_anchor(*src, sel.choices@, old(active)@, old(st).model(), a).0,
        r == mat_anchor(*src, sel.choices@, old(active)@, old(st).model(), a).1,
        final(active)@.len() == old(active)@.len(),
        r is Ok ==> final(active)@ == old(active)@,
        final(st).memo@.len() == old(st).memo@.len(),
    decreases open_anchors(src.nodes@.len(), old(active)@), 0nat, 0nat,
{
    let ghost m0 = st.model();
    let ghost act0 = active@;
    let n = src.nodes.len();
    if a >= n {
        return Err(MaterializeError::Unknown(a));
    }
    match st.memo[a] {
        Some(x) => {
            return Ok(x);
        },
        None => {},
    }
    if active[a] {
        return Err(MaterializeError::Cycle(a));
    }
    active.set(a, true);
    let ghost act = active@;
    proof {
        lemma_count_true_set(act0, a as int);
        lemma_count_true_bound(act);
        lemma_count_true_bound(act0);
    }
    let w = &src.nodes[a];
    let r: Result<usize, MaterializeError>;
    if contains_index(&src.leaves, a) || w.is_constant() {
        if sel.lookup(a).is_some() {
            return Err(MaterializeError::LeafChoice(a));
        }
        let nid = st.result.add_node(w.duplicate());
        st.result.leaves.push(nid);
        st.ids.push(PhysicalOccurrenceId::Original(a));
        r = Ok(nid);
        proof {
            let m = st.model();
            assert(m.nodes =~= m0.nodes.push(w@));
            assert(m.ids =~= m0.ids.push(OccurrenceModel::Original(a)));
            assert(m.created =~= m0.created);
        }
    } else if contains_index(&src.roots, a) {
        if sel.lookup(a).is_some() {
            return Err(MaterializeError::OutputChoice(a));
        }
        let ch = src.inputs(a);
        if ch.len() != 1 {
            return Err(MaterializeError::OutputArity(a, ch.len()));
        }
        let c = match materialize_anchor(src, sel, active, st, ch[0]) {
            Err(e) => {
                return Err(e);
            },
            Ok(c) => c,
        };
        let ghost m1 = st.model();
        let nid = st.result.add_node(w.duplicate());
        st.result.add_edge(nid, c);
        st.result.roots.push(nid);
        st.ids.push(PhysicalOccurrenceId::Original(a));
        r = Ok(nid);
        proof {
            let m = st.model();
            assert(m.nodes =~= m1.nodes.push(w@));
            assert(m.ids =~= m1.ids.push(OccurrenceModel::Original(a)));
            assert(m.created =~= m1.created);
        }
    } else {
        match sel.lookup(a) {
            Some(e) => {
                let empty: Vec<usize> = Vec::new();
                r = materialize_expr(src, sel, active, st, a, e, &empty);
                assert(empty@ =~= Seq::<usize>::empty());
            },
            None => {
                let ch = src.inputs(a);
                let mut kids: Vec<usize> = Vec::new();
                let mut i: usize = 0;
                let ghost spec_run = mat_anchor_list(*src, sel.choices@, act, m0, ch@, 0, Seq::empty());
                while i < ch.len()
                    invariant
                        0 <= i <= ch@.len(),
                        active@ == act,
                        act.len() == src.nodes@.len(),
                        st.memo@.len() == src.nodes@.len(),
                        ch@ == fanins_of(src.edges@, a as int),
                        spec_run == mat_anchor_list(*src, sel.choices@, act, st.model(), ch@, i as int, kids@),
                        spec_run == mat_anchor_list(*src, sel.choices@, act, m0, ch@, 0, Seq::empty()),
                        open_anchors(src.nodes@.len(), act) < open_anchors(src.nodes@.len(), act0),
                        act0 == old(active)@,
                        m0 == old(st).model(),
                        act == act0.update(a as int, true),
                        a < src.nodes@.len(),
                        act0.len() == src.nodes@.len(),
                        m0.memo.len() == src.nodes@.len(),
                        m0.memo[a as int] is None,
                        !act0[a as int],
                        !src.leaves@.contains(a),
                        !(src.nodes@[a as int]@ is Bool),
                        !src.roots@.contains(a),
                        choice_for(sel.choices@, a) is None,
                    decreases ch.len() - i,
                {
                    match materialize_anchor(src, sel, active, st, ch[i]) {
                        Err(e) => {
                            return Err(e);
                        },
                        Ok(c) => {
                            kids.push(c);
                        },
                    }
                    i = i + 1;
                }
                let text = w.to_string();
                let nid = finish_cell_exec(st, a, StdCellType::from_op(text.as_str()), &kids, &Vec::new());
                r = Ok(nid);
            },
        }
    }
    match r {
        Err(e) => Err(e),
        Ok(nid) => {
            active.set(a, false);
            let ghost m2 = st.model();
            st.memo.set(a, Some(nid));
            proof {
                assert(active@ =~= act0);
                assert(st.model() =~= remember(m2, a, nid));
            }
            Ok(nid)
        },
    }
}

fn materialize_expr(
    src: &Netlist<StdCellType>,
    sel: &TopologySelection,
    active: &mut Vec<bool>,
    st: &mut MatState,
    owner: usize,
    e: &TopologyExpr,
    path: &Vec<usize>,
) -> (r: Result<usize, MaterializeError>)
    requires
        old(active)@.len() == src.nodes@.len(),
        old(st).memo@.len() == src.nodes@.len(),
    ensures
        final(st).model() == mat_expr(*src, sel.choices@, old(active)@, old(st).model(), owner, *e, path@).0,
        r == mat_expr(*src, sel.choices@, old(active)@, old(st).model(), owner, *e, path@).1,
        final(active)@.len() == old(active)@.len(),
        r is Ok ==> final(active)@ == old(active)@,
        final(st).memo@.len() == old(st).memo@.len(),
    decreases open_anchors(src.nodes@.len(), old(active)@), expr_size(*e), 0nat,
{
    match e {
        TopologyExpr::Anchor(b) => materialize_anchor(src, sel, active, st, *b),
        TopologyExpr::Cell { op, children } => {
            let ghost act = active@;
            let ghost bound = (expr_size(*e) - 1) as nat;
            let ghost spec_run = mat_children(
                *src,
                sel.choices@,
                act,
                st.model(),
                owner,
                children@,
                path@,
                0,
                Seq::empty(),
                bound,
            );
            let mut kids: Vec<usize> = Vec::new();
            let mut i: usize = 0;
            while i < children.len()
                invariant
                    0 <= i <= children@.len(),
                    active@ == act,
                    act.len() == src.nodes@.len(),
                    st.memo@.len() == src.nodes@.len(),
                    bound == expr_size(*e) - 1,
                    expr_size(*e) == 2 + children_size(children@),
                    act == old(active)@,
                    old(st).memo@.len() == src.nodes@.len(),
                    *e == (TopologyExpr::Cell { op: *op, children: *children }),
                    spec_run == mat_children(
                        *src,
                        sel.choices@,
                        act,
                        old(st).model(),
                        owner,
                        children@,
                        path@,
                        0,
                        Seq::empty(),
                        bound,
                    ),
                    spec_run == mat_children(
                        *src,
                        sel.choices@,
                        act,
                        st.model(),
                        owner,
                        children@,
                        path@,
                        i as int,
                        kids@,
                        bound,
                    ),
                decreases children.len() - i,
            {
                proof {
                    lemma_child_smaller(children@, i as int);
                }
                let mut child_path = copy_indices(path);
                child_path.push(i);
                match materialize_expr(src, sel, active, st, owner, &children[i], &child_path) {
                    Err(err) => {
                        return Err(err);
                    },
                    Ok(c) => {
                        kids.push(c);
                    },
                }
                i = i + 1;
            }
            let nid = finish_cell_exec(st, owner, StdCellType::from_op(op.as_str()), &kids, path);
            Ok(nid)
        },
    }
}

/// Materializes the source's primary outputs `roots[i..]`, in order.
pub open spec fn mat_roots(
    src: Netlist<StdCellType>,
    sel: Seq<(usize, TopologyExpr)>,
    st: MatModel,
    i: int,
) -> (MatModel, Result<(), MaterializeError>)
    decreases src.roots@.len() - i,
{
    if i < 0 || i >= src.roots@.len() {
        (st, Ok(()))
    } else {
        let (st1, r) = mat_anchor(src, sel, no_active(src.nodes@.len()), st, src.roots@[i]);
        match r {
            Err(e) => (st1, Err(e)),
            Ok(_) => mat_roots(src, sel, st1, i + 1),
        }
    }
}

/// No anchor is being materialized.
pub open spec fn no_active(n: nat) -> Seq<bool> {
    Seq::new(n, |k: int| false)
}

/// The state before anything is materialized.
pub open spec fn start_model(n: nat) -> MatModel {
    MatModel {
        nodes: Seq::empty(),
        edges: Seq::empty(),
        roots: Seq::empty(),
        leaves: Seq::empty(),
        memo: Seq::new(n, |k: int| None),
        ids: Seq::empty(),
        created: Seq::empty(),
    }
}

/// The source nodes that were not materialized, in increasing order.
pub open spec fn unmaterialized(memo: Seq<Option<usize>>) -> Seq<usize>
    decreases memo.len(),
{
    if memo.len() == 0 {
        Seq::empty()
    } else if memo.last() is None {
        unmaterialized(memo.drop_last()).push((memo.len() - 1) as usize)
    } else {
        unmaterialized(memo.drop_last())
    }
}

/// Lexicographic order of index paths.
pub open spec fn path_le(a: Seq<usize>, b: Seq<usize>) -> bool
    decreases a.len(),
{
    if a.len() == 0 {
        true
    } else if b.len() == 0 {
        false
    } else if a[0] != b[0] {
        a[0] < b[0]
    } else {
        path_le(a.drop_first(), b.drop_first())
    }
}

/// The order of occurrence identities: originals by anchor first, then
/// generated cells by anchor and path.
pub open spec fn occ_le(a: OccurrenceModel, b: OccurrenceModel) -> bool {
    match (a, b) {
        (OccurrenceModel::Original(x), OccurrenceModel::Original(y)) => x <= y,
        (OccurrenceModel::Original(_), OccurrenceModel::Generated(_, _)) => true,
        (OccurrenceModel::Generated(_, _), OccurrenceModel::Original(_)) => false,
        (OccurrenceModel::Generated(x, p), OccurrenceModel::Generated(y, q)) => x < y || (x == y
            && path_le(p, q)),
    }
}

pub open spec fn occ_sorted(s: Seq<OccurrenceModel>) -> bool {
    forall|i: int, j: int| 0 <= i < j < s.len() ==> occ_le(#[trigger] s[i], #[trigger] s[j])
}

proof fn lemma_path_le_total(a: Seq<usize>, b: Seq<usize>)
    ensures
        path_le(a, b) || path_le(b, a),
    decreases a.len(),
{
    if a.len() > 0 && b.len() > 0 && a[0] == b[0] {
        lemma_path_le_total(a.drop_first(), b.drop_first());
    }
}

proof fn lemma_path_le_trans(a: Seq<usize>, b: Seq<usize>, c: Seq<usize>)
    requires
        path_le(a, b),
        path_le(b, c),
    ensures
        path_le(a, c),
    decreases a.len(),
{
    if a.len() > 0 && b.len() > 0 && c.len() > 0 && a[0] == b[0] && b[0] == c[0] {
        lemma_path_le_trans(a.drop_first(), b.drop_first(), c.drop_first());
    }
}

proof fn lemma_occ_le_total(a: OccurrenceModel, b: OccurrenceModel)
    ensures
        occ_le(a, b) || occ_le(b, a),
{
    match (a, b) {
        (OccurrenceModel::Generated(x, p), OccurrenceModel::Generated(y, q)) => {
            lemma_path_le_total(p, q);
        },
        _ => {},
    }
}

proof fn lemma_occ_le_trans(a: OccurrenceModel, b: OccurrenceModel, c: OccurrenceModel)
    requires
        occ_le(a, b),
        occ_le(b, c),
    ensures
        occ_le(a, c),
{
    match (a, b, c) {
        (
            OccurrenceModel::Generated(x, p),
            OccurrenceModel::Generated(y, q),
            OccurrenceModel::Generated(z, t),
        ) => {
            if x == y && y == z {
                lemma_path_le_trans(p, q, t);
            }
        },
        _ => {},
    }
}

fn path_less_eq(a: &Vec<usize>, b: &Vec<usize>) -> (r: bool)
    ensures
        r == path_le(a@, b@),
{
    let mut i: usize = 0;
    assert(a@.skip(0) =~= a@);
    assert(b@.skip(0) =~= b@);
    while i < a.len() && i < b.len() && a[i] == b[i]
        invariant
            0 <= i <= a@.len(),
            i <= b@.len(),
            path_le(a@, b@) == path_le(a@.skip(i as int), b@.skip(i as int)),
        decreases a.len() - i,
    {
        assert(a@.skip(i as int).drop_first() =~= a@.skip(i + 1));
        assert(b@.skip(i as int).drop_first() =~= b@.skip(i + 1));
        i = i + 1;
    }
    if i == a.len() {
        true
    } else if i == b.len() {
        false
    } else {
        a[i] < b[i]
    }
}

fn occ_less_eq(a: &PhysicalOccurrenceId, b: &PhysicalOccurrenceId) -> (r: bool)
    ensures
        r == occ_le(a@, b@),
{
    match (a, b) {
        (PhysicalOccurrenceId::Original(x), PhysicalOccurrenceId::Original(y)) => *x <= *y,
        (PhysicalOccurrenceId::Original(_), PhysicalOccurrenceId::Generated { .. }) => true,
        (PhysicalOccurrenceId::Generated { .. }, PhysicalOccurrenceId::Original(_)) => false,
        (
            PhysicalOccurrenceId::Generated { anchor: x, path: p },
            PhysicalOccurrenceId::Generated { anchor: y, path: q },
        ) => *x < *y || (*x == *y && path_less_eq(p, q)),
    }
}

/// Sorts occurrence identities into their order, keeping every entry.
pub fn sort_occurrences(v: Vec<PhysicalOccurrenceId>) -> (r: Vec<PhysicalOccurrenceId>)
    ensures
        occ_sorted(r@.map_values(|o: PhysicalOccurrenceId| o@)),
        r@.map_values(|o: PhysicalOccurrenceId| o@).to_multiset() == v@.map_values(
            |o: PhysicalOccurrenceId| o@,
        ).to_multiset(),
{
    let ghost input = v@.map_values(|o: PhysicalOccurrenceId| o@);
    let mut out: Vec<PhysicalOccurrenceId> = Vec::new();
    let mut k: usize = 0;
    assert(input.take(0) =~= Seq::<OccurrenceModel>::empty());
    assert(out@.map_values(|o: PhysicalOccurrenceId| o@) =~= Seq::<OccurrenceModel>::empty());
    while k < v.len()
        invariant
            0 <= k <= v@.len(),
            input == v@.map_values(|o: PhysicalOccurrenceId| o@),
            occ_sorted(out@.map_values(|o: PhysicalOccurrenceId| o@)),
            out@.map_values(|o: PhysicalOccurrenceId| o@).to_multiset() == input.take(
                k as int,
            ).to_multiset(),
        decreases v.len() - k,
    {
        let x = v[k].duplicate();
        let ghost xv = x@;
        let ghost before = out@.map_values(|o: PhysicalOccurrenceId| o@);
        let mut p: usize = 0;
        while p < out.len() && occ_less_eq(&out[p], &x)
            invariant
                0 <= p <= out@.len(),
                before == out@.map_values(|o: PhysicalOccurrenceId| o@),
                forall|i: int| 0 <= i < p ==> occ_le(#[trigger] before[i], xv),
                xv == x@,
            decreases out.len() - p,
        {
            p = p + 1;
        }
        proof {
            if p < out.len() {
                lemma_occ_le_total(before[p as int], xv);
            }
        }
        out.insert(p, x);
        proof {
            let after = out@.map_values(|o: PhysicalOccurrenceId| o@);
            assert(after =~= before.insert(p as int, xv));
            assert forall|i: int, j: int| 0 <= i < j < after.len() implies occ_le(
                #[trigger] after[i],
                #[trigger] after[j],
            ) by {
                if j < p {
                    assert(after[i] == before[i] && after[j] == before[j]);
                } else if j == p {
                    assert(after[i] == before[i]);
                } else if i == p {
                    assert(after[j] == before[j - 1]);
                    if j - 1 > p {
                        lemma_occ_le_trans(xv, before[p as int], before[j - 1]);
                    }
                } else if i < p {
                    assert(after[i] == before[i] && after[j] == before[j - 1]);
                } else {
                    assert(after[i] == before[i - 1] && after[j] == before[j - 1]);
                }
            }
            vstd::seq_lib::to_multiset_insert(before, p as int, xv);
            assert(input.take(k + 1) =~= input.take(k as int).push(xv));
            vstd::seq_lib::to_multiset_build(input.take(k as int), xv);
        }
        k = k + 1;
    }
    assert(input.take(k as int) =~= input);
    out
}

/// The message for a materialization failure.
pub open spec fn materialize_message(e: MaterializeError) -> Seq<char> {
    match e {
        MaterializeError::Cycle(a) => "topology selection contains a dependency cycle at original anchor "@
            + decimal(a as nat),
        MaterializeError::Unknown(a) => "unknown original anchor "@ + decimal(a as nat),
        MaterializeError::LeafChoice(a) => "fixed leaf/constant anchor "@ + decimal(a as nat)
            + " cannot have a structural choice"@,
        MaterializeError::OutputChoice(a) => "primary-output wrapper anchor "@ + decimal(a as nat)
            + " cannot have a structural choice"@,
        MaterializeError::OutputArity(a, k) => "primary-output wrapper "@ + decimal(a as nat)
            + " has "@ + decimal(k as nat) + " inputs, expected one"@,
    }
}

/// The message for a cyclic source netlist.
pub open spec fn source_cycle_message(c: usize) -> Seq<char> {
    "source netlist contains a cycle: "@ + "Cycle(NodeIndex("@ + decimal(c as nat) + "))"@
}

fn materialize_message_text(e: MaterializeError) -> (m: String)
    ensures
        m@ == materialize_message(e),
{
    let mut out: Vec<char> = Vec::new();
    match e {
        MaterializeError::Cycle(a) => {
            push_str(&mut out, "topology selection contains a dependency cycle at original anchor ");
            push_decimal(&mut out, a);
        },
        MaterializeError::Unknown(a) => {
            push_str(&mut out, "unknown original anchor ");
            push_decimal(&mut out, a);
        },
        MaterializeError::LeafChoice(a) => {
            push_str(&mut out, "fixed leaf/constant anchor ");
            push_decimal(&mut out, a);
            push_str(&mut out, " cannot have a structural choice");
        },
        MaterializeError::OutputChoice(a) => {
            push_str(&mut out, "primary-output wrapper anchor ");
            push_decimal(&mut out, a);
            push_str(&mut out, " cannot have a structural choice");
        },
        MaterializeError::OutputArity(a, k) => {
            push_str(&mut out, "primary-output wrapper ");
            push_decimal(&mut out, a);
            push_str(&mut out, " has ");
            push_decimal(&mut out, k);
            push_str(&mut out, " inputs, expected one");
        },
    }
    assert(out@ =~= materialize_message(e));
    string_of(&out)
}

fn cycle_message_text(prefix: &str, c: usize) -> (m: String)
    ensures
        m@ == prefix@ + "Cycle(NodeIndex("@ + decimal(c as nat) + "))"@,
{
    let mut out: Vec<char> = Vec::new();
    push_str(&mut out, prefix);
    push_str(&mut out, "Cycle(NodeIndex(");
    push_decimal(&mut out, c);
    push_str(&mut out, "))");
    string_of(&out)
}

/// A netlist whose edges all point from a later node to an earlier one is
/// acyclic: listing the nodes from last to first is a topological order.
pub proof fn lemma_descending_edges_acyclic(n: nat, edges: Seq<(usize, usize)>)
    requires
        n <= usize::MAX,
        forall|k: int| 0 <= k < edges.len() ==> (#[trigger] edges[k]).1 < edges[k].0 && edges[k].0 < n,
    ensures
        acyclic(n, edges),
{
    let order = Seq::new(n, |i: int| (n - 1 - i) as usize);
    assert forall|k: int, i: int, j: int|
        #![trigger edges[k], order[i], order[j]]
        0 <= k < edges.len() && 0 <= i < order.len() && 0 <= j < order.len() && order[i] == edges[k].0
            && order[j] == edges[k].1 implies i < j by {
        assert(order[i] == (n - 1 - i) as usize);
        assert(order[j] == (n - 1 - j) as usize);
    }
    assert forall|a: int, b: int| 0 <= a < order.len() && 0 <= b < order.len() && a != b implies order[a]
        != order[b] by {
        assert(order[a] == (n - 1 - a) as usize);
        assert(order[b] == (n - 1 - b) as usize);
    }
    assert(is_topological_order(n, edges, order));
}

proof fn lemma_mat_roots_inv(
    src: Netlist<StdCellType>,
    sel: Seq<(usize, TopologyExpr)>,
    st: MatModel,
    i: int,
)
    requires
        st.nodes.len() < usize::MAX + 1 ==> mat_inv(st, src.nodes@.len()),
    ensures
        ({
            let st2 = mat_roots(src, sel, st, i).0;
            &&& st2.nodes.len() >= st.nodes.len()
            &&& st2.nodes.len() < usize::MAX + 1 ==> mat_inv(st2, src.nodes@.len())
        }),
    decreases src.roots@.len() - i,
{
    if i >= 0 && i < src.roots@.len() {
        let act = no_active(src.nodes@.len());
        lemma_mat_anchor_inv(src, sel, act, st, src.roots@[i], (usize::MAX + 1) as nat);
        let (st1, r) = mat_anchor(src, sel, act, st, src.roots@[i]);
        if r is Ok {
            lemma_mat_roots_inv(src, sel, st1, i + 1);
        }
    }
}

/// Every remembered anchor's node carries the anchor's own identity, unless
/// the selection realizes that anchor by another anchor.
pub open spec fn memo_ids(st: MatModel, sel: Seq<(usize, TopologyExpr)>) -> bool {
    &&& st.ids.len() == st.nodes.len()
    &&& forall|i: int|
        0 <= i < st.memo.len() && (#[trigger] st.memo[i]) is Some ==> st.memo[i]->0 < st.ids.len()
            && (st.ids[st.memo[i]->0 as int] == OccurrenceModel::Original(i as usize) || choice_for(
            sel,
            i as usize,
        ) matches Some(TopologyExpr::Anchor(_)))
}

proof fn lemma_finish_cell_ids(
    st: MatModel,
    sel: Seq<(usize, TopologyExpr)>,
    owner: usize,
    w: CellModel,
    kids: Seq<usize>,
    path: Seq<usize>,
)
    requires
        memo_ids(st, sel),
        st.nodes.len() < usize::MAX,
    ensures
        memo_ids(finish_cell(st, owner, w, kids, path).0, sel),
        finish_cell(st, owner, w, kids, path).1 < finish_cell(st, owner, w, kids, path).0.ids.len(),
        path.len() == 0 ==> finish_cell(st, owner, w, kids, path).0.ids[finish_cell(
            st,
            owner,
            w,
            kids,
            path,
        ).1 as int] == OccurrenceModel::Original(owner),
{
    let r = finish_cell(st, owner, w, kids, path).0;
    assert forall|i: int| 0 <= i < r.memo.len() && (#[trigger] r.memo[i]) is Some implies r.memo[i]->0
        < r.ids.len() && (r.ids[r.memo[i]->0 as int] == OccurrenceModel::Original(i as usize)
        || choice_for(sel, i as usize) matches Some(TopologyExpr::Anchor(_))) by {
        assert(r.memo[i] == st.memo[i]);
        assert(r.ids[st.memo[i]->0 as int] == st.ids[st.memo[i]->0 as int]);
    }
}

proof fn lemma_remember_ids(st: MatModel, sel: Seq<(usize, TopologyExpr)>, a: usize, nid: usize)
    requires
        memo_ids(st, sel),
        a < st.memo.len(),
        nid < st.ids.len(),
        st.ids[nid as int] == OccurrenceModel::Original(a) || choice_for(sel, a) matches Some(
            TopologyExpr::Anchor(_),
        ),
    ensures
        memo_ids(remember(st, a, nid), sel),
{
    let r = remember(st, a, nid);
    assert forall|i: int| 0 <= i < r.memo.len() && (#[trigger] r.memo[i]) is Some implies r.memo[i]->0
        < r.ids.len() && (r.ids[r.memo[i]->0 as int] == OccurrenceModel::Original(i as usize)
        || choice_for(sel, i as usize) matches Some(TopologyExpr::Anchor(_))) by {
        if i != a {
            assert(r.memo[i] == st.memo[i]);
        }
    }
}

proof fn lemma_push_original_ids(st: MatModel, sel: Seq<(usize, TopologyExpr)>, st2: MatModel, a: usize)
    requires
        memo_ids(st, sel),
        st2.memo == st.memo,
        st2.nodes.len() == st.nodes.len() + 1,
        st2.ids == st.ids.push(OccurrenceModel::Original(a)),
    ensures
        memo_ids(st2, sel),
{
    assert forall|i: int| 0 <= i < st2.memo.len() && (#[trigger] st2.memo[i]) is Some implies st2.memo[i]->0
        < st2.ids.len() && (st2.ids[st2.memo[i]->0 as int] == OccurrenceModel::Original(i as usize)
        || choice_for(sel, i as usize) matches Some(TopologyExpr::Anchor(_))) by {
        assert(st2.memo[i] == st.memo[i]);
        assert(st2.ids[st.memo[i]->0 as int] == st.ids[st.memo[i]->0 as int]);
    }
}

proof fn lemma_mat_anchor_ids(
    src: Netlist<StdCellType>,
    sel: Seq<(usize, TopologyExpr)>,
    active: Seq<bool>,
    st: MatModel,
    a: usize,
    cap: nat,
)
    requires
        st.nodes.len() < cap ==> mat_inv(st, src.nodes@.len()) && memo_ids(st, sel),
        cap <= usize::MAX + 1,
    ensures
        mat_anchor(src, sel, active, st, a).0.nodes.len() < cap ==> memo_ids(
            mat_anchor(src, sel, active, st, a).0,
            sel,
        ),
    decreases open_anchors(src.nodes@.len(), active), 0nat, 0nat,
{
    lemma_mat_anchor_inv(src, sel, active, st, a, cap);
    let n = src.nodes@.len();
    if active.len() != n || st.memo.len() != n || a >= n {
    } else if st.memo[a as int] is Some {
    } else if active[a as int] {
    } else {
        let act = active.update(a as int, true);
        lemma_count_true_set(active, a as int);
        lemma_count_true_bound(act);
        let w = src.nodes@[a as int]@;
        let (st2, r) = mat_anchor(src, sel, active, st, a);
        if src.leaves@.contains(a) || w is Bool {
            if choice_for(sel, a) is None && st2.nodes.len() < cap {
                let nid = st.nodes.len() as usize;
                let mid = MatModel {
                    nodes: st.nodes.push(w),
                    leaves: st.leaves.push(nid),
                    ids: st.ids.push(OccurrenceModel::Original(a)),
                    ..st
                };
                lemma_push_original_ids(st, sel, mid, a);
                lemma_remember_ids(mid, sel, a, nid);
            }
        } else if src.roots@.contains(a) {
            let ch = fanins_of(src.edges@, a as int);
            if choice_for(sel, a) is None && ch.len() == 1 {
                lemma_mat_anchor_inv(src, sel, act, st, ch[0], cap);
                lemma_mat_anchor_ids(src, sel, act, st, ch[0], cap);
                let (st1, r1) = mat_anchor(src, sel, act, st, ch[0]);
                if r1 is Ok && st2.nodes.len() < cap {
                    let nid = st1.nodes.len() as usize;
                    let mid = MatModel {
                        nodes: st1.nodes.push(w),
                        edges: st1.edges.push((nid, r1->Ok_0)),
                        roots: st1.roots.push(nid),
                        ids: st1.ids.push(OccurrenceModel::Original(a)),
                        ..st1
                    };
                    lemma_push_original_ids(st1, sel, mid, a);
                    lemma_remember_ids(mid, sel, a, nid);
                }
            }
        } else {
            match choice_for(sel, a) {
                Some(e) => {
                    lemma_mat_expr_inv(src, sel, act, st, a, e, Seq::empty(), cap);
                    lemma_mat_expr_ids(src, sel, act, st, a, e, Seq::empty(), cap);
                    let (st1, r1) = mat_expr(src, sel, act, st, a, e, Seq::empty());
                    if r1 is Ok && st2.nodes.len() < cap {
                        lemma_remember_ids(st1, sel, a, r1->Ok_0);
                    }
                },
                None => {
                    let ch = fanins_of(src.edges@, a as int);
                    lemma_mat_anchor_list_inv(src, sel, act, st, ch, 0, Seq::empty(), cap);
                    lemma_mat_anchor_list_ids(src, sel, act, st, ch, 0, Seq::empty(), cap);
                    let (st0, kids) = mat_anchor_list(src, sel, act, st, ch, 0, Seq::empty());
                    if kids is Ok && st2.nodes.len() < cap {
                        lemma_finish_cell_ids(st0, sel, a, cell_from_text(cell_text(w)), kids->Ok_0, Seq::empty());
                        let (st3, nid) = finish_cell(
                            st0,
                            a,
                            cell_from_text(cell_text(w)),
                            kids->Ok_0,
                            Seq::empty(),
                        );
                        lemma_remember_ids(st3, sel, a, nid);
                    }
                },
            }
        }
    }
}

proof fn lemma_mat_anchor_list_ids(
    src: Netlist<StdCellType>,
    sel: Seq<(usize, TopologyExpr)>,
    active: Seq<bool>,
    st: MatModel,
    ch: Seq<usize>,
    i: int,
    acc: Seq<usize>,
    cap: nat,
)
    requires
        st.nodes.len() < cap ==> mat_inv(st, src.nodes@.len()) && memo_ids(st, sel),
        cap <= usize::MAX + 1,
        st.nodes.len() < cap ==> forall|k: int| 0 <= k < acc.len() ==> #[trigger] acc[k] < st.nodes.len(),
    ensures
        mat_anchor_list(src, sel, active, st, ch, i, acc).0.nodes.len() < cap ==> memo_ids(
            mat_anchor_list(src, sel, active, st, ch, i, acc).0,
            sel,
        ),
    decreases open_anchors(src.nodes@.len(), active), 0nat, (ch.len() - i + 1) as nat,
{
    if i >= 0 && i < ch.len() {
        lemma_mat_anchor_inv(src, sel, active, st, ch[i], cap);
        lemma_mat_anchor_ids(src, sel, active, st, ch[i], cap);
        let (st1, r) = mat_anchor(src, sel, active, st, ch[i]);
        if r is Ok {
            lemma_mat_anchor_list_inv(src, sel, active, st1, ch, i + 1, acc.push(r->Ok_0), cap);
            lemma_mat_anchor_list_ids(src, sel, active, st1, ch, i + 1, acc.push(r->Ok_0), cap);
        }
    }
}

proof fn lemma_mat_expr_ids(
    src: Netlist<StdCellType>,
    sel: Seq<(usize, TopologyExpr)>,
    active: Seq<bool>,
    st: MatModel,
    owner: usize,
    e: TopologyExpr,
    path: Seq<usize>,
    cap: nat,
)
    requires
        st.nodes.len() < cap ==> mat_inv(st, src.nodes@.len()) && memo_ids(st, sel),
        cap <= usize::MAX + 1,
    ensures
        ({
            let (st2, r) = mat_expr(src, sel, active, st, owner, e, path);
            &&& st2.nodes.len() < cap ==> memo_ids(st2, sel)
            &&& (st2.nodes.len() < cap && r is Ok && e is Cell && path.len() == 0) ==> st2.ids[r->Ok_0 as int]
                == OccurrenceModel::Original(owner)
        }),
    decreases open_anchors(src.nodes@.len(), active), expr_size(e), 0nat,
{
    lemma_mat_expr_inv(src, sel, active, st, owner, e, path, cap);
    match e {
        TopologyExpr::Anchor(b) => {
            lemma_mat_anchor_ids(src, sel, active, st, b, cap);
        },
        TopologyExpr::Cell { op, children } => {
            let bound = (expr_size(e) - 1) as nat;
            lemma_mat_children_inv(src, sel, active, st, owner, children@, path, 0, Seq::empty(), bound, cap);
            lemma_mat_children_ids(src, sel, active, st, owner, children@, path, 0, Seq::empty(), bound, cap);
            let (st1, r) = mat_children(src, sel, active, st, owner, children@, path, 0, Seq::empty(), bound);
            let (st2, r2) = mat_expr(src, sel, active, st, owner, e, path);
            if r is Ok && st2.nodes.len() < cap {
                lemma_finish_cell_ids(st1, sel, owner, cell_from_text(op@), r->Ok_0, path);
            }
        },
    }
}

proof fn lemma_mat_children_ids(
    src: Netlist<StdCellType>,
    sel: Seq<(usize, TopologyExpr)>,
    active: Seq<bool>,
    st: MatModel,
    owner: usize,
    cs: Seq<TopologyExpr>,
    path: Seq<usize>,
    i: int,
    acc: Seq<usize>,
    bound: nat,
    cap: nat,
)
    requires
        st.nodes.len() < cap ==> mat_inv(st, src.nodes@.len()) && memo_ids(st, sel),
        cap <= usize::MAX + 1,
        st.nodes.len() < cap ==> forall|k: int| 0 <= k < acc.len() ==> #[trigger] acc[k] < st.nodes.len(),
    ensures
        mat_children(src, sel, active, st, owner, cs, path, i, acc, bound).0.nodes.len() < cap
            ==> memo_ids(mat_children(src, sel, active, st, owner, cs, path, i, acc, bound).0, sel),
    decreases open_anchors(src.nodes@.len(), active), bound, (cs.len() - i + 1) as nat,
{
    if i >= 0 && i < cs.len() && expr_size(cs[i]) < bound {
        lemma_mat_expr_inv(src, sel, active, st, owner, cs[i], path.push(i as usize), cap);
        lemma_mat_expr_ids(src, sel, active, st, owner, cs[i], path.push(i as usize), cap);
        let (st1, r) = mat_expr(src, sel, active, st, owner, cs[i], path.push(i as usize));
        if r is Ok {
            lemma_mat_children_inv(src, sel, active, st1, owner, cs, path, i + 1, acc.push(r->Ok_0), bound, cap);
            lemma_mat_children_ids(src, sel, active, st1, owner, cs, path, i + 1, acc.push(r->Ok_0), bound, cap);
        }
    }
}

proof fn lemma_mat_roots_ids(src: Netlist<StdCellType>, sel: Seq<(usize, TopologyExpr)>, st: MatModel, i: int)
    requires
        st.nodes.len() < usize::MAX + 1 ==> mat_inv(st, src.nodes@.len()) && memo_ids(st, sel),
    ensures
        mat_roots(src, sel, st, i).0.nodes.len() < usize::MAX + 1 ==> memo_ids(mat_roots(src, sel, st, i).0, sel),
    decreases src.roots@.len() - i,
{
    if i >= 0 && i < src.roots@.len() {
        let act = no_active(src.nodes@.len());
        lemma_mat_anchor_inv(src, sel, act, st, src.roots@[i], (usize::MAX + 1) as nat);
        lemma_mat_anchor_ids(src, sel, act, st, src.roots@[i], (usize::MAX + 1) as nat);
        let (st1, r) = mat_anchor(src, sel, act, st, src.roots@[i]);
        if r is Ok {
            lemma_mat_roots_inv(src, sel, st1, i + 1);
            lemma_mat_roots_ids(src, sel, st1, i + 1);
        }
    }
}

proof fn lemma_mat_anchor_keeps_created(
    src: Netlist<StdCellType>,
    sel: Seq<(usize, TopologyExpr)>,
    active: Seq<bool>,
    st: MatModel,
    a: usize,
)
    requires
        sel.len() == 0,
    ensures
        mat_anchor(src, sel, active, st, a).0.created == st.created,
    decreases open_anchors(src.nodes@.len(), active), 0nat, 0nat,
{
    let n = src.nodes@.len();
    if active.len() != n || st.memo.len() != n || a >= n {
    } else if st.memo[a as int] is Some {
    } else if active[a as int] {
    } else {
        let act = active.update(a as int, true);
        lemma_count_true_set(active, a as int);
        lemma_count_true_bound(act);
        let w = src.nodes@[a as int]@;
        if src.leaves@.contains(a) || w is Bool {
        } else if src.roots@.contains(a) {
            let ch = fanins_of(src.edges@, a as int);
            if ch.len() == 1 {
                lemma_mat_anchor_keeps_created(src, sel, act, st, ch[0]);
            }
        } else {
            let ch = fanins_of(src.edges@, a as int);
            lemma_mat_anchor_list_keeps_created(src, sel, act, st, ch, 0, Seq::empty());
        }
    }
}

proof fn lemma_mat_anchor_list_keeps_created(
    src: Netlist<StdCellType>,
    sel: Seq<(usize, TopologyExpr)>,
    active: Seq<bool>,
    st: MatModel,
    ch: Seq<usize>,
    i: int,
    acc: Seq<usize>,
)
    requires
        sel.len() == 0,
    ensures
        mat_anchor_list(src, sel, active, st, ch, i, acc).0.created == st.created,
    decreases open_anchors(src.nodes@.len(), active), 0nat, (ch.len() - i + 1) as nat,
{
    if i >= 0 && i < ch.len() {
        lemma_mat_anchor_keeps_created(src, sel, active, st, ch[i]);
        let (st1, r) = mat_anchor(src, sel, active, st, ch[i]);
        if r is Ok {
            lemma_mat_anchor_list_keeps_created(src, sel, active, st1, ch, i + 1, acc.push(r->Ok_0));
        }
    }
}

proof fn lemma_mat_roots_keeps_created(src: Netlist<StdCellType>, sel: Seq<(usize, TopologyExpr)>, st: MatModel, i: int)
    requires
        sel.len() == 0,
    ensures
        mat_roots(src, sel, st, i).0.created == st.created,
    decreases src.roots@.len() - i,
{
    if i >= 0 && i < src.roots@.len() {
        let act = no_active(src.nodes@.len());
        lemma_mat_anchor_keeps_created(src, sel, act, st, src.roots@[i]);
        let (st1, r) = mat_anchor(src, sel, act, st, src.roots@[i]);
        if r is Ok {
            lemma_mat_roots_keeps_created(src, sel, st1, i + 1);
        }
    }
}

/// With no topology choices, materialization recovers the base netlist:
/// no cell is generated.
pub proof fn lemma_empty_selection_creates_nothing(src: Netlist<StdCellType>)
    ensures
        mat_roots(src, Seq::empty(), start_model(src.nodes@.len()), 0).0.created.len() == 0,
{
    lemma_mat_roots_keeps_created(src, Seq::empty(), start_model(src.nodes@.len()), 0);
}

/// Source edge `k` (a consumer and one of its drivers) is kept: when the
/// consumer is materialized as a cell, its driver is materialized too and
/// the materialized consumer reads the materialized driver.
pub open spec fn edge_kept(src: Netlist<StdCellType>, st: MatModel, k: int) -> bool {
    let p = src.edges@[k].0;
    let c = src.edges@[k].1;
    (p < st.memo.len() && st.memo[p as int] is Some && !src.leaves@.contains(p) && !(src.nodes@[p as int]@ is Bool))
        ==> (c < st.memo.len() && st.memo[c as int] is Some && st.edges.contains(
        (st.memo[p as int]->0, st.memo[c as int]->0),
    ))
}

/// Every source edge is kept.
pub open spec fn keeps_edges(src: Netlist<StdCellType>, st: MatModel) -> bool {
    forall|k: int| 0 <= k < src.edges@.len() ==> #[trigger] edge_kept(src, st, k)
}

/// `st2` extends `st`: materialized anchors keep their nodes, anchors being
/// materialized stay unmaterialized, and edges are only appended.
pub open spec fn extends(st: MatModel, st2: MatModel, active: Seq<bool>) -> bool {
    &&& st2.memo.len() == st.memo.len()
    &&& forall|i: int| 0 <= i < st.memo.len() && (#[trigger] st.memo[i]) is Some ==> st2.memo[i] == st.memo[i]
    &&& forall|i: int| 0 <= i < st.memo.len() && i < active.len() && #[trigger] active[i] ==> st2.memo[i] == st.memo[i]
    &&& st.edges.len() <= st2.edges.len()
    &&& forall|k: int| 0 <= k < st.edges.len() ==> #[trigger] st2.edges[k] == st.edges[k]
}

/// Every materialized edge is the image of a source edge: its consumer and
/// driver are the materializations of a source consumer and its driver.
pub open spec fn edges_sourced(src: Netlist<StdCellType>, st: MatModel) -> bool {
    forall|j: int| 0 <= j < st.edges.len() ==> #[trigger] edge_sourced(src, st, st.edges[j])
}

/// The materialized edge `e` is the image of some source edge.
pub open spec fn edge_sourced(src: Netlist<StdCellType>, st: MatModel, e: (usize, usize)) -> bool {
    exists|k: int| 0 <= k < src.edges@.len() && #[trigger] edge_image(src, st, k, e)
}

/// The materialized edge `e` is the image of source edge `k`.
pub open spec fn edge_image(src: Netlist<StdCellType>, st: MatModel, k: int, e: (usize, usize)) -> bool {
    &&& src.edges@[k].0 < st.memo.len()
    &&& src.edges@[k].1 < st.memo.len()
    &&& st.memo[src.edges@[k].0 as int] == Some(e.0)
    &&& st.memo[src.edges@[k].1 as int] == Some(e.1)
}

proof fn lemma_fanin_source(edges: Seq<(usize, usize)>, node: int, t: int)
    requires
        0 <= t < fanins_of(edges, node).len(),
    ensures
        exists|k: int| 0 <= k < edges.len() && #[trigger] edges[k] == (node as usize, fanins_of(edges, node)[t]),
    decreases edges.len(),
{
    let g = fanins_of(edges.drop_last(), node);
    if t < g.len() {
        lemma_fanin_source(edges.drop_last(), node, t);
        let k = choose|k: int| 0 <= k < edges.drop_last().len() && #[trigger] edges.drop_last()[k] == (node as usize, g[t]);
        assert(edges[k] == edges.drop_last()[k]);
        if edges.last().0 == node {
            assert(fanins_of(edges, node)[t] == g[t]);
        }
    } else {
        assert(edges.last().0 == node);
        assert(edges[edges.len() - 1] == (node as usize, fanins_of(edges, node)[t]));
    }
}

proof fn lemma_extends_sourced(src: Netlist<StdCellType>, st: MatModel, st2: MatModel, active: Seq<bool>)
    requires
        extends(st, st2, active),
        edges_sourced(src, st),
    ensures
        forall|j: int| 0 <= j < st.edges.len() ==> #[trigger] edge_sourced(src, st2, st2.edges[j]),
{
    assert forall|j: int| 0 <= j < st.edges.len() implies #[trigger] edge_sourced(src, st2, st2.edges[j]) by {
        assert(edge_sourced(src, st, st.edges[j]));
        let k = choose|k: int| 0 <= k < src.edges@.len() && #[trigger] edge_image(src, st, k, st.edges[j]);
        assert(st2.edges[j] == st.edges[j]);
        assert(edge_image(src, st2, k, st2.edges[j]));
    }
}

proof fn lemma_fanin_listed(edges: Seq<(usize, usize)>, node: int, k: int)
    requires
        0 <= k < edges.len(),
        edges[k].0 == node,
    ensures
        fanins_of(edges, node).contains(edges[k].1),
    decreases edges.len(),
{
    let f = fanins_of(edges, node);
    if k == edges.len() - 1 {
        assert(f[f.len() - 1] == edges[k].1);
    } else {
        lemma_fanin_listed(edges.drop_last(), node, k);
        let g = fanins_of(edges.drop_last(), node);
        let t = choose|t: int| 0 <= t < g.len() && g[t] == edges[k].1;
        if edges.last().0 == node {
            assert(f[t] == g[t]);
        }
    }
}

proof fn lemma_extends_keeps(src: Netlist<StdCellType>, st: MatModel, st2: MatModel, active: Seq<bool>, k: int)
    requires
        extends(st, st2, active),
        0 <= k < src.edges@.len(),
        edge_kept(src, st, k),
        src.edges@[k].0 < st.memo.len() ==> (st.memo[src.edges@[k].0 as int] is Some || st2.memo[
            src.edges@[k].0 as int
        ] is None),
    ensures
        edge_kept(src, st2, k),
{
    let p = src.edges@[k].0;
    let c = src.edges@[k].1;
    if p < st2.memo.len() && st2.memo[p as int] is Some && !src.leaves@.contains(p) && !(
    src.nodes@[p as int]@ is Bool) {
        assert(st.memo[p as int] is Some);
        let e = (st.memo[p as int]->0, st.memo[c as int]->0);
        let j = choose|j: int| 0 <= j < st.edges.len() && st.edges[j] == e;
        assert(st2.edges[j] == e);
    }
}

proof fn lemma_extends_trans(st: MatModel, st1: MatModel, st2: MatModel, wide: Seq<bool>, active: Seq<bool>)
    requires
        extends(st, st1, wide),
        extends(st1, st2, active),
        active.len() == wide.len(),
        forall|i: int| 0 <= i < active.len() && #[trigger] active[i] ==> wide[i],
    ensures
        extends(st, st2, active),
{
    assert forall|i: int| 0 <= i < st.memo.len() && (#[trigger] st.memo[i]) is Some implies st2.memo[i] == st.memo[i] by {
        assert(st1.memo[i] == st.memo[i]);
    }
    assert forall|i: int| 0 <= i < st.memo.len() && i < active.len() && #[trigger] active[i] implies st2.memo[i] == st.memo[i] by {
        assert(wide[i]);
        assert(st1.memo[i] == st.memo[i]);
    }
    assert forall|k: int| 0 <= k < st.edges.len() implies #[trigger] st2.edges[k] == st.edges[k] by {
        assert(st1.edges[k] == st.edges[k]);
    }
}

proof fn lemma_base_anchor_keeps(
    src: Netlist<StdCellType>,
    sel: Seq<(usize, TopologyExpr)>,
    active: Seq<bool>,
    st: MatModel,
    a: usize,
)
    requires
        sel.len() == 0,
        keeps_edges(src, st),
        edges_sourced(src, st),
    ensures
        ({
            let (st2, r) = mat_anchor(src, sel, active, st, a);
            r is Ok ==> {
                &&& extends(st, st2, active)
                &&& keeps_edges(src, st2)
                &&& edges_sourced(src, st2)
                &&& a < st2.memo.len()
                &&& st2.memo[a as int] == Some(r->Ok_0)
            }
        }),
    decreases open_anchors(src.nodes@.len(), active), 0nat, 0nat,
{
    let n = src.nodes@.len();
    let (st2, r) = mat_anchor(src, sel, active, st, a);
    if active.len() != n || st.memo.len() != n || a >= n {
    } else if st.memo[a as int] is Some {
    } else if active[a as int] {
    } else {
        let act = active.update(a as int, true);
        lemma_count_true_set(active, a as int);
        lemma_count_true_bound(act);
        let w = src.nodes@[a as int]@;
        if src.leaves@.contains(a) || w is Bool {
            if r is Ok {
                assert(st2.memo == st.memo.update(a as int, Some(r->Ok_0)));
                assert(st2.edges == st.edges);
                assert(extends(st, st2, active));
                assert forall|k: int| 0 <= k < src.edges@.len() implies #[trigger] edge_kept(src, st2, k) by {
                    assert(edge_kept(src, st, k));
                    let p = src.edges@[k].0;
                    if p != a {
                        lemma_extends_keeps(src, st, st2, active, k);
                    }
                }
                lemma_extends_sourced(src, st, st2, active);
            }
        } else if src.roots@.contains(a) {
            let ch = fanins_of(src.edges@, a as int);
            if ch.len() == 1 {
                lemma_base_anchor_keeps(src, sel, act, st, ch[0]);
                let (st1, r1) = mat_anchor(src, sel, act, st, ch[0]);
                if r1 is Ok {
                    let c0 = r1->Ok_0;
                    let nid = st1.nodes.len() as usize;
                    assert(act[a as int]);
                    assert(st1.memo[a as int] == st.memo[a as int]);
                    assert(ch[0] != a);
                    assert(st2.edges == st1.edges.push((nid, c0)));
                    assert(st2.memo == st1.memo.update(a as int, Some(nid)));
                    assert(extends(st1, st2, active));
                    lemma_extends_trans(st, st1, st2, act, active);
                    lemma_extends_sourced(src, st1, st2, active);
                    lemma_fanin_source(src.edges@, a as int, 0);
                    assert forall|j: int| 0 <= j < st2.edges.len() implies #[trigger] edge_sourced(src, st2, st2.edges[j]) by {
                        if j == st1.edges.len() {
                            let k = choose|k: int| 0 <= k < src.edges@.len() && #[trigger] src.edges@[k] == (a, ch[0]);
                            assert(edge_image(src, st2, k, st2.edges[j]));
                        }
                    }
                    assert forall|k: int| 0 <= k < src.edges@.len() implies #[trigger] edge_kept(src, st2, k) by {
                        assert(edge_kept(src, st1, k));
                        let p = src.edges@[k].0;
                        if p == a {
                            lemma_fanin_listed(src.edges@, a as int, k);
                            assert(src.edges@[k].1 == ch[0]);
                            assert(st2.edges[st1.edges.len() as int] == (nid, c0));
                        } else {
                            lemma_extends_keeps(src, st1, st2, active, k);
                        }
                    }
                }
            }
        } else {
            let ch = fanins_of(src.edges@, a as int);
            lemma_base_list_keeps(src, sel, act, st, ch, 0, Seq::empty());
            let (st0, kids) = mat_anchor_list(src, sel, act, st, ch, 0, Seq::empty());
            if kids is Ok {
                let ks = kids->Ok_0;
                let (st3, nid) = finish_cell(st0, a, cell_from_text(cell_text(w)), ks, Seq::empty());
                assert(act[a as int]);
                assert(st0.memo[a as int] == st.memo[a as int]);
                assert(st3.edges == st0.edges + ks.map_values(|c: usize| (nid, c)));
                assert(st2.memo == st0.memo.update(a as int, Some(nid)));
                assert(extends(st0, st2, active));
                lemma_extends_trans(st, st0, st2, act, active);
                lemma_extends_sourced(src, st0, st2, active);
                assert forall|j: int| 0 <= j < st2.edges.len() implies #[trigger] edge_sourced(src, st2, st2.edges[j]) by {
                    if j >= st0.edges.len() {
                        let t = j - st0.edges.len();
                        assert(st2.edges[j] == (nid, ks[t]));
                        lemma_fanin_source(src.edges@, a as int, t);
                        let k = choose|k: int| 0 <= k < src.edges@.len() && #[trigger] src.edges@[k] == (a, ch[t]);
                        assert(st0.memo[ch[t] as int] == Some(ks[t]));
                        assert(ch[t] != a);
                        assert(edge_image(src, st2, k, st2.edges[j]));
                    }
                }
                assert forall|k: int| 0 <= k < src.edges@.len() implies #[trigger] edge_kept(src, st2, k) by {
                    assert(edge_kept(src, st0, k));
                    let p = src.edges@[k].0;
                    let c = src.edges@[k].1;
                    if p == a {
                        lemma_fanin_listed(src.edges@, a as int, k);
                        let t = choose|t: int| 0 <= t < ch.len() && ch[t] == c;
                        assert(st0.memo[ch[t] as int] == Some(ks[t]));
                        assert(c != a);
                        assert(st2.edges[st0.edges.len() + t] == (nid, ks[t]));
                    } else {
                        lemma_extends_keeps(src, st0, st2, active, k);
                    }
                }
            }
        }
    }
}

proof fn lemma_base_list_keeps(
    src: Netlist<StdCellType>,
    sel: Seq<(usize, TopologyExpr)>,
    active: Seq<bool>,
    st: MatModel,
    ch: Seq<usize>,
    i: int,
    acc: Seq<usize>,
)
    requires
        sel.len() == 0,
        keeps_edges(src, st),
        edges_sourced(src, st),
        0 <= i <= ch.len(),
        acc.len() == i,
        forall|t: int| 0 <= t < i ==> ch[t] < st.memo.len() && st.memo[#[trigger] ch[t] as int] == Some(acc[t]),
    ensures
        ({
            let (st2, r) = mat_anchor_list(src, sel, active, st, ch, i, acc);
            r is Ok ==> {
                &&& extends(st, st2, active)
                &&& keeps_edges(src, st2)
                &&& edges_sourced(src, st2)
                &&& r->Ok_0.len() == ch.len()
                &&& forall|t: int| 0 <= t < ch.len() ==> ch[t] < st2.memo.len() && st2.memo[#[trigger] ch[t] as int]
                    == Some(r->Ok_0[t])
            }
        }),
    decreases open_anchors(src.nodes@.len(), active), 0nat, (ch.len() - i + 1) as nat,
{
    if i < ch.len() {
        lemma_base_anchor_keeps(src, sel, active, st, ch[i]);
        let (st1, r) = mat_anchor(src, sel, active, st, ch[i]);
        if r is Ok {
            let acc1 = acc.push(r->Ok_0);
            assert forall|t: int| 0 <= t < i + 1 implies ch[t] < st1.memo.len() && st1.memo[#[trigger] ch[t] as int] == Some(acc1[t]) by {
                if t < i {
                    assert(st.memo[ch[t] as int] is Some);
                }
            }
            lemma_base_list_keeps(src, sel, active, st1, ch, i + 1, acc1);
            let (st2, r2) = mat_anchor_list(src, sel, active, st1, ch, i + 1, acc1);
            if r2 is Ok {
                assert forall|x: int| 0 <= x < st.memo.len() && i < active.len() && #[trigger] active[x] implies st2.memo[x] == st.memo[x] by {}
            }
        }
    } else {
        assert(acc =~= acc);
    }
}

/// With no topology choices, the materialized edges are exactly the images
/// of the source edges between materialized originals: each materialized
/// cell reads the materializations of all its drivers, and no other edge
/// appears, so a shared driver, materialized once, feeds each materialized
/// consumer.
pub proof fn lemma_base_materialization_keeps_fanout(src: Netlist<StdCellType>)
    ensures
        ({
            let (st, res) = mat_roots(src, Seq::empty(), start_model(src.nodes@.len()), 0);
            res is Ok ==> keeps_edges(src, st) && edges_sourced(src, st)
        }),
{
    let st0 = start_model(src.nodes@.len());
    assert forall|k: int| 0 <= k < src.edges@.len() implies #[trigger] edge_kept(src, st0, k) by {}
    assert(edges_sourced(src, st0));
    lemma_base_roots_keeps(src, st0, 0);
}

proof fn lemma_base_roots_keeps(src: Netlist<StdCellType>, st: MatModel, i: int)
    requires
        keeps_edges(src, st),
        edges_sourced(src, st),
    ensures
        ({
            let (st2, res) = mat_roots(src, Seq::empty(), st, i);
            res is Ok ==> keeps_edges(src, st2) && edges_sourced(src, st2)
        }),
    decreases src.roots@.len() - i,
{
    if i >= 0 && i < src.roots@.len() {
        let act = no_active(src.nodes@.len());
        lemma_base_anchor_keeps(src, Seq::empty(), act, st, src.roots@[i]);
        let (st1, r) = mat_anchor(src, Seq::empty(), act, st, src.roots@[i]);
        if r is Ok {
            lemma_base_roots_keeps(src, st1, i + 1);
        }
    }
}

/// With no topology choices, distinct originals are materialized as
/// distinct nodes: equal logic over the same drivers is never merged, and
/// each original that is materialized has exactly one node.
pub proof fn lemma_base_materialization_injective(src: Netlist<StdCellType>, a: int, b: int)
    requires
        src.nodes@.len() <= usize::MAX,
        0 <= a < src.nodes@.len(),
        0 <= b < src.nodes@.len(),
        a != b,
    ensures
        ({
            let (st, res) = mat_roots(src, Seq::empty(), start_model(src.nodes@.len()), 0);
            (res is Ok && st.nodes.len() <= usize::MAX && st.memo[a] is Some) ==> st.memo[a] != st.memo[b]
        }),
{
    let n = src.nodes@.len();
    let st0 = start_model(n);
    let sel = Seq::<(usize, TopologyExpr)>::empty();
    assert(mat_inv(st0, n));
    assert(memo_ids(st0, sel));
    lemma_mat_roots_inv(src, sel, st0, 0);
    lemma_mat_roots_ids(src, sel, st0, 0);
    let (st, res) = mat_roots(src, sel, st0, 0);
    if res is Ok && st.nodes.len() <= usize::MAX && st.memo[a] is Some && st.memo[a] == st.memo[b] {
        lemma_anchors_never_merge(st, sel, a, b);
    }
}

/// Distinct original anchors never share a materialized node unless the
/// selection realizes one of them by another anchor: equal logic (the same
/// cell over the same drivers) is never merged.
pub proof fn lemma_anchors_never_merge(st: MatModel, sel: Seq<(usize, TopologyExpr)>, a: int, b: int)
    requires
        memo_ids(st, sel),
        st.memo.len() <= usize::MAX,
        0 <= a < st.memo.len(),
        0 <= b < st.memo.len(),
        a != b,
        st.memo[a] is Some,
        st.memo[a] == st.memo[b],
    ensures
        (choice_for(sel, a as usize) matches Some(TopologyExpr::Anchor(_))) || (choice_for(
            sel,
            b as usize,
        ) matches Some(TopologyExpr::Anchor(_))),
{
    assert(st.memo[b] is Some);
    assert(st.memo[a] is Some);
    let x = st.memo[a]->0 as int;
    if !(choice_for(sel, a as usize) matches Some(TopologyExpr::Anchor(_))) && !(choice_for(
        sel,
        b as usize,
    ) matches Some(TopologyExpr::Anchor(_))) {
        assert(st.ids[x] == OccurrenceModel::Original(a as usize));
        assert(st.ids[x] == OccurrenceModel::Original(b as usize));
    }
}

/// The netlist obtained by realizing every reachable anchor, with the
/// identity of each materialized node, the materialization of each original
/// anchor, the generated cells and the originals that became dead.
#[derive(Debug)]
pub struct PhysicalizedTopology {
    pub netlist: Netlist<StdCellType>,
    pub physical_ids: Vec<PhysicalOccurrenceId>,
    pub original_to_materialized: Vec<Option<usize>>,
    pub created: Vec<PhysicalOccurrenceId>,
    pub deleted_originals: Vec<usize>,
}

/// Materializes only the region reachable from primary outputs.  This
/// enforces root reachability, recursive child closure, no implicit anchor
/// merge, cycle rejection, and dead-region removal by construction.
pub fn physicalize_topology(
    source: &Netlist<StdCellType>,
    selection: &TopologySelection,
) -> (r: Result<PhysicalizedTopology, String>)
    requires
        source.wf(),
    ensures
        ({
            let n = source.nodes@.len();
            match petgraph_toposort(n, source.edges@) {
                Err(c) => r matches Err(m) && m@ == source_cycle_message(c),
                Ok(_) => {
                    let (st, res) = mat_roots(*source, selection.choices@, start_model(n), 0);
                    match res {
                        Err(e) => r matches Err(m) && m@ == materialize_message(e),
                        Ok(_) => r matches Ok(p) && {
                            &&& p.netlist.nodes@.map_values(|w: StdCellType| w@) == st.nodes
                            &&& p.netlist.edges@ == st.edges
                            &&& p.netlist.roots@ == st.roots
                            &&& p.netlist.leaves@ == st.leaves
                            &&& p.physical_ids@.map_values(|o: PhysicalOccurrenceId| o@) == st.ids
                            &&& p.original_to_materialized@ == st.memo
                            &&& p.deleted_originals@ == unmaterialized(st.memo)
                            &&& occ_sorted(p.created@.map_values(|o: PhysicalOccurrenceId| o@))
                            &&& p.created@.map_values(|o: PhysicalOccurrenceId| o@).to_multiset()
                                == st.created.to_multiset()
                            &&& mat_inv(st, n)
                            &&& memo_ids(st, selection.choices@)
                            &&& p.netlist.wf()
                            &&& acyclic(p.netlist.nodes@.len(), p.netlist.edges@)
                        },
                    }
                },
            }
        }),
{
    let n = source.node_count();
    match toposort_nodes(n, &source.edges) {
        Err(c) => {
            return Err(cycle_message_text("source netlist contains a cycle: ", c));
        },
        Ok(_) => {},
    }
    let mut memo: Vec<Option<usize>> = Vec::new();
    let mut active: Vec<bool> = Vec::new();
    let mut k: usize = 0;
    while k < n
        invariant
            0 <= k <= n,
            memo@ == Seq::new(k as nat, |j: int| None::<usize>),
            active@ == Seq::new(k as nat, |j: int| false),
        decreases n - k,
    {
        memo.push(None);
        active.push(false);
        proof {
            assert(memo@ =~= Seq::new((k + 1) as nat, |j: int| None::<usize>));
            assert(active@ =~= Seq::new((k + 1) as nat, |j: int| false));
        }
        k = k + 1;
    }
    let mut st = MatState { result: Netlist::new(), memo, ids: Vec::new(), created: Vec::new() };
    assert(st.model() =~= start_model(n as nat));
    let ghost spec_run = mat_roots(*source, selection.choices@, start_model(n as nat), 0);
    let mut i: usize = 0;
    while i < source.roots.len()
        invariant
            0 <= i <= source.roots@.len(),
            n == source.nodes@.len(),
            active@ == no_active(n as nat),
            st.memo@.len() == n,
            spec_run == mat_roots(*source, selection.choices@, st.model(), i as int),
            spec_run == mat_roots(*source, selection.choices@, start_model(n as nat), 0),
            petgraph_toposort(n as nat, source.edges@) is Ok,
        decreases source.roots.len() - i,
    {
        match materialize_anchor(source, selection, &mut active, &mut st, source.roots[i]) {
            Err(e) => {
                return Err(materialize_message_text(e));
            },
            Ok(_) => {},
        }
        i = i + 1;
    }
    let total = st.result.nodes.len();
    proof {
        lemma_mat_roots_inv(*source, selection.choices@, start_model(n as nat), 0);
        lemma_mat_roots_ids(*source, selection.choices@, start_model(n as nat), 0);
        assert(spec_run.0 == st.model());
        assert(mat_inv(st.model(), n as nat));
        lemma_descending_edges_acyclic(st.result.nodes@.len(), st.result.edges@);
    }
    match toposort_nodes(st.result.nodes.len(), &st.result.edges) {
        Err(c) => {
            return Err(cycle_message_text("physicalized topology contains a cycle: ", c));
        },
        Ok(_) => {},
    }
    let mut deleted_originals: Vec<usize> = Vec::new();
    let mut j: usize = 0;
    while j < n
        invariant
            0 <= j <= n,
            st.memo@.len() == n,
            deleted_originals@ == unmaterialized(st.memo@.take(j as int)),
        decreases n - j,
    {
        assert(st.memo@.take(j + 1).drop_last() =~= st.memo@.take(j as int));
        if st.memo[j].is_none() {
            deleted_originals.push(j);
        }
        j = j + 1;
    }
    assert(st.memo@.take(n as int) =~= st.memo@);
    let MatState { result, memo, ids, created } = st;
    let created = sort_occurrences(created);
    Ok(PhysicalizedTopology {
        netlist: result,
        physical_ids: ids,
        original_to_materialized: memo,
        created,
        deleted_originals,
    })
}

/// The value of an expression: cell names as text.
pub enum ExprModel {
    Anchor(usize),
    Cell(Seq<char>, Seq<ExprModel>),
}

/// The value of an expression.
pub open spec fn expr_model(e: TopologyExpr) -> ExprModel
    decreases e,
{
    match e {
        TopologyExpr::Anchor(a) => ExprModel::Anchor(a),
        TopologyExpr::Cell { op, children } => ExprModel::Cell(op@, children_model(children@)),
    }
}

/// The values of a list of expressions.
pub open spec fn children_model(cs: Seq<TopologyExpr>) -> Seq<ExprModel>
    decreases cs,
{
    if cs.len() == 0 {
        Seq::empty()
    } else {
        children_model(cs.drop_last()).push(expr_model(cs.last()))
    }
}

/// A copy of an expression, of the same value.
pub fn copy_expr(e: &TopologyExpr) -> (r: TopologyExpr)
    ensures
        expr_model(r) == expr_model(*e),
    decreases expr_size(*e),
{
    match e {
        TopologyExpr::Anchor(a) => TopologyExpr::Anchor(*a),
        TopologyExpr::Cell { op, children } => {
            let mut kids: Vec<TopologyExpr> = Vec::new();
            let mut i: usize = 0;
            while i < children.len()
                invariant
                    0 <= i <= children@.len(),
                    children_model(kids@) == children_model(children@.take(i as int)),
                    kids@.len() == i,
                    children_size(children@) < expr_size(*e),
                    *e == (TopologyExpr::Cell { op: *op, children: *children }),
                decreases children.len() - i,
            {
                proof {
                    lemma_child_smaller(children@, i as int);
                }
                let c = copy_expr(&children[i]);
                let ghost before = kids@;
                kids.push(c);
                proof {
                    let t = children@.take(i + 1);
                    assert(t.drop_last() =~= children@.take(i as int));
                    assert(t.last() == children@[i as int]);
                    assert(kids@.drop_last() =~= before);
                }
                i = i + 1;
            }
            assert(children@.take(i as int) =~= children@);
            TopologyExpr::Cell { op: op.clone(), children: kids }
        },
    }
}

/// A copy of an index list.
pub fn copy_indices(v: &Vec<usize>) -> (r: Vec<usize>)
    ensures
        r@ == v@,
{
    let mut r: Vec<usize> = Vec::new();
    let mut i: usize = 0;
    while i < v.len()
        invariant
            0 <= i <= v.len(),
            r@ == v@.take(i as int),
        decreases v.len() - i,
    {
        r.push(v[i]);
        i = i + 1;
    }
    assert(v@.take(i as int) =~= v@);
    r
}

impl PhysicalOccurrenceId {
    /// An equal copy of the identity.
    pub fn duplicate(&self) -> (r: PhysicalOccurrenceId)
        ensures
            r@ == self@,
    {
        match self {
            PhysicalOccurrenceId::Original(a) => PhysicalOccurrenceId::Original(*a),
            PhysicalOccurrenceId::Generated { anchor, path } => PhysicalOccurrenceId::Generated {
                anchor: *anchor,
                path: copy_indices(path),
            },
        }
    }
}

impl TopologySelection {
    /// An empty selection: every anchor keeps its original form.
    pub fn new() -> (r: TopologySelection)
        ensures
            r.choices@.len() == 0,
    {
        TopologySelection { choices: Vec::new() }
    }

    /// Chooses `realization` for `anchor`, replacing an earlier choice.
    pub fn set_choice(&mut self, anchor: usize, realization: TopologyExpr)
        ensures
            choice_for(final(self).choices@, anchor) == Some(realization),
            forall|b: usize| b != anchor ==> choice_for(final(self).choices@, b) == choice_for(old(self).choices@, b),
    {
        let ghost before = self.choices@;
        let mut i: usize = 0;
        while i < self.choices.len()
            invariant
                0 <= i <= self.choices@.len(),
                self.choices@ == before,
                before == old(self).choices@,
                forall|k: int| 0 <= k < i ==> self.choices@[k].0 != anchor,
            decreases self.choices@.len() - i,
        {
            if self.choices[i].0 == anchor {
                self.choices.set(i, (anchor, realization));
                proof {
                    lemma_choice_update(before, i as int, anchor, realization);
                    assert(self.choices@ == before.update(i as int, (anchor, realization)));
                    assert(before == old(self).choices@);
                    assert forall|b: usize| b != anchor implies choice_for(self.choices@, b)
                        == choice_for(old(self).choices@, b) by {}
                }
                return;
            }
            i = i + 1;
        }
        self.choices.push((anchor, realization));
        proof {
            lemma_choice_push(before, anchor, realization);
        }
    }

    /// The expression chosen for `anchor`, if any.
    pub fn lookup(&self, anchor: usize) -> (r: Option<&TopologyExpr>)
        ensures
            match r {
                Some(e) => choice_for(self.choices@, anchor) == Some(*e),
                None => choice_for(self.choices@, anchor) is None,
            },
    {
        let mut i: usize = 0;
        assert(self.choices@.skip(0) =~= self.choices@);
        while i < self.choices.len()
            invariant
                0 <= i <= self.choices@.len(),
                choice_for(self.choices@, anchor) == choice_for(self.choices@.skip(i as int), anchor),
            decreases self.choices@.len() - i,
        {
            assert(self.choices@.skip(i as int).drop_first() =~= self.choices@.skip(i + 1));
            if self.choices[i].0 == anchor {
                return Some(&self.choices[i].1);
            }
            i = i + 1;
        }
        None
    }
}

proof fn lemma_choice_update(
    s: Seq<(usize, TopologyExpr)>,
    i: int,
    anchor: usize,
    e: TopologyExpr,
)
    requires
        0 <= i < s.len(),
        s[i].0 == anchor,
        forall|k: int| 0 <= k < i ==> s[k].0 != anchor,
    ensures
        choice_for(s.update(i, (anchor, e)), anchor) == Some(e),
        forall|b: usize| b != anchor ==> choice_for(s.update(i, (anchor, e)), b) == choice_for(s, b),
    decreases s.len(),
{
    let t = s.update(i, (anchor, e));
    if i > 0 {
        assert(t.drop_first() =~= s.drop_first().update(i - 1, (anchor, e)));
        lemma_choice_update(s.drop_first(), i - 1, anchor, e);
        assert forall|b: usize| b != anchor implies choice_for(t, b) == choice_for(s, b) by {
            assert(t[0] == s[0]);
            assert(choice_for(t.drop_first(), b) == choice_for(s.drop_first(), b));
        }
    } else {
        assert(t.drop_first() =~= s.drop_first());
        assert forall|b: usize| b != anchor implies choice_for(t, b) == choice_for(s, b) by {}
    }
}

proof fn lemma_choice_push(s: Seq<(usize, TopologyExpr)>, anchor: usize, e: TopologyExpr)
    requires
        forall|k: int| 0 <= k < s.len() ==> s[k].0 != anchor,
    ensures
        choice_for(s.push((anchor, e)), anchor) == Some(e),
        forall|b: usize| b != anchor ==> choice_for(s.push((anchor, e)), b) == choice_for(s, b),
    decreases s.len(),
{
    let t = s.push((anchor, e));
    if s.len() > 0 {
        assert(t.drop_first() =~= s.drop_first().push((anchor, e)));
        lemma_choice_push(s.drop_first(), anchor, e);
        assert forall|b: usize| b != anchor implies choice_for(t, b) == choice_for(s, b) by {
            assert(t[0] == s[0]);
            assert(choice_for(t.drop_first(), b) == choice_for(s.drop_first(), b));
        }
    } else {
        assert(t.drop_first() =~= Seq::<(usize, TopologyExpr)>::empty());
        assert forall|b: usize| b != anchor implies choice_for(t, b) == choice_for(s, b) by {
            assert(choice_for(t.drop_first(), b) is None);
        }
    }
}

/// A conservative topology-changing move at one anchor.
pub struct StructuralMove {
    pub anchor: usize,
    pub rule: String,
    pub old_cell_count: usize,
    pub new_cell_count: usize,
    pub realization: TopologyExpr,
}

/// Inverter introduction: an outer cell becomes an inverter over its
/// complementary inner cell.  The result is the inner cell and the rule name.
pub open spec fn introduce_rule(op: Seq<char>) -> Option<(Seq<char>, Seq<char>)> {
    if op == "AND2x2_ASAP7_6t_L"@ {
        Some(("NAND2x1_ASAP7_6t_L"@, "AND2x2_NAND2x1"@))
    } else if op == "AND3x1_ASAP7_6t_L"@ {
        Some(("NAND3x1_ASAP7_6t_L"@, "AND3x1_NAND3x1"@))
    } else if op == "AO21x1_ASAP7_6t_L"@ {
        Some(("AOI21x1_ASAP7_6t_L"@, "AO21x1_AOI21x1"@))
    } else if op == "OR2x2_ASAP7_6t_L"@ {
        Some(("NOR2x1_ASAP7_6t_L"@, "OR2x2_NOR2x1"@))
    } else if op == "OR3x1_ASAP7_6t_L"@ {
        Some(("NOR3x1_ASAP7_6t_L"@, "OR3x1_NOR3x1"@))
    } else if op == "XOR2x2_ASAP7_6t_L"@ {
        Some(("XNOR2x2_ASAP7_6t_L"@, "XOR2x2_XNOR2x2"@))
    } else {
        None
    }
}

/// Inverter absorption: an inverter over `inner` becomes the complementary
/// combined cell.  The result is the combined cell and the rule name.
pub open spec fn absorb_rule(inner: Seq<char>) -> Option<(Seq<char>, Seq<char>)> {
    if inner == "AND2x2_ASAP7_6t_L"@ {
        Some(("NAND2x1_ASAP7_6t_L"@, "NAND2x1_AND2x2"@))
    } else if inner == "AND3x1_ASAP7_6t_L"@ {
        Some(("NAND3x1_ASAP7_6t_L"@, "NAND3x1_AND3x1"@))
    } else if inner == "AO21x1_ASAP7_6t_L"@ {
        Some(("AOI21x1_ASAP7_6t_L"@, "AOI21x1_AO21x1"@))
    } else if inner == "OR2x2_ASAP7_6t_L"@ {
        Some(("NOR2x1_ASAP7_6t_L"@, "NOR2x1_OR2x2"@))
    } else if inner == "OR3x1_ASAP7_6t_L"@ {
        Some(("NOR3x1_ASAP7_6t_L"@, "NOR3x1_OR3x1"@))
    } else if inner == "XOR2x2_ASAP7_6t_L"@ {
        Some(("XNOR2x2_ASAP7_6t_L"@, "XNOR2x2_XOR2x2"@))
    } else {
        None
    }
}

fn introduce_rule_exec(op: &str) -> (r: Option<(&'static str, &'static str)>)
    ensures
        match introduce_rule(op@) {
            Some((inner, rule)) => r matches Some((i, n)) && i@ == inner && n@ == rule,
            None => r is None,
        },
{
    if str_equals(op, "AND2x2_ASAP7_6t_L") {
        Some(("NAND2x1_ASAP7_6t_L", "AND2x2_NAND2x1"))
    } else if str_equals(op, "AND3x1_ASAP7_6t_L") {
        Some(("NAND3x1_ASAP7_6t_L", "AND3x1_NAND3x1"))
    } else if str_equals(op, "AO21x1_ASAP7_6t_L") {
        Some(("AOI21x1_ASAP7_6t_L", "AO21x1_AOI21x1"))
    } else if str_equals(op, "OR2x2_ASAP7_6t_L") {
        Some(("NOR2x1_ASAP7_6t_L", "OR2x2_NOR2x1"))
    } else if str_equals(op, "OR3x1_ASAP7_6t_L") {
        Some(("NOR3x1_ASAP7_6t_L", "OR3x1_NOR3x1"))
    } else if str_equals(op, "XOR2x2_ASAP7_6t_L") {
        Some(("XNOR2x2_ASAP7_6t_L", "XOR2x2_XNOR2x2"))
    } else {
        None
    }
}

fn absorb_rule_exec(inner: &str) -> (r: Option<(&'static str, &'static str)>)
    ensures
        match absorb_rule(inner@) {
            Some((combined, rule)) => r matches Some((c, n)) && c@ == combined && n@ == rule,
            None => r is None,
        },
{
    if str_equals(inner, "AND2x2_ASAP7_6t_L") {
        Some(("NAND2x1_ASAP7_6t_L", "NAND2x1_AND2x2"))
    } else if str_equals(inner, "AND3x1_ASAP7_6t_L") {
        Some(("NAND3x1_ASAP7_6t_L", "NAND3x1_AND3x1"))
    } else if str_equals(inner, "AO21x1_ASAP7_6t_L") {
        Some(("AOI21x1_ASAP7_6t_L", "AOI21x1_AO21x1"))
    } else if str_equals(inner, "OR2x2_ASAP7_6t_L") {
        Some(("NOR2x1_ASAP7_6t_L", "NOR2x1_OR2x2"))
    } else if str_equals(inner, "OR3x1_ASAP7_6t_L") {
        Some(("NOR3x1_ASAP7_6t_L", "NOR3x1_OR3x1"))
    } else if str_equals(inner, "XOR2x2_ASAP7_6t_L") {
        Some(("XNOR2x2_ASAP7_6t_L", "XNOR2x2_XOR2x2"))
    } else {
        None
    }
}

/// The text of source node `a`.
pub open spec fn node_text(src: Netlist<StdCellType>, a: int) -> Seq<char> {
    cell_text(src.nodes@[a]@)
}

/// The only driver of `a`, when it has exactly one.
pub open spec fn sole_fanin(src: Netlist<StdCellType>, a: int) -> Option<usize> {
    if fanins_of(src.edges@, a).len() == 1 {
        Some(fanins_of(src.edges@, a)[0])
    } else {
        None
    }
}

/// Which safe inverter move applies at an anchor.
pub enum MoveKind {
    Introduce,
    DoubleInverter(usize),
    Absorb(usize),
}

/// The safe inverter move at anchor `a`, if any.
pub open spec fn move_kind(src: Netlist<StdCellType>, a: int) -> Option<MoveKind> {
    let inv = "INVx1_ASAP7_6t_L"@;
    if src.leaves@.contains(a as usize) || src.roots@.contains(a as usize) {
        None
    } else if introduce_rule(node_text(src, a)) is Some {
        Some(MoveKind::Introduce)
    } else if node_text(src, a) != inv {
        None
    } else {
        match sole_fanin(src, a) {
            None => None,
            Some(c) => if node_text(src, c as int) == inv {
                match sole_fanin(src, c as int) {
                    Some(g) => Some(MoveKind::DoubleInverter(g)),
                    None => None,
                }
            } else if absorb_rule(node_text(src, c as int)) is Some {
                Some(MoveKind::Absorb(c))
            } else {
                None
            },
        }
    }
}

/// The operation of a cell expression.
pub open spec fn cell_op(e: TopologyExpr) -> Seq<char> {
    match e {
        TopologyExpr::Cell { op, .. } => op@,
        TopologyExpr::Anchor(_) => Seq::empty(),
    }
}

/// The children of a cell expression.
pub open spec fn cell_children(e: TopologyExpr) -> Seq<TopologyExpr> {
    match e {
        TopologyExpr::Cell { children, .. } => children@,
        TopologyExpr::Anchor(_) => Seq::empty(),
    }
}

/// `cs` lists one boundary per driver in `fanins`, in order.
pub open spec fn boundaries_are(cs: Seq<TopologyExpr>, fanins: Seq<usize>) -> bool {
    &&& cs.len() == fanins.len()
    &&& forall|i: int| 0 <= i < cs.len() ==> #[trigger] cs[i] == TopologyExpr::Anchor(fanins[i])
}

/// `m` is the safe inverter move of kind `kind` at anchor `a`.
pub open spec fn move_is(src: Netlist<StdCellType>, a: int, kind: MoveKind, m: StructuralMove) -> bool {
    &&& m.anchor == a
    &&& match kind {
        MoveKind::Introduce => {
            let (inner, rule) = introduce_rule(node_text(src, a))->0;
            &&& m.rule@ == rule
            &&& m.old_cell_count == 1
            &&& m.new_cell_count == 2
            &&& m.realization is Cell
            &&& cell_op(m.realization) == "INVx1_ASAP7_6t_L"@
            &&& cell_children(m.realization).len() == 1
            &&& cell_children(m.realization)[0] is Cell
            &&& cell_op(cell_children(m.realization)[0]) == inner
            &&& boundaries_are(cell_children(cell_children(m.realization)[0]), fanins_of(src.edges@, a))
        },
        MoveKind::DoubleInverter(g) => {
            &&& m.rule@ == "Double_INVx1"@
            &&& m.old_cell_count == 2
            &&& m.new_cell_count == 0
            &&& m.realization == TopologyExpr::Anchor(g)
        },
        MoveKind::Absorb(c) => {
            let (combined, rule) = absorb_rule(node_text(src, c as int))->0;
            &&& m.rule@ == rule
            &&& m.old_cell_count == 2
            &&& m.new_cell_count == 1
            &&& m.realization is Cell
            &&& cell_op(m.realization) == combined
            &&& boundaries_are(cell_children(m.realization), fanins_of(src.edges@, c as int))
        },
    }
}

/// The anchors below `k` that have a safe inverter move, in increasing order.
pub open spec fn move_anchors(src: Netlist<StdCellType>, k: nat) -> Seq<usize>
    decreases k,
{
    if k == 0 {
        Seq::empty()
    } else if move_kind(src, k - 1) is Some {
        move_anchors(src, (k - 1) as nat).push((k - 1) as usize)
    } else {
        move_anchors(src, (k - 1) as nat)
    }
}

fn anchors_of(src: &Netlist<StdCellType>, a: usize) -> (r: Vec<TopologyExpr>)
    ensures
        boundaries_are(r@, fanins_of(src.edges@, a as int)),
{
    let ins = src.inputs(a);
    let mut r: Vec<TopologyExpr> = Vec::new();
    let mut i: usize = 0;
    while i < ins.len()
        invariant
            0 <= i <= ins@.len(),
            ins@ == fanins_of(src.edges@, a as int),
            r@.len() == i,
            forall|j: int| 0 <= j < i ==> #[trigger] r@[j] == TopologyExpr::Anchor(ins@[j]),
        decreases ins.len() - i,
    {
        r.push(TopologyExpr::Anchor(ins[i]));
        i = i + 1;
    }
    r
}

fn sole_fanin_exec(src: &Netlist<StdCellType>, a: usize) -> (r: Option<usize>)
    ensures
        r == sole_fanin(*src, a as int),
{
    let ins = src.inputs(a);
    if ins.len() == 1 {
        Some(ins[0])
    } else {
        None
    }
}

/// Enumerates the conservative topology-changing moves: explicit inverter
/// introduction, inverter absorption, and double-inverter removal, at most
/// one per anchor, ordered by anchor.  No commutation, expansion, sharing or
/// duplication move is admitted.
pub fn enumerate_safe_inv_moves(source: &Netlist<StdCellType>) -> (r: Vec<StructuralMove>)
    requires
        source.wf(),
    ensures
        r@.len() == move_anchors(*source, source.nodes@.len()).len(),
        forall|i: int|
            0 <= i < r@.len() ==> move_is(
                *source,
                move_anchors(*source, source.nodes@.len())[i] as int,
                move_kind(*source, move_anchors(*source, source.nodes@.len())[i] as int)->0,
                #[trigger] r@[i],
            ),
        forall|i: int, j: int| 0 <= i < j < r@.len() ==> #[trigger] r@[i].anchor < #[trigger] r@[j].anchor,
{
    let mut moves: Vec<StructuralMove> = Vec::new();
    let n = source.nodes.len();
    let mut a: usize = 0;
    while a < n
        invariant
            0 <= a <= n,
            n == source.nodes@.len(),
            source.wf(),
            moves@.len() == move_anchors(*source, a as nat).len(),
            forall|i: int|
                0 <= i < moves@.len() ==> move_is(
                    *source,
                    move_anchors(*source, a as nat)[i] as int,
                    move_kind(*source, move_anchors(*source, a as nat)[i] as int)->0,
                    #[trigger] moves@[i],
                ),
            forall|i: int| 0 <= i < moves@.len() ==> #[trigger] moves@[i].anchor < a,
            forall|i: int, j: int| 0 <= i < j < moves@.len() ==> #[trigger] moves@[i].anchor
                < #[trigger] moves@[j].anchor,
        decreases n - a,
    {
        let ghost before = moves@;
        let ghost kind = move_kind(*source, a as int);
        let mut found: Option<StructuralMove> = None;
        if !contains_index(&source.leaves, a) && !contains_index(&source.roots, a) {
            let text = source.nodes[a].to_string();
            let op = text.as_str();
            match introduce_rule_exec(op) {
                Some((inner, rule)) => {
                    found = Some(StructuralMove {
                        anchor: a,
                        rule: rule.to_owned(),
                        old_cell_count: 1,
                        new_cell_count: 2,
                        realization: TopologyExpr::cell(
                            "INVx1_ASAP7_6t_L",
                            vec![TopologyExpr::cell(inner, anchors_of(source, a))],
                        ),
                    });
                },
                None => {
                    if str_equals(op, "INVx1_ASAP7_6t_L") {
                        match sole_fanin_exec(source, a) {
                            None => {},
                            Some(child) => {
                                proof {
                                    crate::netlist::lemma_fanins_are_children(source.edges@, a as int);
                                    assert(fanins_of(source.edges@, a as int)[0] == child);
                                }
                                let child_text = source.nodes[child].to_string();
                                if str_equals(child_text.as_str(), "INVx1_ASAP7_6t_L") {
                                    match sole_fanin_exec(source, child) {
                                        Some(grandchild) => {
                                            found = Some(StructuralMove {
                                                anchor: a,
                                                rule: "Double_INVx1".to_owned(),
                                                old_cell_count: 2,
                                                new_cell_count: 0,
                                                realization: TopologyExpr::Anchor(grandchild),
                                            });
                                        },
                                        None => {},
                                    }
                                } else {
                                    match absorb_rule_exec(child_text.as_str()) {
                                        Some((combined, rule)) => {
                                            found = Some(StructuralMove {
                                                anchor: a,
                                                rule: rule.to_owned(),
                                                old_cell_count: 2,
                                                new_cell_count: 1,
                                                realization: TopologyExpr::cell(
                                                    combined,
                                                    anchors_of(source, child),
                                                ),
                                            });
                                        },
                                        None => {},
                                    }
                                }
                            },
                        }
                    }
                },
            }
        }
        match found {
            Some(m) => {
                assert(kind is Some);
                assert(move_is(*source, a as int, kind->0, m));
                moves.push(m);
            },
            None => {
                assert(kind is None);
            },
        }
        a = a + 1;
    }
    moves
}

} // verus!
