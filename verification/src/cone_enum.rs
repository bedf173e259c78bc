//! Enumeration of the complete selected-enode cones of a local e-graph.
//!
//! A local e-graph is grown around one physical anchor and saturated with
//! rewrites; its classes are listed here as plain values (indexed by class
//! id, each with its e-nodes in the order they are visited).  Starting from
//! the root class, every choice of one e-node per reached class yields an
//! expression over boundary anchors.  Rewrites in both directions make the
//! e-graph cyclic, so a class already on the current path is pruned; the
//! gate count of a cone is bounded; and at most
//! `MAX_REALIZATIONS_PER_ROOT` expressions are kept per class.  The cache of
//! finished classes is keyed by the class and the set of its ancestors on
//! the path, so a cached result is reused only where cycle pruning would
//! act in the same way.
use vstd::prelude::*;

use crate::language::{LangModel, StdCellLanguage};
use crate::realization::{DedupStats, EnumeratedExpr};
use crate::text::{copy_string, decimal, push_decimal, push_str, same_string, string_of};
use crate::topology::{children_model, copy_expr, expr_model, ExprModel, TopologyExpr};

verus! {

/// The most expressions kept for one class.
pub const MAX_REALIZATIONS_PER_ROOT: usize = 512;

// ---------------------------------------------------------------------
// Models
// ---------------------------------------------------------------------

/// The value of an enumerated expression.
pub struct EnumModel {
    pub expr: ExprModel,
    pub gates: nat,
    pub depth: nat,
    pub root_enode: Seq<char>,
}

pub open spec fn enum_model(e: EnumeratedExpr) -> EnumModel {
    EnumModel {
        expr: expr_model(e.expression),
        gates: e.gates as nat,
        depth: e.depth as nat,
        root_enode: e.root_enode@,
    }
}

pub open spec fn enum_models(v: Seq<EnumeratedExpr>) -> Seq<EnumModel> {
    v.map_values(|e: EnumeratedExpr| enum_model(e))
}

/// A partial choice of children: their expressions, gate count and depth.
pub struct ComboModel {
    pub exprs: Seq<ExprModel>,
    pub gates: nat,
    pub depth: nat,
}

/// What the enumeration reads of the e-graph and of its settings.
pub struct ConeCfg {
    pub classes: Seq<Seq<LangModel>>,
    pub root: usize,
    pub collapse: Seq<Option<usize>>,
    pub boundaries: Seq<(Seq<char>, usize)>,
    pub max_gates: nat,
    pub memo_enabled: bool,
    pub depth_bound: bool,
}

/// A cached result: the class, its ancestors on the path, its expressions.
pub struct MemoModel {
    pub class: usize,
    pub ancestors: Seq<usize>,
    pub result: Seq<EnumModel>,
}

/// What the enumeration changes as it goes: its two pruning counters and
/// its cache.
pub struct ConeState {
    pub cycle_pruned: nat,
    pub gate_bound_pruned: nat,
    pub memo: Seq<MemoModel>,
}

/// The number of classes on the path.
pub open spec fn count_true(s: Seq<bool>) -> nat
    decreases s.len(),
{
    if s.len() == 0 {
        0
    } else {
        count_true(s.drop_last()) + if s.last() {
            1nat
        } else {
            0nat
        }
    }
}

/// The number of classes off the path.
pub open spec fn count_false(s: Seq<bool>) -> nat {
    (s.len() - count_true(s)) as nat
}

pub proof fn lemma_count_true_bound(s: Seq<bool>)
    ensures
        count_true(s) <= s.len(),
    decreases s.len(),
{
    if s.len() > 0 {
        lemma_count_true_bound(s.drop_last());
    }
}

pub proof fn lemma_count_update(s: Seq<bool>, k: int, v: bool)
    requires
        0 <= k < s.len(),
    ensures
        count_true(s.update(k, v)) + (if s[k] {
            1nat
        } else {
            0nat
        }) == count_true(s) + (if v {
            1nat
        } else {
            0nat
        }),
    decreases s.len(),
{
    let u = s.update(k, v);
    if k == s.len() - 1 {
        assert(u.drop_last() =~= s.drop_last());
    } else {
        assert(u.drop_last() =~= s.drop_last().update(k, v));
        lemma_count_update(s.drop_last(), k, v);
    }
}

pub proof fn lemma_count_false_drop(s: Seq<bool>, k: int)
    requires
        0 <= k < s.len(),
        !s[k],
    ensures
        count_false(s.update(k, true)) < count_false(s),
{
    lemma_count_update(s, k, true);
    lemma_count_true_bound(s.update(k, true));
}

/// The classes on the path other than `c`, in increasing order, among the
/// first `k`.
pub open spec fn flagged_below(stack: Seq<bool>, k: nat, c: usize) -> Seq<usize>
    decreases k,
{
    if k == 0 {
        Seq::empty()
    } else {
        let rest = flagged_below(stack, (k - 1) as nat, c);
        if stack[k - 1] && k - 1 != c {
            rest.push((k - 1) as usize)
        } else {
            rest
        }
    }
}

/// The ids `cs` as printed in a list: `[a, b, c]`.
pub open spec fn ids_join(cs: Seq<usize>) -> Seq<char>
    decreases cs.len(),
{
    if cs.len() == 0 {
        Seq::empty()
    } else if cs.len() == 1 {
        decimal(cs[0] as nat)
    } else {
        ids_join(cs.drop_last()) + ", "@ + decimal(cs.last() as nat)
    }
}

/// The name of a gate e-node: its cell, `:`, and its child classes.
pub open spec fn gate_enode(op: Seq<char>, cs: Seq<usize>) -> Seq<char> {
    op + ":["@ + ids_join(cs) + "]"@
}

pub open spec fn bool_text(b: bool) -> Seq<char> {
    if b {
        "true"@
    } else {
        "false"@
    }
}

/// A boundary reference reached through the named e-node.
pub open spec fn anchor_model(a: usize, enode: Seq<char>) -> EnumModel {
    EnumModel { expr: ExprModel::Anchor(a), gates: 0, depth: 0, root_enode: enode }
}

/// A constant, as a cell without children.
pub open spec fn bool_model(b: bool) -> EnumModel {
    EnumModel {
        expr: ExprModel::Cell(bool_text(b), Seq::empty()),
        gates: 0,
        depth: 0,
        root_enode: bool_text(b),
    }
}

/// The cell `op` over a choice of children.
pub open spec fn cell_model(op: Seq<char>, c: ComboModel, enode: Seq<char>) -> EnumModel {
    EnumModel {
        expr: ExprModel::Cell(op, c.exprs),
        gates: c.gates + 1,
        depth: c.depth + 1,
        root_enode: enode,
    }
}

/// The anchor of the first boundary symbol named `name`, from `bs[k..]`.
pub open spec fn boundary_from(bs: Seq<(Seq<char>, usize)>, k: nat, name: Seq<char>) -> Option<
    usize,
>
    decreases bs.len() - k,
{
    if k >= bs.len() {
        None
    } else if bs[k as int].0 == name {
        Some(bs[k as int].1)
    } else {
        boundary_from(bs, k + 1, name)
    }
}

/// The cached result of the first entry of `m[k..]` with this key.
pub open spec fn memo_from(m: Seq<MemoModel>, k: nat, class: usize, ancestors: Seq<usize>) -> Option<
    Seq<EnumModel>,
>
    decreases m.len() - k,
{
    if k >= m.len() {
        None
    } else if m[k as int].class == class && m[k as int].ancestors == ancestors {
        Some(m[k as int].result)
    } else {
        memo_from(m, k + 1, class, ancestors)
    }
}

pub open spec fn max_nat(a: nat, b: nat) -> nat {
    if a >= b {
        a
    } else {
        b
    }
}

/// Appends to `next` the extensions of `prefix` by `alts[q..]` whose gate
/// count is allowed, counting the refused ones, until the cap is reached.
pub open spec fn comb_inner(
    prefix: ComboModel,
    alts: Seq<EnumModel>,
    q: nat,
    next: Seq<ComboModel>,
    pruned: nat,
    max: nat,
) -> (Seq<ComboModel>, nat)
    decreases alts.len() - q,
{
    if q >= alts.len() {
        (next, pruned)
    } else {
        let total = prefix.gates + alts[q as int].gates;
        if total + 1 > max {
            comb_inner(prefix, alts, q + 1, next, pruned + 1, max)
        } else {
            let next2 = next.push(
                ComboModel {
                    exprs: prefix.exprs.push(alts[q as int].expr),
                    gates: total,
                    depth: max_nat(prefix.depth, alts[q as int].depth),
                },
            );
            if next2.len() >= 512 {
                (next2, pruned)
            } else {
                comb_inner(prefix, alts, q + 1, next2, pruned, max)
            }
        }
    }
}

/// Extends every partial choice of `combos[p..]` by the alternatives of the
/// next child.
pub open spec fn comb_outer(
    combos: Seq<ComboModel>,
    alts: Seq<EnumModel>,
    p: nat,
    next: Seq<ComboModel>,
    pruned: nat,
    max: nat,
) -> (Seq<ComboModel>, nat)
    decreases combos.len() - p,
{
    if p >= combos.len() {
        (next, pruned)
    } else {
        let r = comb_inner(combos[p as int], alts, 0, next, pruned, max);
        if r.0.len() >= 512 {
            r
        } else {
            comb_outer(combos, alts, p + 1, r.0, r.1, max)
        }
    }
}

/// Appends the cells over `combos[k..]` until the cap is reached.
pub open spec fn push_cells(
    result: Seq<EnumModel>,
    combos: Seq<ComboModel>,
    k: nat,
    op: Seq<char>,
    enode: Seq<char>,
) -> Seq<EnumModel>
    decreases combos.len() - k,
{
    if k >= combos.len() {
        result
    } else {
        let r2 = result.push(cell_model(op, combos[k as int], enode));
        if r2.len() >= 512 {
            r2
        } else {
            push_cells(r2, combos, k + 1, op, enode)
        }
    }
}

pub open spec fn with_cycle(st: ConeState) -> ConeState {
    ConeState { cycle_pruned: st.cycle_pruned + 1, gate_bound_pruned: st.gate_bound_pruned, memo: st.memo }
}

pub open spec fn with_gate(st: ConeState, n: nat) -> ConeState {
    ConeState { cycle_pruned: st.cycle_pruned, gate_bound_pruned: st.gate_bound_pruned + n, memo: st.memo }
}

pub open spec fn with_memo(st: ConeState, e: MemoModel) -> ConeState {
    ConeState { cycle_pruned: st.cycle_pruned, gate_bound_pruned: st.gate_bound_pruned, memo: st.memo.push(e) }
}

/// The expressions of class `class` with the path `stack`, and the state
/// after enumerating them.
pub open spec fn enum_class(cfg: ConeCfg, st: ConeState, class: usize, stack: Seq<bool>) -> (
    ConeState,
    Seq<EnumModel>,
)
    decreases count_false(stack), 0nat, 0nat,
{
    if class != cfg.root && class < cfg.collapse.len() && cfg.collapse[class as int] is Some {
        let a = cfg.collapse[class as int]->0;
        (st, seq![anchor_model(a, "boundary:"@ + decimal(a as nat))])
    } else if class >= stack.len() {
        (st, Seq::empty())
    } else if stack[class as int] {
        (with_cycle(st), Seq::empty())
    } else {
        let key = flagged_below(stack, stack.len(), class);
        let hit = memo_from(st.memo, 0, class, key);
        if cfg.memo_enabled && hit is Some {
            (st, hit->0)
        } else {
            let inner = stack.update(class as int, true);
            proof {
                lemma_count_false_drop(stack, class as int);
            }
            let r = nodes_loop(cfg, st, cfg.classes[class as int], 0, inner, Seq::empty());
            if cfg.memo_enabled {
                (with_memo(r.0, MemoModel { class, ancestors: key, result: r.1 }), r.1)
            } else {
                r
            }
        }
    }
}

/// The expressions of the e-nodes `nodes[i..]` appended to `result`.
pub open spec fn nodes_loop(
    cfg: ConeCfg,
    st: ConeState,
    nodes: Seq<LangModel>,
    i: nat,
    stack: Seq<bool>,
    result: Seq<EnumModel>,
) -> (ConeState, Seq<EnumModel>)
    decreases count_false(stack), nodes.len() + 1 - i, 0nat,
{
    if i >= nodes.len() {
        (st, result)
    } else {
        let step: (ConeState, Seq<EnumModel>) = match nodes[i as int] {
            LangModel::Symbol(s) => (
                st,
                match boundary_from(cfg.boundaries, 0, s) {
                    Some(a) => result.push(anchor_model(a, s)),
                    None => result,
                },
            ),
            LangModel::Input(s) => (
                st,
                match boundary_from(cfg.boundaries, 0, s) {
                    Some(a) => result.push(anchor_model(a, s)),
                    None => result,
                },
            ),
            LangModel::Gate(op, children) => if cfg.depth_bound && count_true(stack) > cfg.max_gates {
                (with_gate(st, 1), result)
            } else {
                let c = children_loop(
                    cfg,
                    st,
                    stack,
                    children,
                    0,
                    seq![ComboModel { exprs: Seq::empty(), gates: 0, depth: 0 }],
                    nodes.len(),
                    i,
                );
                (c.0, push_cells(result, c.1, 0, op, gate_enode(op, children)))
            },
            LangModel::Bool(b) => (st, result.push(bool_model(b))),
            LangModel::Output(_, _) => (st, result),
        };
        if step.1.len() >= 512 {
            step
        } else {
            nodes_loop(cfg, step.0, nodes, i + 1, stack, step.1)
        }
    }
}

/// The choices of children after `children[j..]` have been enumerated
/// and combined with `combos`.
pub open spec fn children_loop(
    cfg: ConeCfg,
    st: ConeState,
    stack: Seq<bool>,
    children: Seq<usize>,
    j: nat,
    combos: Seq<ComboModel>,
    len: nat,
    i: nat,
) -> (ConeState, Seq<ComboModel>)
    decreases count_false(stack), if i < len {
        len - i
    } else {
        0
    }, children.len() - j,
{
    if j >= children.len() {
        (st, combos)
    } else {
        let e = enum_class(cfg, st, children[j as int], stack);
        let c = comb_outer(combos, e.1, 0, Seq::empty(), 0, cfg.max_gates);
        children_loop(cfg, with_gate(e.0, c.1), stack, children, j + 1, c.0, len, i)
    }
}

// ---------------------------------------------------------------------
// Facts about the models
// ---------------------------------------------------------------------

/// At most `MAX_REALIZATIONS_PER_ROOT` expressions, each with at most
/// `max` gates (one, for a gate without children, when `max` is zero) and
/// no deeper than its gate count.
pub open spec fn bounded(es: Seq<EnumModel>, max: nat) -> bool {
    &&& es.len() <= 512
    &&& forall|k: int|
        0 <= k < es.len() ==> (#[trigger] es[k]).gates <= max_nat(max, 1) && es[k].depth <= es[k].gates
}

pub open spec fn combos_bounded(cs: Seq<ComboModel>, max: nat) -> bool {
    forall|k: int|
        0 <= k < cs.len() ==> ((#[trigger] cs[k]).gates + 1 <= max || cs[k].gates == 0) && cs[k].depth
            <= cs[k].gates
}

pub open spec fn memo_bounded(m: Seq<MemoModel>, max: nat) -> bool {
    forall|k: int| 0 <= k < m.len() ==> bounded((#[trigger] m[k]).result, max)
}

/// `b` has counted at least as much as `a`, and its cache stays bounded.
pub open spec fn grows(a: ConeState, b: ConeState, max: nat) -> bool {
    &&& a.cycle_pruned <= b.cycle_pruned
    &&& a.gate_bound_pruned <= b.gate_bound_pruned
    &&& memo_bounded(b.memo, max)
}

proof fn lemma_memo_from(m: Seq<MemoModel>, k: nat, class: usize, anc: Seq<usize>, max: nat)
    requires
        memo_bounded(m, max),
    ensures
        memo_from(m, k, class, anc) matches Some(r) ==> bounded(r, max),
    decreases m.len() - k,
{
    if k < m.len() && !(m[k as int].class == class && m[k as int].ancestors == anc) {
        lemma_memo_from(m, k + 1, class, anc, max);
    }
}

proof fn lemma_comb_inner(
    prefix: ComboModel,
    alts: Seq<EnumModel>,
    q: nat,
    next: Seq<ComboModel>,
    pruned: nat,
    max: nat,
)
    requires
        bounded(alts, max),
        prefix.depth <= prefix.gates,
        combos_bounded(next, max),
    ensures
        combos_bounded(comb_inner(prefix, alts, q, next, pruned, max).0, max),
        comb_inner(prefix, alts, q, next, pruned, max).1 >= pruned,
    decreases alts.len() - q,
{
    if q < alts.len() {
        let total = prefix.gates + alts[q as int].gates;
        if total + 1 > max {
            lemma_comb_inner(prefix, alts, q + 1, next, pruned + 1, max);
        } else {
            let c = ComboModel {
                exprs: prefix.exprs.push(alts[q as int].expr),
                gates: total,
                depth: max_nat(prefix.depth, alts[q as int].depth),
            };
            let next2 = next.push(c);
            assert(combos_bounded(next2, max)) by {
                assert forall|k: int| 0 <= k < next2.len() implies ((#[trigger] next2[k]).gates + 1
                    <= max || next2[k].gates == 0) && next2[k].depth <= next2[k].gates by {
                    if k < next.len() {
                        assert(next2[k] == next[k]);
                    }
                }
            }
            if next2.len() < 512 {
                lemma_comb_inner(prefix, alts, q + 1, next2, pruned, max);
            }
        }
    }
}

proof fn lemma_comb_outer(
    combos: Seq<ComboModel>,
    alts: Seq<EnumModel>,
    p: nat,
    next: Seq<ComboModel>,
    pruned: nat,
    max: nat,
)
    requires
        bounded(alts, max),
        combos_bounded(combos, max),
        combos_bounded(next, max),
    ensures
        combos_bounded(comb_outer(combos, alts, p, next, pruned, max).0, max),
        comb_outer(combos, alts, p, next, pruned, max).1 >= pruned,
    decreases combos.len() - p,
{
    if p < combos.len() {
        lemma_comb_inner(combos[p as int], alts, 0, next, pruned, max);
        let r = comb_inner(combos[p as int], alts, 0, next, pruned, max);
        if r.0.len() < 512 {
            lemma_comb_outer(combos, alts, p + 1, r.0, r.1, max);
        }
    }
}

proof fn lemma_push_cells(
    result: Seq<EnumModel>,
    combos: Seq<ComboModel>,
    k: nat,
    op: Seq<char>,
    enode: Seq<char>,
    max: nat,
)
    requires
        bounded(result, max),
        result.len() < 512,
        combos_bounded(combos, max),
    ensures
        bounded(push_cells(result, combos, k, op, enode), max),
    decreases combos.len() - k,
{
    if k < combos.len() {
        let r2 = result.push(cell_model(op, combos[k as int], enode));
        assert(bounded(r2, max)) by {
            assert forall|m: int| 0 <= m < r2.len() implies (#[trigger] r2[m]).gates <= max_nat(
                max,
                1,
            ) && r2[m].depth <= r2[m].gates by {
                if m < result.len() {
                    assert(r2[m] == result[m]);
                }
            }
        }
        if r2.len() < 512 {
            lemma_push_cells(r2, combos, k + 1, op, enode, max);
        }
    }
}

proof fn lemma_push_bounded(result: Seq<EnumModel>, e: EnumModel, max: nat)
    requires
        bounded(result, max),
        result.len() < 512,
        e.gates <= max_nat(max, 1),
        e.depth <= e.gates,
    ensures
        bounded(result.push(e), max),
{
    assert forall|m: int| 0 <= m < result.push(e).len() implies (#[trigger] result.push(e)[m]).gates
        <= max_nat(max, 1) && result.push(e)[m].depth <= result.push(e)[m].gates by {
        if m < result.len() {
            assert(result.push(e)[m] == result[m]);
        }
    }
}

/// Every class yields at most `MAX_REALIZATIONS_PER_ROOT` expressions,
/// each with at most `max_gates` gates (one for a childless gate under a
/// zero bound) and no deeper than its gate count; the counters never go
/// down; all this provided the cached results already keep these limits.
pub proof fn lemma_enumeration_within_limits(cfg: ConeCfg, st: ConeState, class: usize, stack: Seq<bool>)
    requires
        memo_bounded(st.memo, cfg.max_gates),
    ensures
        grows(st, enum_class(cfg, st, class, stack).0, cfg.max_gates),
        bounded(enum_class(cfg, st, class, stack).1, cfg.max_gates),
    decreases count_false(stack), 0nat, 0nat,
{
    if class != cfg.root && class < cfg.collapse.len() && cfg.collapse[class as int] is Some {
        let a = cfg.collapse[class as int]->0;
        lemma_push_bounded(Seq::empty(), anchor_model(a, "boundary:"@ + decimal(a as nat)), cfg.max_gates);
        assert(seq![anchor_model(a, "boundary:"@ + decimal(a as nat))] =~= Seq::<EnumModel>::empty().push(
            anchor_model(a, "boundary:"@ + decimal(a as nat)),
        ));
    } else if class >= stack.len() {
    } else if stack[class as int] {
    } else {
        let key = flagged_below(stack, stack.len(), class);
        let hit = memo_from(st.memo, 0, class, key);
        lemma_memo_from(st.memo, 0, class, key, cfg.max_gates);
        if cfg.memo_enabled && hit is Some {
        } else {
            let inner = stack.update(class as int, true);
            lemma_count_false_drop(stack, class as int);
            lemma_nodes_loop(cfg, st, cfg.classes[class as int], 0, inner, Seq::empty());
            let r = nodes_loop(cfg, st, cfg.classes[class as int], 0, inner, Seq::empty());
            if cfg.memo_enabled {
                let m2 = r.0.memo.push(MemoModel { class, ancestors: key, result: r.1 });
                assert(memo_bounded(m2, cfg.max_gates)) by {
                    assert forall|k: int| 0 <= k < m2.len() implies bounded(
                        (#[trigger] m2[k]).result,
                        cfg.max_gates,
                    ) by {
                        if k < r.0.memo.len() {
                            assert(m2[k] == r.0.memo[k]);
                        }
                    }
                }
            }
        }
    }
}

proof fn lemma_nodes_loop(
    cfg: ConeCfg,
    st: ConeState,
    nodes: Seq<LangModel>,
    i: nat,
    stack: Seq<bool>,
    result: Seq<EnumModel>,
)
    requires
        memo_bounded(st.memo, cfg.max_gates),
        bounded(result, cfg.max_gates),
        result.len() < 512,
    ensures
        grows(st, nodes_loop(cfg, st, nodes, i, stack, result).0, cfg.max_gates),
        bounded(nodes_loop(cfg, st, nodes, i, stack, result).1, cfg.max_gates),
    decreases count_false(stack), nodes.len() + 1 - i, 1nat,
{
    if i < nodes.len() {
        lemma_node_step(cfg, st, nodes, i, stack, result);
        let step = node_step(cfg, st, nodes, i, stack, result);
        if step.1.len() < 512 {
            lemma_nodes_loop(cfg, step.0, nodes, i + 1, stack, step.1);
        }
    }
}

proof fn lemma_node_step(
    cfg: ConeCfg,
    st: ConeState,
    nodes: Seq<LangModel>,
    i: nat,
    stack: Seq<bool>,
    result: Seq<EnumModel>,
)
    requires
        i < nodes.len(),
        memo_bounded(st.memo, cfg.max_gates),
        bounded(result, cfg.max_gates),
        result.len() < 512,
    ensures
        grows(st, node_step(cfg, st, nodes, i, stack, result).0, cfg.max_gates),
        bounded(node_step(cfg, st, nodes, i, stack, result).1, cfg.max_gates),
        node_step(cfg, st, nodes, i, stack, result).1.len() >= result.len(),
    decreases count_false(stack), nodes.len() + 1 - i, 0nat,
{
    match nodes[i as int] {
        LangModel::Symbol(s) => {
            if let Some(a) = boundary_from(cfg.boundaries, 0, s) {
                lemma_push_bounded(result, anchor_model(a, s), cfg.max_gates);
            }
        },
        LangModel::Input(s) => {
            if let Some(a) = boundary_from(cfg.boundaries, 0, s) {
                lemma_push_bounded(result, anchor_model(a, s), cfg.max_gates);
            }
        },
        LangModel::Gate(op, children) => {
            if !(cfg.depth_bound && count_true(stack) > cfg.max_gates) {
                let init = seq![ComboModel { exprs: Seq::empty(), gates: 0, depth: 0 }];
                assert(combos_bounded(init, cfg.max_gates));
                lemma_children_loop(cfg, st, stack, children, 0, init, nodes.len(), i);
                let c = children_loop(cfg, st, stack, children, 0, init, nodes.len(), i);
                lemma_push_cells(result, c.1, 0, op, gate_enode(op, children), cfg.max_gates);
                lemma_push_cells_len(result, c.1, 0, op, gate_enode(op, children));
            }
        },
        LangModel::Bool(b) => {
            lemma_push_bounded(result, bool_model(b), cfg.max_gates);
        },
        LangModel::Output(_, _) => {},
    }
}

proof fn lemma_push_cells_len(
    result: Seq<EnumModel>,
    combos: Seq<ComboModel>,
    k: nat,
    op: Seq<char>,
    enode: Seq<char>,
)
    ensures
        push_cells(result, combos, k, op, enode).len() >= result.len(),
    decreases combos.len() - k,
{
    if k < combos.len() {
        let r2 = result.push(cell_model(op, combos[k as int], enode));
        if r2.len() < 512 {
            lemma_push_cells_len(r2, combos, k + 1, op, enode);
        }
    }
}

proof fn lemma_children_loop(
    cfg: ConeCfg,
    st: ConeState,
    stack: Seq<bool>,
    children: Seq<usize>,
    j: nat,
    combos: Seq<ComboModel>,
    len: nat,
    i: nat,
)
    requires
        memo_bounded(st.memo, cfg.max_gates),
        combos_bounded(combos, cfg.max_gates),
    ensures
        grows(st, children_loop(cfg, st, stack, children, j, combos, len, i).0, cfg.max_gates),
        combos_bounded(children_loop(cfg, st, stack, children, j, combos, len, i).1, cfg.max_gates),
    decreases count_false(stack), if i < len {
        len - i
    } else {
        0
    }, children.len() - j,
{
    if j < children.len() {
        lemma_enumeration_within_limits(cfg, st, children[j as int], stack);
        let e = enum_class(cfg, st, children[j as int], stack);
        lemma_comb_outer(combos, e.1, 0, Seq::empty(), 0, cfg.max_gates);
        let c = comb_outer(combos, e.1, 0, Seq::empty(), 0, cfg.max_gates);
        lemma_children_loop(cfg, with_gate(e.0, c.1), stack, children, j + 1, c.0, len, i);
    }
}


// ---------------------------------------------------------------------
// The enumerator
// ---------------------------------------------------------------------

/// A cached result of the enumeration.
#[derive(Debug)]
pub struct MemoEntry {
    pub class: usize,
    pub ancestors: Vec<usize>,
    pub result: Vec<EnumeratedExpr>,
}

/// The classes on the current path, as one flag per class, and their number.
#[derive(Debug)]
pub struct ActiveStack {
    pub flags: Vec<bool>,
    pub count: usize,
}

impl ActiveStack {
    pub open spec fn wf(&self, n: nat) -> bool {
        &&& self.flags@.len() == n
        &&& self.count == count_true(self.flags@)
    }

    /// An empty path over `n` classes.
    pub fn new(n: usize) -> (r: ActiveStack)
        ensures
            r.wf(n as nat),
            forall|k: int| 0 <= k < n ==> !(#[trigger] r.flags@[k]),
    {
        let mut flags: Vec<bool> = Vec::new();
        let mut k: usize = 0;
        while k < n
            invariant
                0 <= k <= n,
                flags@.len() == k,
                count_true(flags@) == 0,
                forall|j: int| 0 <= j < k ==> !(#[trigger] flags@[j]),
            decreases n - k,
        {
            let ghost before = flags@;
            flags.push(false);
            assert(flags@.drop_last() =~= before);
            k = k + 1;
        }
        ActiveStack { flags, count: 0 }
    }
}

/// The e-node values of a class.
pub open spec fn lang_models(v: Seq<StdCellLanguage>) -> Seq<LangModel> {
    v.map_values(|n: StdCellLanguage| n@)
}

pub open spec fn memo_model(e: MemoEntry) -> MemoModel {
    MemoModel { class: e.class, ancestors: e.ancestors@, result: enum_models(e.result@) }
}

/// A partial choice of children as held by the enumerator.
pub type Combo = (Vec<TopologyExpr>, usize, usize);

pub open spec fn combo_model(c: Combo) -> ComboModel {
    ComboModel { exprs: children_model(c.0@), gates: c.1 as nat, depth: c.2 as nat }
}

pub open spec fn combo_models(v: Seq<Combo>) -> Seq<ComboModel> {
    v.map_values(|c: Combo| combo_model(c))
}

/// The children of a gate name classes below `n`.
pub open spec fn children_below(l: LangModel, n: nat) -> bool {
    match l {
        LangModel::Gate(_, cs) => forall|k: int| 0 <= k < cs.len() ==> #[trigger] cs[k] < n,
        _ => true,
    }
}

pub open spec fn fits(st: ConeState) -> bool {
    st.cycle_pruned <= usize::MAX && st.gate_bound_pruned <= usize::MAX
}

/// The cone enumerator of one local e-graph.  It holds the classes by id,
/// the root class, the anchor that each collapsed class stands for, the
/// anchor of each boundary symbol, the most gates a cone may have, the two
/// counters of pruned cones, the cache and the two switches.
#[derive(Debug)]
pub struct ConeEnumerator {
    pub classes: Vec<Vec<StdCellLanguage>>,
    pub root: usize,
    pub collapse: Vec<Option<usize>>,
    pub boundaries: Vec<(String, usize)>,
    pub max_gates: usize,
    pub stats: DedupStats,
    pub memo: Vec<MemoEntry>,
    pub memo_enabled: bool,
    pub depth_bound: bool,
}

impl ConeEnumerator {
    pub open spec fn cfg(&self) -> ConeCfg {
        ConeCfg {
            classes: self.classes@.map_values(|c: Vec<StdCellLanguage>| lang_models(c@)),
            root: self.root,
            collapse: self.collapse@,
            boundaries: self.boundaries@.map_values(|b: (String, usize)| (b.0@, b.1)),
            max_gates: self.max_gates as nat,
            memo_enabled: self.memo_enabled,
            depth_bound: self.depth_bound,
        }
    }

    pub open spec fn state(&self) -> ConeState {
        ConeState {
            cycle_pruned: self.stats.cycle_pruned as nat,
            gate_bound_pruned: self.stats.gate_bound_pruned as nat,
            memo: self.memo@.map_values(|e: MemoEntry| memo_model(e)),
        }
    }

    /// Every gate names existing classes, every class has a collapse entry,
    /// the bound leaves room for gate arithmetic, and the cache is bounded.
    pub open spec fn wf(&self) -> bool {
        &&& self.collapse@.len() == self.classes@.len()
        &&& self.max_gates <= usize::MAX / 4
        &&& memo_bounded(self.state().memo, self.max_gates as nat)
        &&& forall|c: int, k: int|
            0 <= c < self.classes@.len() && 0 <= k < self.classes@[c]@.len() ==> children_below(
                (#[trigger] self.classes@[c]@[k])@,
                self.classes@.len() as nat,
            )
    }

    /// The anchor of the boundary symbol `name`.
    fn boundary_lookup(&self, name: &String) -> (r: Option<usize>)
        ensures
            r == boundary_from(self.cfg().boundaries, 0, name@),
    {
        let ghost bs = self.cfg().boundaries;
        let mut k: usize = 0;
        while k < self.boundaries.len()
            invariant
                0 <= k <= self.boundaries@.len(),
                bs == self.cfg().boundaries,
                boundary_from(bs, k as nat, name@) == boundary_from(bs, 0, name@),
            decreases self.boundaries.len() - k,
        {
            if same_string(&self.boundaries[k].0, name) {
                return Some(self.boundaries[k].1);
            }
            k = k + 1;
        }
        None
    }

    /// The position of the first cache entry with this key.
    fn memo_lookup(&self, class: usize, ancestors: &Vec<usize>) -> (r: Option<usize>)
        ensures
            match memo_from(self.state().memo, 0, class, ancestors@) {
                Some(res) => r matches Some(k) && k < self.memo@.len() && enum_models(
                    self.memo@[k as int].result@,
                ) == res,
                None => r is None,
            },
    {
        let ghost m = self.state().memo;
        let mut k: usize = 0;
        while k < self.memo.len()
            invariant
                0 <= k <= self.memo@.len(),
                m == self.state().memo,
                memo_from(m, k as nat, class, ancestors@) == memo_from(m, 0, class, ancestors@),
            decreases self.memo.len() - k,
        {
            let e = &self.memo[k];
            assert(m[k as int] == memo_model(self.memo@[k as int]));
            if e.class == class && ids_match(&e.ancestors, ancestors) {
                return Some(k);
            }
            k = k + 1;
        }
        None
    }
}

/// Whether two id lists are equal.
fn ids_match(a: &Vec<usize>, b: &Vec<usize>) -> (r: bool)
    ensures
        r == (a@ == b@),
{
    if a.len() != b.len() {
        return false;
    }
    let mut i: usize = 0;
    while i < a.len()
        invariant
            0 <= i <= a@.len(),
            a@.len() == b@.len(),
            forall|j: int| 0 <= j < i ==> a@[j] == b@[j],
        decreases a.len() - i,
    {
        if a[i] != b[i] {
            return false;
        }
        i = i + 1;
    }
    assert(a@ =~= b@);
    true
}

/// The classes on the path other than `c`, in increasing order.
fn ancestors_of(stack: &ActiveStack, c: usize) -> (r: Vec<usize>)
    ensures
        r@ == flagged_below(stack.flags@, stack.flags@.len(), c),
{
    let mut r: Vec<usize> = Vec::new();
    let mut k: usize = 0;
    while k < stack.flags.len()
        invariant
            0 <= k <= stack.flags@.len(),
            r@ == flagged_below(stack.flags@, k as nat, c),
        decreases stack.flags.len() - k,
    {
        if stack.flags[k] && k != c {
            r.push(k);
        }
        k = k + 1;
    }
    r
}

/// A copy of a list of expressions, of the same values.
fn copy_exprs(v: &Vec<TopologyExpr>) -> (r: Vec<TopologyExpr>)
    ensures
        children_model(r@) == children_model(v@),
{
    let mut r: Vec<TopologyExpr> = Vec::new();
    let mut k: usize = 0;
    while k < v.len()
        invariant
            0 <= k <= v@.len(),
            r@.len() == k,
            children_model(r@) == children_model(v@.take(k as int)),
        decreases v.len() - k,
    {
        let ghost before = r@;
        r.push(copy_expr(&v[k]));
        assert(r@.drop_last() =~= before);
        assert(v@.take(k + 1).drop_last() =~= v@.take(k as int));
        k = k + 1;
    }
    assert(v@.take(k as int) =~= v@);
    r
}

/// A copy of an enumerated expression.
fn copy_enumerated(e: &EnumeratedExpr) -> (r: EnumeratedExpr)
    ensures
        enum_model(r) == enum_model(*e),
{
    EnumeratedExpr {
        expression: copy_expr(&e.expression),
        gates: e.gates,
        depth: e.depth,
        root_enode: copy_string(&e.root_enode),
    }
}

/// A copy of a list of enumerated expressions.
fn copy_results(v: &Vec<EnumeratedExpr>) -> (r: Vec<EnumeratedExpr>)
    ensures
        enum_models(r@) == enum_models(v@),
{
    let mut r: Vec<EnumeratedExpr> = Vec::new();
    let mut k: usize = 0;
    while k < v.len()
        invariant
            0 <= k <= v@.len(),
            r@.len() == k,
            enum_models(r@) == enum_models(v@.take(k as int)),
        decreases v.len() - k,
    {
        let ghost old_r = r@;
        r.push(copy_enumerated(&v[k]));
        proof {
            assert forall|i: int| 0 <= i < k + 1 implies #[trigger] enum_models(r@)[i] == enum_models(
                v@.take(k + 1),
            )[i] by {
                if i < k {
                    assert(r@[i] == old_r[i]);
                    assert(enum_models(old_r)[i] == enum_models(v@.take(k as int))[i]);
                }
            }
            assert(enum_models(r@) =~= enum_models(v@.take(k + 1)));
        }
        k = k + 1;
    }
    assert(v@.take(k as int) =~= v@);
    r
}

/// A copy of an e-node.
fn clone_node(n: &StdCellLanguage) -> (r: StdCellLanguage)
    ensures
        r@ == n@,
{
    match n {
        StdCellLanguage::Bool(b) => StdCellLanguage::Bool(*b),
        StdCellLanguage::Gate(op, cs) => StdCellLanguage::Gate(copy_string(op), copy_ids(cs)),
        StdCellLanguage::Output(s, c) => StdCellLanguage::Output(copy_string(s), *c),
        StdCellLanguage::Input(s) => StdCellLanguage::Input(copy_string(s)),
        StdCellLanguage::Symbol(s) => StdCellLanguage::Symbol(copy_string(s)),
    }
}

fn copy_ids(v: &Vec<usize>) -> (r: Vec<usize>)
    ensures
        r@ == v@,
{
    let mut r: Vec<usize> = Vec::new();
    let mut k: usize = 0;
    while k < v.len()
        invariant
            0 <= k <= v@.len(),
            r@ == v@.take(k as int),
        decreases v.len() - k,
    {
        r.push(v[k]);
        k = k + 1;
    }
    assert(v@.take(k as int) =~= v@);
    r
}

/// A copy of the e-nodes of a class.
fn clone_nodes(v: &Vec<StdCellLanguage>) -> (r: Vec<StdCellLanguage>)
    ensures
        lang_models(r@) == lang_models(v@),
{
    let mut r: Vec<StdCellLanguage> = Vec::new();
    let mut k: usize = 0;
    while k < v.len()
        invariant
            0 <= k <= v@.len(),
            r@.len() == k,
            lang_models(r@) == lang_models(v@.take(k as int)),
        decreases v.len() - k,
    {
        let ghost old_r = r@;
        r.push(clone_node(&v[k]));
        proof {
            assert forall|i: int| 0 <= i < k + 1 implies #[trigger] lang_models(r@)[i] == lang_models(
                v@.take(k + 1),
            )[i] by {
                if i < k {
                    assert(r@[i] == old_r[i]);
                    assert(lang_models(old_r)[i] == lang_models(v@.take(k as int))[i]);
                }
            }
            assert(lang_models(r@) =~= lang_models(v@.take(k + 1)));
        }
        k = k + 1;
    }
    assert(v@.take(k as int) =~= v@);
    r
}

/// The name `op:[a, b, ...]` of a gate e-node.
fn gate_enode_text(op: &String, cs: &Vec<usize>) -> (r: String)
    ensures
        r@ == gate_enode(op@, cs@),
{
    let mut v: Vec<char> = Vec::new();
    push_str(&mut v, op.as_str());
    push_str(&mut v, ":[");
    let ghost start = v@;
    let mut k: usize = 0;
    while k < cs.len()
        invariant
            0 <= k <= cs@.len(),
            v@ == start + ids_join(cs@.take(k as int)),
        decreases cs.len() - k,
    {
        let ghost t = cs@.take(k + 1);
        assert(t.drop_last() =~= cs@.take(k as int));
        if k > 0 {
            push_str(&mut v, ", ");
        }
        push_decimal(&mut v, cs[k]);
        proof {
            if k == 0 {
                assert(ids_join(t) == decimal(t[0] as nat));
                assert(v@ =~= start + ids_join(t));
            } else {
                assert(v@ =~= start + ids_join(t));
            }
        }
        k = k + 1;
    }
    assert(cs@.take(k as int) =~= cs@);
    push_str(&mut v, "]");
    assert(v@ =~= op@ + ":["@ + ids_join(cs@) + "]"@);
    string_of(v.as_slice())
}

/// `boundary:<a>`.
fn boundary_enode_text(a: usize) -> (r: String)
    ensures
        r@ == "boundary:"@ + decimal(a as nat),
{
    let mut v: Vec<char> = Vec::new();
    push_str(&mut v, "boundary:");
    push_decimal(&mut v, a);
    string_of(v.as_slice())
}

proof fn lemma_comb_outer_step(
    combos: Seq<ComboModel>,
    alts: Seq<EnumModel>,
    p: nat,
    next: Seq<ComboModel>,
    pruned: nat,
    max: nat,
)
    requires
        p < combos.len(),
    ensures
        comb_outer(combos, alts, p, next, pruned, max) == ({
            let r = comb_inner(combos[p as int], alts, 0, next, pruned, max);
            if r.0.len() >= 512 {
                r
            } else {
                comb_outer(combos, alts, p + 1, r.0, r.1, max)
            }
        }),
{
}

/// Extends every choice so far by the expressions of the next child, as
/// `comb_outer` states, and counts those refused for their gate count.
fn combine(combos: &Vec<Combo>, alts: &Vec<EnumeratedExpr>, max: usize) -> (r: (Vec<Combo>, usize))
    requires
        max <= usize::MAX / 4,
        combos_bounded(combo_models(combos@), max as nat),
        bounded(enum_models(alts@), max as nat),
        comb_outer(combo_models(combos@), enum_models(alts@), 0, Seq::empty(), 0, max as nat).1
            <= usize::MAX,
    ensures
        (combo_models(r.0@), r.1 as nat) == comb_outer(
            combo_models(combos@),
            enum_models(alts@),
            0,
            Seq::empty(),
            0,
            max as nat,
        ),
{
    let ghost cm = combo_models(combos@);
    let ghost am = enum_models(alts@);
    let ghost target = comb_outer(cm, am, 0, Seq::empty(), 0, max as nat);
    let mut next: Vec<Combo> = Vec::new();
    let mut pruned: usize = 0;
    let mut p: usize = 0;
    proof {
        lemma_comb_outer(cm, am, 0, Seq::empty(), 0, max as nat);
    }
    assert(combo_models(next@) =~= Seq::<ComboModel>::empty());
    while p < combos.len()
        invariant_except_break
            0 <= p <= combos@.len(),
            combo_models(next@).len() < 512,
            combos_bounded(combo_models(next@), max as nat),
            comb_outer(cm, am, p as nat, combo_models(next@), pruned as nat, max as nat) == target,
        invariant
            max <= usize::MAX / 4,
            cm == combo_models(combos@),
            am == enum_models(alts@),
            combos_bounded(cm, max as nat),
            bounded(am, max as nat),
            target.1 <= usize::MAX,
        ensures
            (combo_models(next@), pruned as nat) == target,
        decreases combos.len() - p,
    {
        proof {
            lemma_comb_outer_step(cm, am, p as nat, combo_models(next@), pruned as nat, max as nat);
        }
        let prefix = &combos[p];
        let ghost pm = cm[p as int];
        assert(pm == combo_model(*prefix));
        let mut q: usize = 0;
        while q < alts.len()
            invariant_except_break
                0 <= q <= alts@.len(),
                combo_models(next@).len() < 512,
                combos_bounded(combo_models(next@), max as nat),
                ({
                    let r = comb_inner(pm, am, q as nat, combo_models(next@), pruned as nat, max as nat);
                    if r.0.len() >= 512 {
                        r
                    } else {
                        comb_outer(cm, am, (p + 1) as nat, r.0, r.1, max as nat)
                    }
                }) == target,
            invariant
                p < combos@.len(),
                max <= usize::MAX / 4,
                cm == combo_models(combos@),
                am == enum_models(alts@),
                combos_bounded(cm, max as nat),
                bounded(am, max as nat),
                target.1 <= usize::MAX,
                pm == combo_model(*prefix),
                pm == cm[p as int],
            ensures
                ({
                    let r = (combo_models(next@), pruned as nat);
                    if r.0.len() >= 512 {
                        r
                    } else {
                        comb_outer(cm, am, (p + 1) as nat, r.0, r.1, max as nat)
                    }
                }) == target,
                combos_bounded(combo_models(next@), max as nat),
            decreases alts.len() - q,
        {
            let alt = &alts[q];
            let ghost a = am[q as int];
            assert(a == enum_model(*alt));
            assert(pm.gates + 1 <= max || pm.gates == 0);
            assert(a.gates <= max + 1);
            let total = prefix.1 + alt.gates;
            proof {
                lemma_comb_inner(pm, am, q as nat, combo_models(next@), pruned as nat, max as nat);
            }
            if total + 1 > max {
                proof {
                    let r = comb_inner(pm, am, (q + 1) as nat, combo_models(next@), (pruned + 1) as nat, max as nat);
                    lemma_comb_inner(pm, am, (q + 1) as nat, combo_models(next@), (pruned + 1) as nat, max as nat);
                    if r.0.len() < 512 {
                        lemma_comb_outer(cm, am, (p + 1) as nat, r.0, r.1, max as nat);
                    }
                }
                pruned = pruned + 1;
                q = q + 1;
            } else {
                let mut exprs = copy_exprs(&prefix.0);
                let ghost before = exprs@;
                exprs.push(copy_expr(&alt.expression));
                assert(exprs@.drop_last() =~= before);
                let depth = if prefix.2 >= alt.depth {
                    prefix.2
                } else {
                    alt.depth
                };
                let ghost nb = combo_models(next@);
                next.push((exprs, total, depth));
                assert(combo_models(next@) =~= nb.push(
                    ComboModel {
                        exprs: pm.exprs.push(a.expr),
                        gates: total as nat,
                        depth: max_nat(pm.depth, a.depth),
                    },
                ));
                assert(combos_bounded(combo_models(next@), max as nat)) by {
                    let nn = combo_models(next@);
                    assert forall|k: int| 0 <= k < nn.len() implies ((#[trigger] nn[k]).gates + 1
                        <= max || nn[k].gates == 0) && nn[k].depth <= nn[k].gates by {
                        if k < nb.len() {
                            assert(nn[k] == nb[k]);
                        }
                    }
                }
                if next.len() >= 512 {
                    break;
                }
                q = q + 1;
            }
        }
        if next.len() >= 512 {
            break;
        }
        p = p + 1;
    }
    (next, pruned)
}

proof fn lemma_nodes_loop_step(
    cfg: ConeCfg,
    st: ConeState,
    nodes: Seq<LangModel>,
    i: nat,
    stack: Seq<bool>,
    result: Seq<EnumModel>,
)
    requires
        i < nodes.len(),
    ensures
        nodes_loop(cfg, st, nodes, i, stack, result) == ({
            let step = node_step(cfg, st, nodes, i, stack, result);
            if step.1.len() >= 512 {
                step
            } else {
                nodes_loop(cfg, step.0, nodes, i + 1, stack, step.1)
            }
        }),
{
}

/// What e-node `nodes[i]` adds to `result`, and the state after it.
pub open spec fn node_step(
    cfg: ConeCfg,
    st: ConeState,
    nodes: Seq<LangModel>,
    i: nat,
    stack: Seq<bool>,
    result: Seq<EnumModel>,
) -> (ConeState, Seq<EnumModel>) {
    match nodes[i as int] {
        LangModel::Symbol(s) => (
            st,
            match boundary_from(cfg.boundaries, 0, s) {
                Some(a) => result.push(anchor_model(a, s)),
                None => result,
            },
        ),
        LangModel::Input(s) => (
            st,
            match boundary_from(cfg.boundaries, 0, s) {
                Some(a) => result.push(anchor_model(a, s)),
                None => result,
            },
        ),
        LangModel::Gate(op, children) => if cfg.depth_bound && count_true(stack) > cfg.max_gates {
            (with_gate(st, 1), result)
        } else {
            let c = children_loop(
                cfg,
                st,
                stack,
                children,
                0,
                seq![ComboModel { exprs: Seq::empty(), gates: 0, depth: 0 }],
                nodes.len(),
                i,
            );
            (c.0, push_cells(result, c.1, 0, op, gate_enode(op, children)))
        },
        LangModel::Bool(b) => (st, result.push(bool_model(b))),
        LangModel::Output(_, _) => (st, result),
    }
}



impl ConeEnumerator {
    /// The expressions of class `class` on the path `stack`, as
    /// `enum_class` states; the path is unchanged afterwards.
    pub fn enumerate(&mut self, class: usize, stack: &mut ActiveStack) -> (r: Vec<EnumeratedExpr>)
        requires
            old(self).wf(),
            class < old(self).classes@.len(),
            old(stack).wf(old(self).classes@.len() as nat),
            fits(enum_class(old(self).cfg(), old(self).state(), class, old(stack).flags@).0),
        ensures
            final(self).wf(),
            final(self).cfg() == old(self).cfg(),
            final(self).classes@.len() == old(self).classes@.len(),
            final(stack).flags@ == old(stack).flags@,
            final(stack).count == old(stack).count,
            (final(self).state(), enum_models(r@)) == enum_class(
                old(self).cfg(),
                old(self).state(),
                class,
                old(stack).flags@,
            ),
        decreases count_false(old(stack).flags@), 0nat, 0nat,
    {
        let ghost cfg = self.cfg();
        let ghost st0 = self.state();
        let ghost flags0 = stack.flags@;
        let ghost n = self.classes@.len();
        proof {
            lemma_enumeration_within_limits(cfg, st0, class, flags0);
        }
        if class != self.root {
            match self.collapse[class] {
                Some(anchor) => {
                    let mut r: Vec<EnumeratedExpr> = Vec::new();
                    r.push(
                        EnumeratedExpr {
                            expression: TopologyExpr::Anchor(anchor),
                            gates: 0,
                            depth: 0,
                            root_enode: boundary_enode_text(anchor),
                        },
                    );
                    assert(enum_models(r@) =~= seq![
                        anchor_model(anchor, "boundary:"@ + decimal(anchor as nat)),
                    ]);
                    return r;
                },
                None => {},
            }
        }
        if stack.flags[class] {
            self.stats.cycle_pruned = self.stats.cycle_pruned + 1;
            let r: Vec<EnumeratedExpr> = Vec::new();
            assert(enum_models(r@) =~= Seq::<EnumModel>::empty());
            assert(self.state().memo =~= st0.memo);
            return r;
        }
        let ancestors = ancestors_of(stack, class);
        if self.memo_enabled {
            match self.memo_lookup(class, &ancestors) {
                Some(k) => {
                    return copy_results(&self.memo[k].result);
                },
                None => {},
            }
        }
        let ghost inner = flags0.update(class as int, true);
        proof {
            lemma_count_update(flags0, class as int, true);
            lemma_count_true_bound(inner);
            lemma_count_false_drop(flags0, class as int);
        }
        let width = stack.flags.len();
        assert(stack.count < width);
        stack.flags.set(class, true);
        stack.count = stack.count + 1;
        assert(stack.flags@ == inner);
        let nodes = clone_nodes(&self.classes[class]);
        assert(lang_models(nodes@) == cfg.classes[class as int]);
        assert forall|k: int| 0 <= k < nodes@.len() implies children_below(
            #[trigger] nodes@[k]@,
            n as nat,
        ) by {
            assert(lang_models(nodes@)[k] == lang_models(self.classes@[class as int]@)[k]);
            assert(children_below(self.classes@[class as int]@[k]@, n as nat));
        }
        let result = self.enumerate_nodes(stack, &nodes);
        proof {
            lemma_count_update(inner, class as int, false);
        }
        stack.flags.set(class, false);
        stack.count = stack.count - 1;
        assert(stack.flags@ =~= flags0);
        if self.memo_enabled {
            let ghost before = self.state();
            let cached = copy_results(&result);
            let ghost before_memo = self.memo@;
            self.memo.push(MemoEntry { class, ancestors, result: cached });
            assert(self.memo@.map_values(|e: MemoEntry| memo_model(e)) =~= before.memo.push(
                MemoModel { class, ancestors: flagged_below(flags0, flags0.len(), class), result: enum_models(result@) },
            ));
        }
        result
    }

    /// The expressions of the e-nodes `nodes` of a class on the path
    /// `stack`, as `nodes_loop` states.
    fn enumerate_nodes(&mut self, stack: &mut ActiveStack, nodes: &Vec<StdCellLanguage>) -> (r: Vec<
        EnumeratedExpr,
    >)
        requires
            old(self).wf(),
            old(stack).wf(old(self).classes@.len() as nat),
            forall|k: int|
                0 <= k < nodes@.len() ==> children_below(
                    #[trigger] nodes@[k]@,
                    old(self).classes@.len() as nat,
                ),
            fits(
                nodes_loop(
                    old(self).cfg(),
                    old(self).state(),
                    lang_models(nodes@),
                    0,
                    old(stack).flags@,
                    Seq::empty(),
                ).0,
            ),
        ensures
            final(self).wf(),
            final(self).cfg() == old(self).cfg(),
            final(self).classes@.len() == old(self).classes@.len(),
            final(stack).flags@ == old(stack).flags@,
            final(stack).count == old(stack).count,
            (final(self).state(), enum_models(r@)) == nodes_loop(
                old(self).cfg(),
                old(self).state(),
                lang_models(nodes@),
                0,
                old(stack).flags@,
                Seq::empty(),
            ),
        decreases count_false(old(stack).flags@), nodes@.len() + 1, 0nat,
    {
        let ghost cfg = self.cfg();
        let ghost n = self.classes@.len();
        let ghost nm = lang_models(nodes@);
        let ghost flags = stack.flags@;
        let ghost count0 = stack.count;
        let ghost target = nodes_loop(cfg, self.state(), nm, 0, flags, Seq::empty());
        let mut result: Vec<EnumeratedExpr> = Vec::new();
        assert(enum_models(result@) =~= Seq::<EnumModel>::empty());
        let mut i: usize = 0;
        while i < nodes.len()
            invariant_except_break
                0 <= i <= nodes@.len(),
                enum_models(result@).len() < 512,
                nodes_loop(cfg, self.state(), nm, i as nat, flags, enum_models(result@)) == target,
                bounded(enum_models(result@), cfg.max_gates),
            invariant
                self.wf(),
                self.cfg() == cfg,
                self.classes@.len() == n,
                stack.flags@ == flags,
                flags == old(stack).flags@,
                stack.count == count0,
                stack.wf(n as nat),
                nm == lang_models(nodes@),
                fits(target.0),
                forall|k: int| 0 <= k < nodes@.len() ==> children_below(#[trigger] nodes@[k]@, n as nat),
            ensures
                (self.state(), enum_models(result@)) == target,
            decreases nodes.len() - i,
        {
            let ghost st_i = self.state();
            let ghost res_i = enum_models(result@);
            let ghost step = node_step(cfg, st_i, nm, i as nat, flags, res_i);
            proof {
                lemma_nodes_loop_step(cfg, st_i, nm, i as nat, flags, res_i);
                lemma_node_step(cfg, st_i, nm, i as nat, flags, res_i);
                if step.1.len() < 512 {
                    lemma_nodes_loop(cfg, step.0, nm, (i + 1) as nat, flags, step.1);
                }
                assert(nm[i as int] == nodes@[i as int]@);
            }
            match &nodes[i] {
                StdCellLanguage::Symbol(s) => {
                    match self.boundary_lookup(s) {
                        Some(a) => {
                            result.push(
                                EnumeratedExpr {
                                    expression: TopologyExpr::Anchor(a),
                                    gates: 0,
                                    depth: 0,
                                    root_enode: copy_string(s),
                                },
                            );
                            assert(enum_models(result@) =~= res_i.push(anchor_model(a, s@)));
                        },
                        None => {},
                    }
                },
                StdCellLanguage::Input(s) => {
                    match self.boundary_lookup(s) {
                        Some(a) => {
                            result.push(
                                EnumeratedExpr {
                                    expression: TopologyExpr::Anchor(a),
                                    gates: 0,
                                    depth: 0,
                                    root_enode: copy_string(s),
                                },
                            );
                            assert(enum_models(result@) =~= res_i.push(anchor_model(a, s@)));
                        },
                        None => {},
                    }
                },
                StdCellLanguage::Gate(op, children) => {
                    if self.depth_bound && stack.count > self.max_gates {
                        self.stats.gate_bound_pruned = self.stats.gate_bound_pruned + 1;
                        assert(self.state().memo =~= st_i.memo);
                    } else {
                        assert(children_below(nodes@[i as int]@, n as nat));
                        assert(count_false(stack.flags@) == count_false(flags));
                        let combos = self.enumerate_children(
                            stack,
                            children,
                            Ghost(nodes@.len() as nat),
                            Ghost(i as nat),
                        );
                        let enode = gate_enode_text(op, children);
                        let ghost cms = combo_models(combos@);
                        let mut k: usize = 0;
                        while k < combos.len()
                            invariant_except_break
                                0 <= k <= combos@.len(),
                                push_cells(res_i, cms, 0, op@, enode@) == push_cells(
                                    enum_models(result@),
                                    cms,
                                    k as nat,
                                    op@,
                                    enode@,
                                ),
                                enum_models(result@).len() < 512,
                            invariant
                                cms == combo_models(combos@),
                                combos_bounded(cms, cfg.max_gates),
                                cfg.max_gates == self.max_gates,
                                self.max_gates <= usize::MAX / 4,
                            ensures
                                push_cells(res_i, cms, 0, op@, enode@) == enum_models(result@),
                            decreases combos.len() - k,
                        {
                            let c = &combos[k];
                            assert(cms[k as int] == combo_model(*c));
                            let ghost rb = enum_models(result@);
                            let exprs = copy_exprs(&c.0);
                            result.push(
                                EnumeratedExpr {
                                    expression: TopologyExpr::cell(op.as_str(), exprs),
                                    gates: c.1 + 1,
                                    depth: c.2 + 1,
                                    root_enode: copy_string(&enode),
                                },
                            );
                            assert(enum_models(result@) =~= rb.push(
                                cell_model(op@, cms[k as int], enode@),
                            ));
                            if result.len() >= 512 {
                                break;
                            }
                            k = k + 1;
                        }
                    }
                },
                StdCellLanguage::Bool(b) => {
                    let text = if *b {
                        "true".to_string()
                    } else {
                        "false".to_string()
                    };
                    let label = copy_string(&text);
                    result.push(
                        EnumeratedExpr {
                            expression: TopologyExpr::cell(text.as_str(), Vec::new()),
                            gates: 0,
                            depth: 0,
                            root_enode: label,
                        },
                    );
                    assert(enum_models(result@) =~= res_i.push(bool_model(*b)));
                },
                StdCellLanguage::Output(_, _) => {},
            }
            assert((self.state(), enum_models(result@)) == step);
            if result.len() >= 512 {
                break;
            }
            i = i + 1;
        }
        result
    }

    /// The choices of children of a gate, as `children_loop` states.
    fn enumerate_children(
        &mut self,
        stack: &mut ActiveStack,
        children: &Vec<usize>,
        Ghost(len): Ghost<nat>,
        Ghost(i): Ghost<nat>,
    ) -> (r: Vec<Combo>)
        requires
            old(self).wf(),
            old(stack).wf(old(self).classes@.len() as nat),
            forall|k: int| 0 <= k < children@.len() ==> #[trigger] children@[k] < old(self).classes@.len(),
            fits(
                children_loop(
                    old(self).cfg(),
                    old(self).state(),
                    old(stack).flags@,
                    children@,
                    0,
                    seq![ComboModel { exprs: Seq::empty(), gates: 0, depth: 0 }],
                    len,
                    i,
                ).0,
            ),
        ensures
            final(self).wf(),
            final(self).cfg() == old(self).cfg(),
            final(self).classes@.len() == old(self).classes@.len(),
            final(stack).flags@ == old(stack).flags@,
            final(stack).count == old(stack).count,
            (final(self).state(), combo_models(r@)) == children_loop(
                old(self).cfg(),
                old(self).state(),
                old(stack).flags@,
                children@,
                0,
                seq![ComboModel { exprs: Seq::empty(), gates: 0, depth: 0 }],
                len,
                i,
            ),
            combos_bounded(combo_models(r@), old(self).max_gates as nat),
        decreases count_false(old(stack).flags@), if i < len {
            len - i
        } else {
            0
        }, children@.len(),
    {
        let ghost cfg = self.cfg();
        let ghost n = self.classes@.len();
        let ghost flags = stack.flags@;
        let ghost count0 = stack.count;
        let ghost init = seq![ComboModel { exprs: Seq::empty(), gates: 0, depth: 0 }];
        let ghost target = children_loop(cfg, self.state(), flags, children@, 0, init, len, i);
        let mut combos: Vec<Combo> = Vec::new();
        combos.push((Vec::new(), 0, 0));
        assert(children_model(Seq::<TopologyExpr>::empty()) =~= Seq::<ExprModel>::empty());
        assert(combo_models(combos@) =~= init);
        assert(combos_bounded(init, cfg.max_gates));
        let mut j: usize = 0;
        while j < children.len()
            invariant
                0 <= j <= children@.len(),
                self.wf(),
                self.cfg() == cfg,
                self.classes@.len() == n,
                stack.flags@ == flags,
                flags == old(stack).flags@,
                stack.count == count0,
                stack.wf(n as nat),
                forall|k: int| 0 <= k < children@.len() ==> #[trigger] children@[k] < n,
                fits(target.0),
                combos_bounded(combo_models(combos@), cfg.max_gates),
                children_loop(cfg, self.state(), flags, children@, j as nat, combo_models(combos@), len, i)
                    == target,
            decreases children.len() - j,
        {
            let ghost st_j = self.state();
            let ghost cm = combo_models(combos@);
            let ghost e = enum_class(cfg, st_j, children@[j as int], flags);
            proof {
                lemma_enumeration_within_limits(cfg, st_j, children@[j as int], flags);
                lemma_comb_outer(cm, e.1, 0, Seq::empty(), 0, cfg.max_gates);
                let c = comb_outer(cm, e.1, 0, Seq::empty(), 0, cfg.max_gates);
                lemma_children_loop(cfg, with_gate(e.0, c.1), flags, children@, (j + 1) as nat, c.0, len, i);
            }
            assert(count_false(stack.flags@) == count_false(flags));
            let alts = self.enumerate(children[j], stack);
            let (next, pruned) = combine(&combos, &alts, self.max_gates);
            self.stats.gate_bound_pruned = self.stats.gate_bound_pruned + pruned;
            assert(self.state().memo =~= e.0.memo);
            combos = next;
            j = j + 1;
        }
        combos
    }
}


/// A path on which no class of `n` stands.
pub open spec fn empty_path(n: nat) -> Seq<bool> {
    Seq::new(n, |k: int| false)
}

impl ConeEnumerator {
    /// An enumerator over the given classes, with empty counters and cache.
    pub fn new(
        classes: Vec<Vec<StdCellLanguage>>,
        root: usize,
        collapse: Vec<Option<usize>>,
        boundaries: Vec<(String, usize)>,
        max_gates: usize,
        memo_enabled: bool,
        depth_bound: bool,
    ) -> (r: ConeEnumerator)
        ensures
            r.classes@ == classes@,
            r.root == root,
            r.collapse@ == collapse@,
            r.boundaries@ == boundaries@,
            r.max_gates == max_gates,
            r.memo_enabled == memo_enabled,
            r.depth_bound == depth_bound,
            r.state() == (ConeState { cycle_pruned: 0, gate_bound_pruned: 0, memo: Seq::empty() }),
    {
        let r = ConeEnumerator {
            classes,
            root,
            collapse,
            boundaries,
            max_gates,
            stats: DedupStats {
                local_eclasses: 0,
                local_enodes: 0,
                raw_realizations: 0,
                unique_realizations: 0,
                duplicate_realizations: 0,
                cycle_pruned: 0,
                gate_bound_pruned: 0,
                excluded_phase1_drive_rewrites: 0,
                added_direct_structural_seed_rewrites: 0,
            },
            memo: Vec::new(),
            memo_enabled,
            depth_bound,
        };
        assert(r.state().memo =~= Seq::<MemoModel>::empty());
        r
    }

    /// The expressions of the root class, from an empty path.
    pub fn enumerate_root(&mut self) -> (r: Vec<EnumeratedExpr>)
        requires
            old(self).wf(),
            old(self).root < old(self).classes@.len(),
            fits(
                enum_class(
                    old(self).cfg(),
                    old(self).state(),
                    old(self).root,
                    empty_path(old(self).classes@.len()),
                ).0,
            ),
        ensures
            final(self).wf(),
            final(self).cfg() == old(self).cfg(),
            (final(self).state(), enum_models(r@)) == enum_class(
                old(self).cfg(),
                old(self).state(),
                old(self).root,
                empty_path(old(self).classes@.len()),
            ),
            bounded(enum_models(r@), old(self).max_gates as nat),
            old(self).memo@.len() == 0 ==> enum_models(r@) == enum_class(
                memo_free(old(self).cfg()),
                old(self).state(),
                old(self).root,
                empty_path(old(self).classes@.len()),
            ).1,
    {
        let width = self.classes.len();
        proof {
            let path = empty_path(self.classes@.len());
            assert(path.len() == width);
            lemma_enumeration_within_limits(self.cfg(), self.state(), self.root, path);
            if self.memo@.len() == 0 {
                assert(self.state().memo =~= Seq::<MemoModel>::empty());
                lemma_memo_exact(self.cfg(), self.state(), self.root, path);
            }
        }
        let mut stack = ActiveStack::new(self.classes.len());
        assert(stack.flags@ =~= empty_path(self.classes@.len()));
        let root = self.root;
        self.enumerate(root, &mut stack)
    }
}


// ---------------------------------------------------------------------
// The cache is exact
// ---------------------------------------------------------------------

/// The same settings with the cache switched off.
pub open spec fn memo_free(cfg: ConeCfg) -> ConeCfg {
    ConeCfg {
        classes: cfg.classes,
        root: cfg.root,
        collapse: cfg.collapse,
        boundaries: cfg.boundaries,
        max_gates: cfg.max_gates,
        memo_enabled: false,
        depth_bound: cfg.depth_bound,
    }
}

/// Empty counters and an empty cache.
pub open spec fn zero_state() -> ConeState {
    ConeState { cycle_pruned: 0, gate_bound_pruned: 0, memo: Seq::empty() }
}

/// A cache entry holds what the enumeration without cache gives for its
/// class on the path (of `n` classes) that its ancestors describe.
pub open spec fn sound_entry(cfg: ConeCfg, e: MemoModel, n: nat) -> bool {
    exists|fs: Seq<bool>|
        #![trigger flagged_below(fs, n, e.class)]
        fs.len() == n && e.class < n && !fs[e.class as int] && flagged_below(fs, n, e.class)
            == e.ancestors && e.result == enum_class(memo_free(cfg), zero_state(), e.class, fs).1
}

pub open spec fn memo_sound(cfg: ConeCfg, m: Seq<MemoModel>, n: nat) -> bool {
    forall|k: int| 0 <= k < m.len() ==> sound_entry(cfg, #[trigger] m[k], n)
}

proof fn lemma_push_contains(s: Seq<usize>, v: usize, x: usize)
    ensures
        s.push(v).contains(x) <==> (s.contains(x) || x == v),
{
    if s.push(v).contains(x) {
        let j = choose|j: int| 0 <= j < s.push(v).len() && s.push(v)[j] == x;
        if j < s.len() {
            assert(s[j] == x);
        }
    }
    if s.contains(x) {
        let j = choose|j: int| 0 <= j < s.len() && s[j] == x;
        assert(s.push(v)[j] == x);
    }
    if x == v {
        assert(s.push(v)[s.len() as int] == x);
    }
}

proof fn lemma_flagged_contains(s: Seq<bool>, k: nat, c: usize, x: usize)
    requires
        k <= s.len(),
        s.len() <= usize::MAX,
    ensures
        flagged_below(s, k, c).contains(x) <==> (x < k && s[x as int] && x != c),
    decreases k,
{
    if k > 0 {
        lemma_flagged_contains(s, (k - 1) as nat, c, x);
        let rest = flagged_below(s, (k - 1) as nat, c);
        if s[k - 1] && k - 1 != c {
            lemma_push_contains(rest, (k - 1) as usize, x);
        }
    }
}

/// Two paths with the same ancestors of an off-path class are one path.
proof fn lemma_same_key(s1: Seq<bool>, s2: Seq<bool>, c: usize)
    requires
        s1.len() == s2.len(),
        s1.len() <= usize::MAX,
        c < s1.len(),
        !s1[c as int],
        !s2[c as int],
        flagged_below(s1, s1.len(), c) == flagged_below(s2, s2.len(), c),
    ensures
        s1 == s2,
{
    assert forall|x: int| 0 <= x < s1.len() implies s1[x] == s2[x] by {
        if x != c {
            lemma_flagged_contains(s1, s1.len(), c, x as usize);
            lemma_flagged_contains(s2, s2.len(), c, x as usize);
        }
    }
    assert(s1 =~= s2);
}

proof fn lemma_memo_from_entry(m: Seq<MemoModel>, k: nat, class: usize, anc: Seq<usize>)
    ensures
        memo_from(m, k, class, anc) matches Some(r) ==> exists|idx: int|
            0 <= idx < m.len() && (#[trigger] m[idx]).class == class && m[idx].ancestors == anc
                && m[idx].result == r,
    decreases m.len() - k,
{
    if k < m.len() {
        if m[k as int].class == class && m[k as int].ancestors == anc {
            assert(m[k as int].class == class);
        } else {
            lemma_memo_from_entry(m, k + 1, class, anc);
        }
    }
}

proof fn lemma_off_class(cfg: ConeCfg, st1: ConeState, st2: ConeState, class: usize, stack: Seq<bool>)
    requires
        !cfg.memo_enabled,
    ensures
        enum_class(cfg, st1, class, stack).1 == enum_class(cfg, st2, class, stack).1,
    decreases count_false(stack), 0nat, 0nat,
{
    if class != cfg.root && class < cfg.collapse.len() && cfg.collapse[class as int] is Some {
    } else if class >= stack.len() {
    } else if stack[class as int] {
    } else {
        let inner = stack.update(class as int, true);
        lemma_count_false_drop(stack, class as int);
        lemma_off_nodes(cfg, st1, st2, cfg.classes[class as int], 0, inner, Seq::empty());
    }
}

proof fn lemma_off_nodes(
    cfg: ConeCfg,
    st1: ConeState,
    st2: ConeState,
    nodes: Seq<LangModel>,
    i: nat,
    stack: Seq<bool>,
    result: Seq<EnumModel>,
)
    requires
        !cfg.memo_enabled,
    ensures
        nodes_loop(cfg, st1, nodes, i, stack, result).1 == nodes_loop(cfg, st2, nodes, i, stack, result).1,
    decreases count_false(stack), nodes.len() + 1 - i, 1nat,
{
    if i < nodes.len() {
        lemma_nodes_loop_step(cfg, st1, nodes, i, stack, result);
        lemma_nodes_loop_step(cfg, st2, nodes, i, stack, result);
        lemma_off_step(cfg, st1, st2, nodes, i, stack, result);
        let a = node_step(cfg, st1, nodes, i, stack, result);
        let b = node_step(cfg, st2, nodes, i, stack, result);
        if a.1.len() < 512 {
            lemma_off_nodes(cfg, a.0, b.0, nodes, i + 1, stack, a.1);
        }
    }
}

proof fn lemma_off_step(
    cfg: ConeCfg,
    st1: ConeState,
    st2: ConeState,
    nodes: Seq<LangModel>,
    i: nat,
    stack: Seq<bool>,
    result: Seq<EnumModel>,
)
    requires
        !cfg.memo_enabled,
        i < nodes.len(),
    ensures
        node_step(cfg, st1, nodes, i, stack, result).1 == node_step(cfg, st2, nodes, i, stack, result).1,
    decreases count_false(stack), nodes.len() + 1 - i, 0nat,
{
    match nodes[i as int] {
        LangModel::Gate(op, children) => {
            if !(cfg.depth_bound && count_true(stack) > cfg.max_gates) {
                let init = seq![ComboModel { exprs: Seq::empty(), gates: 0, depth: 0 }];
                lemma_off_children(cfg, st1, st2, stack, children, 0, init, nodes.len(), i);
            }
        },
        _ => {},
    }
}

proof fn lemma_off_children(
    cfg: ConeCfg,
    st1: ConeState,
    st2: ConeState,
    stack: Seq<bool>,
    children: Seq<usize>,
    j: nat,
    combos: Seq<ComboModel>,
    len: nat,
    i: nat,
)
    requires
        !cfg.memo_enabled,
    ensures
        children_loop(cfg, st1, stack, children, j, combos, len, i).1 == children_loop(
            cfg,
            st2,
            stack,
            children,
            j,
            combos,
            len,
            i,
        ).1,
    decreases count_false(stack), if i < len {
        len - i
    } else {
        0
    }, children.len() - j,
{
    if j < children.len() {
        lemma_off_class(cfg, st1, st2, children[j as int], stack);
        let e1 = enum_class(cfg, st1, children[j as int], stack);
        let e2 = enum_class(cfg, st2, children[j as int], stack);
        let c = comb_outer(combos, e1.1, 0, Seq::empty(), 0, cfg.max_gates);
        lemma_off_children(
            cfg,
            with_gate(e1.0, c.1),
            with_gate(e2.0, c.1),
            stack,
            children,
            j + 1,
            c.0,
            len,
            i,
        );
    }
}

/// The cache is exact: when every cached result is what enumerating
/// without the cache gives (as from an empty cache), enumerating a class
/// with the cache gives the same expressions as enumerating it without,
/// and the cache stays exact.
pub proof fn lemma_memo_exact(cfg: ConeCfg, st: ConeState, class: usize, stack: Seq<bool>)
    requires
        stack.len() <= usize::MAX,
        memo_sound(cfg, st.memo, stack.len()),
    ensures
        enum_class(cfg, st, class, stack).1 == enum_class(memo_free(cfg), st, class, stack).1,
        memo_sound(cfg, enum_class(cfg, st, class, stack).0.memo, stack.len()),
    decreases count_false(stack), 0nat, 0nat,
{
    let off = memo_free(cfg);
    let n = stack.len();
    if class != cfg.root && class < cfg.collapse.len() && cfg.collapse[class as int] is Some {
    } else if class >= stack.len() {
    } else if stack[class as int] {
    } else {
        let key = flagged_below(stack, stack.len(), class);
        let hit = memo_from(st.memo, 0, class, key);
        let inner = stack.update(class as int, true);
        lemma_count_false_drop(stack, class as int);
        if cfg.memo_enabled && hit is Some {
            lemma_memo_from_entry(st.memo, 0, class, key);
            let idx = choose|idx: int|
                0 <= idx < st.memo.len() && (#[trigger] st.memo[idx]).class == class
                    && st.memo[idx].ancestors == key && st.memo[idx].result == hit->0;
            let e = st.memo[idx];
            assert(sound_entry(cfg, e, n));
            let fs = choose|fs: Seq<bool>|
                #![trigger flagged_below(fs, n, e.class)]
                fs.len() == n && e.class < n && !fs[e.class as int] && flagged_below(fs, n, e.class)
                    == e.ancestors && e.result == enum_class(memo_free(cfg), zero_state(), e.class, fs).1;
            lemma_same_key(fs, stack, class);
            lemma_off_class(off, zero_state(), st, class, stack);
        } else {
            lemma_exact_nodes(cfg, st, cfg.classes[class as int], 0, inner, Seq::empty());
            let r = nodes_loop(cfg, st, cfg.classes[class as int], 0, inner, Seq::empty());
            assert(enum_class(off, st, class, stack) == nodes_loop(
                off,
                st,
                cfg.classes[class as int],
                0,
                inner,
                Seq::empty(),
            ));
            if cfg.memo_enabled {
                let entry = MemoModel { class, ancestors: key, result: r.1 };
                lemma_off_class(off, zero_state(), st, class, stack);
                assert(sound_entry(cfg, entry, n)) by {
                    assert(flagged_below(stack, n, entry.class) == entry.ancestors);
                }
                let m2 = r.0.memo.push(entry);
                assert forall|k: int| 0 <= k < m2.len() implies sound_entry(cfg, #[trigger] m2[k], n) by {
                    if k < r.0.memo.len() {
                        assert(m2[k] == r.0.memo[k]);
                    }
                }
            }
        }
    }
}

proof fn lemma_exact_nodes(
    cfg: ConeCfg,
    st: ConeState,
    nodes: Seq<LangModel>,
    i: nat,
    stack: Seq<bool>,
    result: Seq<EnumModel>,
)
    requires
        stack.len() <= usize::MAX,
        memo_sound(cfg, st.memo, stack.len()),
    ensures
        nodes_loop(cfg, st, nodes, i, stack, result).1 == nodes_loop(
            memo_free(cfg),
            st,
            nodes,
            i,
            stack,
            result,
        ).1,
        memo_sound(cfg, nodes_loop(cfg, st, nodes, i, stack, result).0.memo, stack.len()),
    decreases count_false(stack), nodes.len() + 1 - i, 1nat,
{
    let off = memo_free(cfg);
    if i < nodes.len() {
        lemma_nodes_loop_step(cfg, st, nodes, i, stack, result);
        lemma_nodes_loop_step(off, st, nodes, i, stack, result);
        lemma_exact_step(cfg, st, nodes, i, stack, result);
        let a = node_step(cfg, st, nodes, i, stack, result);
        let b = node_step(off, st, nodes, i, stack, result);
        if a.1.len() < 512 {
            lemma_exact_nodes(cfg, a.0, nodes, i + 1, stack, a.1);
            lemma_off_nodes(off, a.0, b.0, nodes, i + 1, stack, a.1);
        }
    }
}

proof fn lemma_exact_step(
    cfg: ConeCfg,
    st: ConeState,
    nodes: Seq<LangModel>,
    i: nat,
    stack: Seq<bool>,
    result: Seq<EnumModel>,
)
    requires
        stack.len() <= usize::MAX,
        memo_sound(cfg, st.memo, stack.len()),
        i < nodes.len(),
    ensures
        node_step(cfg, st, nodes, i, stack, result).1 == node_step(
            memo_free(cfg),
            st,
            nodes,
            i,
            stack,
            result,
        ).1,
        memo_sound(cfg, node_step(cfg, st, nodes, i, stack, result).0.memo, stack.len()),
    decreases count_false(stack), nodes.len() + 1 - i, 0nat,
{
    match nodes[i as int] {
        LangModel::Gate(op, children) => {
            if !(cfg.depth_bound && count_true(stack) > cfg.max_gates) {
                let init = seq![ComboModel { exprs: Seq::empty(), gates: 0, depth: 0 }];
                lemma_exact_children(cfg, st, stack, children, 0, init, nodes.len(), i);
            }
        },
        _ => {},
    }
}

proof fn lemma_exact_children(
    cfg: ConeCfg,
    st: ConeState,
    stack: Seq<bool>,
    children: Seq<usize>,
    j: nat,
    combos: Seq<ComboModel>,
    len: nat,
    i: nat,
)
    requires
        stack.len() <= usize::MAX,
        memo_sound(cfg, st.memo, stack.len()),
    ensures
        children_loop(cfg, st, stack, children, j, combos, len, i).1 == children_loop(
            memo_free(cfg),
            st,
            stack,
            children,
            j,
            combos,
            len,
            i,
        ).1,
        memo_sound(cfg, children_loop(cfg, st, stack, children, j, combos, len, i).0.memo, stack.len()),
    decreases count_false(stack), if i < len {
        len - i
    } else {
        0
    }, children.len() - j,
{
    let off = memo_free(cfg);
    if j < children.len() {
        lemma_memo_exact(cfg, st, children[j as int], stack);
        let e1 = enum_class(cfg, st, children[j as int], stack);
        let e2 = enum_class(off, st, children[j as int], stack);
        let c = comb_outer(combos, e1.1, 0, Seq::empty(), 0, cfg.max_gates);
        lemma_exact_children(cfg, with_gate(e1.0, c.1), stack, children, j + 1, c.0, len, i);
        lemma_off_children(
            off,
            with_gate(e1.0, c.1),
            with_gate(e2.0, c.1),
            stack,
            children,
            j + 1,
            c.0,
            len,
            i,
        );
    }
}

} // verus!
