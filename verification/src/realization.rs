//! Structural realizations of one anchor and the drive-strength-blind view
//! of cell names that separates structural candidates from mere resizing.
use vstd::prelude::*;

use crate::language::{cell_text, LangModel, StdCellLanguage};
use crate::netlist::{contains_index, fanins_of, Netlist};
use crate::language::StdCellType;
use crate::text::{chars_le, chars_less_eq, chars_of, contains_string, copy_strings, lemma_chars_le_antisym, lemma_chars_le_total, lemma_chars_le_trans, decimal, is_digit, push_decimal, push_str, string_of, strings_view};
use crate::topology::{children_size, expr_size, lemma_child_smaller, TopologyExpr};
use crate::equivalence::{sorted_unique, strictly_increasing};

verus! {

/// The rule family that first produced a realization (debug metadata).
#[derive(Clone, Copy, Debug, PartialEq, Eq, Structural)]
pub enum RuleFamily {
    Inv,
    Dmg,
    Comm,
    Expand,
    Mixed,
}

/// Counters of a realization enumeration.
#[derive(Clone, Debug)]
pub struct DedupStats {
    /// Aggregate size of the per-anchor bounded local e-graphs.
    pub local_eclasses: usize,
    pub local_enodes: usize,
    pub raw_realizations: usize,
    pub unique_realizations: usize,
    pub duplicate_realizations: usize,
    pub cycle_pruned: usize,
    pub gate_bound_pruned: usize,
    /// Rules removed because they equate drive variants.
    pub excluded_phase1_drive_rewrites: usize,
    /// Forward-only aliases that keep every incumbent family member reachable.
    pub added_direct_structural_seed_rewrites: usize,
}

/// A realization of one anchor by a cone of cells.
#[derive(Debug)]
pub struct StructuralRealization {
    pub root_anchor: usize,
    pub root_eclass: String,
    pub root_enode: String,
    pub expression: TopologyExpr,
    /// Canonical, ordered text of the expression; pin order is kept.
    pub expression_text: String,
    pub boundary_anchors: Vec<usize>,
    pub created_logical_nodes: usize,
    pub logic_depth: usize,
    pub structural_hash: String,
    /// Debug metadata only; never scored.
    pub provenance: Vec<String>,
    pub first_seen_family: RuleFamily,
}

/// The first position `i >= k` where an `x` is followed by a digit.
pub open spec fn drive_marker(s: Seq<char>, k: nat) -> Option<nat>
    decreases s.len() - k,
{
    if k + 1 >= s.len() {
        None
    } else if s[k as int] == 'x' && is_digit(s[k as int + 1]) {
        Some(k)
    } else {
        drive_marker(s, k + 1)
    }
}

/// The end of the run of digits starting at `k`.
pub open spec fn digit_run_end(s: Seq<char>, k: nat) -> nat
    decreases s.len() - k,
{
    if k < s.len() && is_digit(s[k as int]) {
        digit_run_end(s, k + 1)
    } else {
        k
    }
}

/// A cell name without its drive strength: the first `x` followed by digits
/// is removed together with those digits.
pub open spec fn stripped(s: Seq<char>) -> Seq<char> {
    match drive_marker(s, 0) {
        None => s,
        Some(i) => s.take(i as int) + s.skip(digit_run_end(s, i + 1) as int),
    }
}

proof fn lemma_digit_run_bounds(s: Seq<char>, k: nat)
    requires
        k <= s.len(),
    ensures
        k <= digit_run_end(s, k) <= s.len(),
    decreases s.len() - k,
{
    if k < s.len() && is_digit(s[k as int]) {
        lemma_digit_run_bounds(s, k + 1);
    }
}

proof fn lemma_drive_marker_bounds(s: Seq<char>, k: nat)
    ensures
        drive_marker(s, k) matches Some(i) ==> k <= i && i + 1 < s.len(),
    decreases s.len() - k,
{
    if k + 1 < s.len() && !(s[k as int] == 'x' && is_digit(s[k as int + 1])) {
        lemma_drive_marker_bounds(s, k + 1);
    }
}

/// Removes the drive strength from a cell name.
pub fn strip_drive_strength(op: &str) -> (r: String)
    ensures
        r@ == stripped(op@),
{
    let cs = chars_of(op);
    let mut i: usize = 0;
    while i < cs.len() && i + 1 < cs.len()
        invariant
            cs@ == op@,
            drive_marker(op@, 0) == drive_marker(op@, i as nat),
        decreases cs.len() - i,
    {
        if cs[i] == 'x' && '0' <= cs[i + 1] && cs[i + 1] <= '9' {
            let mut end = i + 1;
            proof {
                lemma_digit_run_bounds(op@, end as nat);
            }
            while end < cs.len() && '0' <= cs[end] && cs[end] <= '9'
                invariant
                    i + 1 <= end <= cs@.len(),
                    cs@ == op@,
                    digit_run_end(op@, end as nat) == digit_run_end(op@, (i + 1) as nat),
                decreases cs.len() - end,
            {
                end = end + 1;
            }
            let mut out: Vec<char> = Vec::new();
            let mut k: usize = 0;
            while k < i
                invariant
                    0 <= k <= i,
                    i < cs@.len(),
                    out@ == cs@.take(k as int),
                decreases i - k,
            {
                out.push(cs[k]);
                assert(cs@.take(k + 1) =~= cs@.take(k as int).push(cs@[k as int]));
                k = k + 1;
            }
            let mut m: usize = end;
            while m < cs.len()
                invariant
                    end <= m <= cs@.len(),
                    out@ == cs@.take(i as int) + cs@.subrange(end as int, m as int),
                decreases cs.len() - m,
            {
                out.push(cs[m]);
                assert(cs@.subrange(end as int, m + 1) =~= cs@.subrange(end as int, m as int).push(
                    cs@[m as int],
                ));
                m = m + 1;
            }
            assert(cs@.subrange(end as int, m as int) =~= cs@.skip(end as int));
            return string_of(out.as_slice());
        }
        i = i + 1;
    }
    string_of(cs.as_slice())
}

/// The text of an expression: `@anchor` for a boundary and
/// `op(child,...)` for a cell, with each cell name passed through `name`.
pub open spec fn expr_text_with(e: TopologyExpr, strip: bool) -> Seq<char>
    decreases e,
{
    match e {
        TopologyExpr::Anchor(a) => seq!['@'] + decimal(a as nat),
        TopologyExpr::Cell { op, children } => (if strip {
            stripped(op@)
        } else {
            op@
        }).push('(') + children_text_with(children@, strip) + seq![')'],
    }
}

/// The texts of the children, joined by `,`.
pub open spec fn children_text_with(cs: Seq<TopologyExpr>, strip: bool) -> Seq<char>
    decreases cs,
{
    if cs.len() == 0 {
        Seq::empty()
    } else if cs.len() == 1 {
        expr_text_with(cs[0], strip)
    } else {
        children_text_with(cs.drop_last(), strip).push(',') + expr_text_with(cs.last(), strip)
    }
}

/// The canonical, ordered text of an expression.
pub open spec fn expr_text(e: TopologyExpr) -> Seq<char> {
    expr_text_with(e, false)
}

/// The drive-strength-blind text of an expression.
pub open spec fn expr_hash_text(e: TopologyExpr) -> Seq<char> {
    expr_text_with(e, true)
}

fn push_chars(out: &mut Vec<char>, s: &Vec<char>)
    ensures
        final(out)@ == old(out)@ + s@,
{
    let ghost start = out@;
    let mut i: usize = 0;
    while i < s.len()
        invariant
            0 <= i <= s@.len(),
            out@ == start + s@.take(i as int),
        decreases s.len() - i,
    {
        out.push(s[i]);
        assert(s@.take(i + 1) =~= s@.take(i as int).push(s@[i as int]));
        i = i + 1;
    }
    assert(s@.take(i as int) =~= s@);
}

fn push_expr_text(out: &mut Vec<char>, e: &TopologyExpr, strip: bool)
    ensures
        final(out)@ == old(out)@ + expr_text_with(*e, strip),
    decreases expr_size(*e),
{
    match e {
        TopologyExpr::Anchor(a) => {
            out.push('@');
            push_decimal(out, *a);
            assert(final(out)@ =~= old(out)@ + (seq!['@'] + decimal(*a as nat)));
        },
        TopologyExpr::Cell { op, children } => {
            let name = if strip {
                strip_drive_strength(op.as_str())
            } else {
                crate::text::copy_string(op)
            };
            let name_chars = chars_of(name.as_str());
            push_chars(out, &name_chars);
            out.push('(');
            let ghost head = out@;
            let mut i: usize = 0;
            while i < children.len()
                invariant
                    0 <= i <= children@.len(),
                    out@ == head + children_text_with(children@.take(i as int), strip),
                    children_size(children@) < expr_size(*e),
                    *e == (TopologyExpr::Cell { op: *op, children: *children }),
                decreases children.len() - i,
            {
                let ghost before = out@;
                if i > 0 {
                    out.push(',');
                }
                proof {
                    lemma_child_smaller(children@, i as int);
                }
                push_expr_text(out, &children[i], strip);
                proof {
                    let t = children@.take(i + 1);
                    assert(t.drop_last() =~= children@.take(i as int));
                    assert(t.last() == children@[i as int]);
                    if i == 0 {
                        assert(children_text_with(t, strip) == expr_text_with(t[0], strip));
                        assert(children_text_with(children@.take(0), strip) =~= Seq::<char>::empty());
                        assert(out@ =~= head + children_text_with(t, strip));
                    } else {
                        assert(out@ =~= head + children_text_with(t, strip));
                    }
                }
                i = i + 1;
            }
            assert(children@.take(i as int) =~= children@);
            out.push(')');
            assert(final(out)@ =~= old(out)@ + expr_text_with(*e, strip));
        },
    }
}

/// The canonical, ordered text of an expression, pin order included.
pub fn expression_text(expression: &TopologyExpr) -> (r: String)
    ensures
        r@ == expr_text(*expression),
{
    let mut out: Vec<char> = Vec::new();
    push_expr_text(&mut out, expression, false);
    assert(out@ =~= expr_text(*expression));
    string_of(out.as_slice())
}

/// The structural hash of an expression: its text with every cell name
/// stripped of its drive strength.
pub fn expr_hash(expression: &TopologyExpr) -> (r: String)
    ensures
        r@ == expr_hash_text(*expression),
{
    let mut out: Vec<char> = Vec::new();
    push_expr_text(&mut out, expression, true);
    assert(out@ =~= expr_hash_text(*expression));
    string_of(out.as_slice())
}

/// Whether `candidate` only resizes `original`: two gates over the same
/// children whose names agree up to drive strength, or otherwise the same
/// node.
pub open spec fn is_scale_alternative(original: LangModel, candidate: LangModel) -> bool {
    match (original, candidate) {
        (LangModel::Gate(a, ac), LangModel::Gate(b, bc)) => ac == bc && stripped(a) == stripped(b),
        _ => original == candidate,
    }
}

/// Whether a rewrite alternative preserves topology and only changes drive
/// strength.
pub fn is_topology_preserving_scale_alternative(
    original: &StdCellLanguage,
    candidate: &StdCellLanguage,
) -> (r: bool)
    ensures
        r == is_scale_alternative(original@, candidate@),
{
    match (original, candidate) {
        (StdCellLanguage::Gate(a, ac), StdCellLanguage::Gate(b, bc)) => {
            if !crate::language::ids_equal(ac, bc) {
                return false;
            }
            let x = strip_drive_strength(a.as_str());
            let y = strip_drive_strength(b.as_str());
            crate::text::same_string(&x, &y)
        },
        _ => original.same_node(candidate),
    }
}

impl StructuralRealization {
    /// Whether the realization is a single cell over the anchor's own
    /// drivers, in the same pin order, whose name differs from the anchor's
    /// only in drive strength: such a choice belongs to sizing, not to
    /// structure.
    pub fn is_scale_only_alias(&self, source: &Netlist<StdCellType>) -> (r: bool)
        requires
            self.root_anchor < source.nodes@.len(),
        ensures
            r == match self.expression {
                TopologyExpr::Cell { op, children } => {
                    let fanins = fanins_of(source.edges@, self.root_anchor as int);
                    &&& children@.len() == fanins.len()
                    &&& stripped(op@) == stripped(cell_text(source.nodes@[self.root_anchor as int]@))
                    &&& forall|i: int|
                        0 <= i < fanins.len() ==> (#[trigger] children@[i] matches TopologyExpr::Anchor(a)
                            && a == fanins[i])
                },
                TopologyExpr::Anchor(_) => false,
            },
    {
        let original_children = source.inputs(self.root_anchor);
        match &self.expression {
            TopologyExpr::Cell { op, children } => {
                if children.len() != original_children.len() {
                    return false;
                }
                let node_text = source.nodes[self.root_anchor].to_string();
                let x = strip_drive_strength(op.as_str());
                let y = strip_drive_strength(node_text.as_str());
                if !crate::text::same_string(&x, &y) {
                    return false;
                }
                let mut i: usize = 0;
                while i < children.len()
                    invariant
                        0 <= i <= children@.len(),
                        children@.len() == original_children@.len(),
                        original_children@ == fanins_of(source.edges@, self.root_anchor as int),
                        self.expression == (TopologyExpr::Cell { op: *op, children: *children }),
                        stripped(op@) == stripped(cell_text(source.nodes@[self.root_anchor as int]@)),
                        forall|j: int|
                            0 <= j < i ==> (#[trigger] children@[j] matches TopologyExpr::Anchor(a)
                                && a == original_children@[j]),
                    decreases children.len() - i,
                {
                    match &children[i] {
                        TopologyExpr::Anchor(a) => {
                            if *a != original_children[i] {
                                return false;
                            }
                        },
                        TopologyExpr::Cell { .. } => {
                            return false;
                        },
                    }
                    i = i + 1;
                }
                true
            },
            TopologyExpr::Anchor(_) => false,
        }
    }
}

/// The anchors that an expression references, left to right, once per
/// reference.
pub open spec fn anchor_list(e: TopologyExpr) -> Seq<usize>
    decreases e,
{
    match e {
        TopologyExpr::Anchor(a) => seq![a],
        TopologyExpr::Cell { children, .. } => children_anchor_list(children@),
    }
}

/// The anchors that a list of expressions references, in order.
pub open spec fn children_anchor_list(cs: Seq<TopologyExpr>) -> Seq<usize>
    decreases cs,
{
    if cs.len() == 0 {
        Seq::empty()
    } else {
        children_anchor_list(cs.drop_last()) + anchor_list(cs.last())
    }
}

fn push_anchors(out: &mut Vec<usize>, e: &TopologyExpr)
    ensures
        final(out)@ == old(out)@ + anchor_list(*e),
    decreases expr_size(*e),
{
    match e {
        TopologyExpr::Anchor(a) => {
            out.push(*a);
            assert(final(out)@ =~= old(out)@ + seq![*a]);
        },
        TopologyExpr::Cell { op, children } => {
            let ghost head = out@;
            let mut i: usize = 0;
            assert(children@.take(0) =~= Seq::<TopologyExpr>::empty());
            assert(head + children_anchor_list(children@.take(0)) =~= head);
            while i < children.len()
                invariant
                    0 <= i <= children@.len(),
                    out@ == head + children_anchor_list(children@.take(i as int)),
                    children_size(children@) < expr_size(*e),
                    *e == (TopologyExpr::Cell { op: *op, children: *children }),
                decreases children.len() - i,
            {
                proof {
                    lemma_child_smaller(children@, i as int);
                }
                push_anchors(out, &children[i]);
                proof {
                    let t = children@.take(i + 1);
                    assert(t.drop_last() =~= children@.take(i as int));
                    assert(t.last() == children@[i as int]);
                    assert(out@ =~= head + children_anchor_list(t));
                }
                i = i + 1;
            }
            assert(children@.take(i as int) =~= children@);
        },
    }
}

/// The boundary anchors of an expression: every anchor it references, once,
/// in increasing order.
pub fn boundary_anchors(expression: &TopologyExpr) -> (r: Vec<usize>)
    ensures
        strictly_increasing(r@),
        r@.to_set() == anchor_list(*expression).to_set(),
{
    let mut all: Vec<usize> = Vec::new();
    push_anchors(&mut all, expression);
    assert(all@ =~= anchor_list(*expression));
    sorted_unique(all)
}

/// The number of cells of an expression.
pub open spec fn expr_gates(e: TopologyExpr) -> nat
    decreases e,
{
    match e {
        TopologyExpr::Anchor(_) => 0,
        TopologyExpr::Cell { children, .. } => 1 + children_gates(children@),
    }
}

/// The number of cells of a list of expressions.
pub open spec fn children_gates(cs: Seq<TopologyExpr>) -> nat
    decreases cs,
{
    if cs.len() == 0 {
        0
    } else {
        children_gates(cs.drop_last()) + expr_gates(cs.last())
    }
}

/// The logic depth of an expression: cells on its longest path.
pub open spec fn expr_depth(e: TopologyExpr) -> nat
    decreases e,
{
    match e {
        TopologyExpr::Anchor(_) => 0,
        TopologyExpr::Cell { children, .. } => 1 + children_depth(children@),
    }
}

/// The largest depth of a list of expressions (0 when empty).
pub open spec fn children_depth(cs: Seq<TopologyExpr>) -> nat
    decreases cs,
{
    if cs.len() == 0 {
        0
    } else {
        let d = expr_depth(cs.last());
        let rest = children_depth(cs.drop_last());
        if d > rest {
            d
        } else {
            rest
        }
    }
}

proof fn lemma_gates_depth_bounded(e: TopologyExpr)
    ensures
        expr_gates(e) <= expr_size(e),
        expr_depth(e) <= expr_size(e),
    decreases e,
{
    match e {
        TopologyExpr::Anchor(_) => {},
        TopologyExpr::Cell { children, .. } => {
            lemma_children_gates_depth_bounded(children@);
        },
    }
}

proof fn lemma_children_gates_depth_bounded(cs: Seq<TopologyExpr>)
    ensures
        children_gates(cs) <= children_size(cs),
        children_depth(cs) <= children_size(cs),
    decreases cs,
{
    if cs.len() > 0 {
        lemma_children_gates_depth_bounded(cs.drop_last());
        lemma_gates_depth_bounded(cs.last());
    }
}

/// The number of cells and the logic depth of an expression.
pub fn metrics(expression: &TopologyExpr) -> (r: (usize, usize))
    requires
        expr_size(*expression) <= usize::MAX,
    ensures
        r.0 == expr_gates(*expression),
        r.1 == expr_depth(*expression),
    decreases expr_size(*expression),
{
    match expression {
        TopologyExpr::Anchor(_) => (0, 0),
        TopologyExpr::Cell { op, children } => {
            let mut gates: usize = 1;
            let mut child_depth: usize = 0;
            let mut i: usize = 0;
            proof {
                lemma_children_gates_depth_bounded(children@);
            }
            while i < children.len()
                invariant
                    0 <= i <= children@.len(),
                    children_size(children@) < expr_size(*expression),
                    expr_size(*expression) <= usize::MAX,
                    *expression == (TopologyExpr::Cell { op: *op, children: *children }),
                    gates == 1 + children_gates(children@.take(i as int)),
                    child_depth == children_depth(children@.take(i as int)),
                    children_gates(children@) <= children_size(children@),
                decreases children.len() - i,
            {
                proof {
                    lemma_child_smaller(children@, i as int);
                    lemma_children_gates_prefix(children@, i + 1);
                }
                let (g, d) = metrics(&children[i]);
                let ghost t = children@.take(i + 1);
                assert(t.drop_last() =~= children@.take(i as int));
                assert(t.last() == children@[i as int]);
                gates = gates + g;
                if d > child_depth {
                    child_depth = d;
                }
                i = i + 1;
            }
            assert(children@.take(i as int) =~= children@);
            proof {
                lemma_gates_depth_bounded(*expression);
            }
            (gates, child_depth + 1)
        },
    }
}

proof fn lemma_children_gates_prefix(cs: Seq<TopologyExpr>, k: int)
    requires
        0 <= k <= cs.len(),
    ensures
        children_gates(cs.take(k)) <= children_gates(cs),
    decreases cs.len() - k,
{
    if k < cs.len() {
        lemma_children_gates_prefix(cs, k + 1);
        assert(cs.take(k + 1).drop_last() =~= cs.take(k));
    } else {
        assert(cs.take(k) =~= cs);
    }
}

/// The name a realization's root cell takes: the original's name when the
/// two agree up to drive strength (so a structural realization keeps the
/// incumbent's size), else its own.
pub open spec fn inherited_op(op: Seq<char>, original: Seq<char>) -> Seq<char> {
    if stripped(op) == stripped(original) {
        original
    } else {
        op
    }
}

/// `after` is `before` with its root cell renamed by `inherited_op`.
pub open spec fn is_inherited(after: TopologyExpr, before: TopologyExpr, original: Seq<char>) -> bool {
    match before {
        TopologyExpr::Anchor(_) => after == before,
        TopologyExpr::Cell { op, children } => after matches TopologyExpr::Cell { op: o, children: c }
            && c == children && o@ == inherited_op(op@, original),
    }
}

/// Gives the root cell of `expression` the original's name when the two
/// differ only in drive strength.
pub fn inherit_preserved_root_size(expression: &mut TopologyExpr, original_op: &str)
    ensures
        is_inherited(*final(expression), *old(expression), original_op@),
{
    match expression {
        TopologyExpr::Cell { op, .. } => {
            let x = strip_drive_strength(op.as_str());
            let y = strip_drive_strength(original_op);
            if crate::text::same_string(&x, &y) {
                *op = original_op.to_string();
            }
        },
        TopologyExpr::Anchor(_) => {},
    }
}

/// An expression read off the local e-graph of an anchor, with its cell
/// count, depth and the e-node it starts from.
#[derive(Debug)]
pub struct EnumeratedExpr {
    pub expression: TopologyExpr,
    pub gates: usize,
    pub depth: usize,
    pub root_enode: String,
}

/// The hash text of boundary references to `fs`, joined by `,`.
pub open spec fn anchors_hash_text(fs: Seq<usize>) -> Seq<char>
    decreases fs.len(),
{
    if fs.len() == 0 {
        Seq::empty()
    } else if fs.len() == 1 {
        seq!['@'] + decimal(fs[0] as nat)
    } else {
        anchors_hash_text(fs.drop_last()).push(',') + (seq!['@'] + decimal(fs.last() as nat))
    }
}

/// The structural hash of an anchor's current one-cell form: its cell over
/// its own drivers.
pub open spec fn current_form_hash(source: Netlist<StdCellType>, root: usize) -> Seq<char> {
    stripped(cell_text(source.nodes@[root as int]@)).push('(') + anchors_hash_text(
        fanins_of(source.edges@, root as int),
    ) + seq![')']
}

/// The positions of the enumerated expressions whose structural hash
/// differs from `current`, in order.
pub open spec fn kept_cones(es: Seq<EnumeratedExpr>, current: Seq<char>) -> Seq<int>
    decreases es.len(),
{
    if es.len() == 0 {
        Seq::empty()
    } else {
        let rest = kept_cones(es.drop_last(), current);
        if expr_hash_text(es.last().expression) != current {
            rest.push(es.len() - 1)
        } else {
            rest
        }
    }
}

/// The realization that anchor `root` gets from the enumerated expression
/// `e`: the root cell keeps the original's size when only the drive
/// differs, and the hash is rooted at the anchor.
pub open spec fn is_cone_realization(
    r: StructuralRealization,
    e: EnumeratedExpr,
    root: usize,
    root_eclass: Seq<char>,
    root_op: Seq<char>,
    provenance: Seq<Seq<char>>,
    family: RuleFamily,
) -> bool {
    &&& r.root_anchor == root
    &&& r.root_eclass@ == root_eclass
    &&& r.root_enode@ == e.root_enode@
    &&& is_inherited(r.expression, e.expression, root_op)
    &&& r.expression_text@ == expr_text(r.expression)
    &&& strictly_increasing(r.boundary_anchors@)
    &&& r.boundary_anchors@.to_set() == anchor_list(r.expression).to_set()
    &&& r.created_logical_nodes == e.gates
    &&& r.logic_depth == e.depth
    &&& r.structural_hash@ == "root="@ + decimal(root as nat) + "|"@ + expr_hash_text(e.expression)
    &&& strings_view(r.provenance@) == provenance
    &&& r.first_seen_family == family
}

proof fn lemma_inherited_hash(after: TopologyExpr, before: TopologyExpr, original: Seq<char>)
    requires
        is_inherited(after, before, original),
    ensures
        expr_hash_text(after) == expr_hash_text(before),
{
    match before {
        TopologyExpr::Anchor(_) => {},
        TopologyExpr::Cell { op, children } => {
            assert(stripped(inherited_op(op@, original)) == stripped(op@));
        },
    }
}

proof fn lemma_anchor_children_text(cs: Seq<TopologyExpr>, fs: Seq<usize>)
    requires
        cs.len() == fs.len(),
        forall|i: int| 0 <= i < cs.len() ==> cs[i] == TopologyExpr::Anchor(#[trigger] fs[i]),
    ensures
        children_text_with(cs, true) == anchors_hash_text(fs),
    decreases cs.len(),
{
    if cs.len() > 1 {
        assert forall|i: int| 0 <= i < cs.len() - 1 implies cs.drop_last()[i] == TopologyExpr::Anchor(
            #[trigger] fs.drop_last()[i],
        ) by {
            assert(cs[i] == TopologyExpr::Anchor(fs[i]));
        }
        lemma_anchor_children_text(cs.drop_last(), fs.drop_last());
        assert(cs.last() == TopologyExpr::Anchor(fs.last()));
        assert(expr_text_with(cs.last(), true) == seq!['@'] + decimal(fs.last() as nat));
        assert(children_text_with(cs, true) == children_text_with(cs.drop_last(), true).push(',')
            + expr_text_with(cs.last(), true));
    } else if cs.len() == 1 {
        assert(cs[0] == TopologyExpr::Anchor(fs[0]));
        assert(expr_text_with(cs[0], true) == seq!['@'] + decimal(fs[0] as nat));
    } else {
        assert(children_text_with(cs, true) == Seq::<char>::empty());
    }
}

/// The structural realizations of one anchor from the expressions that its
/// local e-graph yields: each keeps the anchor's size where it only
/// redrives the same cell, and those equal to the anchor's current form
/// are dropped.
pub fn realizations_from_cone(
    source: &Netlist<StdCellType>,
    root_anchor: usize,
    root_eclass: &String,
    expressions: Vec<EnumeratedExpr>,
    provenance: &Vec<String>,
    first_seen_family: RuleFamily,
) -> (r: Vec<StructuralRealization>)
    requires
        root_anchor < source.nodes@.len(),
    ensures
        r@.len() == kept_cones(expressions@, current_form_hash(*source, root_anchor)).len(),
        forall|k: int|
            0 <= k < r@.len() ==> is_cone_realization(
                #[trigger] r@[k],
                expressions@[kept_cones(expressions@, current_form_hash(*source, root_anchor))[k]],
                root_anchor,
                root_eclass@,
                cell_text(source.nodes@[root_anchor as int]@),
                strings_view(provenance@),
                first_seen_family,
            ),
{
    let root_op = source.nodes[root_anchor].to_string();
    let fanins = source.inputs(root_anchor);
    let mut kids: Vec<TopologyExpr> = Vec::new();
    let mut j: usize = 0;
    while j < fanins.len()
        invariant
            0 <= j <= fanins@.len(),
            kids@.len() == j,
            forall|t: int| 0 <= t < j ==> kids@[t] == TopologyExpr::Anchor(#[trigger] fanins@[t]),
        decreases fanins.len() - j,
    {
        kids.push(TopologyExpr::Anchor(fanins[j]));
        j = j + 1;
    }
    proof {
        lemma_anchor_children_text(kids@, fanins@);
    }
    let current = TopologyExpr::Cell { op: crate::text::copy_string(&root_op), children: kids };
    let current_hash = expr_hash(&current);
    let ghost cur = current_form_hash(*source, root_anchor);
    assert(current_hash@ == cur);
    let n = expressions.len();
    let ghost es = expressions@;
    let mut rest = expressions;
    let mut out: Vec<StructuralRealization> = Vec::new();
    let mut i: usize = 0;
    while rest.len() > 0
        invariant
            i + rest@.len() == es.len(),
            es.len() == n,
            root_anchor < source.nodes@.len(),
            rest@ == es.skip(i as int),
            current_hash@ == cur,
            root_op@ == cell_text(source.nodes@[root_anchor as int]@),
            out@.len() == kept_cones(es.take(i as int), cur).len(),
            forall|k: int|
                0 <= k < out@.len() ==> is_cone_realization(
                    #[trigger] out@[k],
                    es[kept_cones(es.take(i as int), cur)[k]],
                    root_anchor,
                    root_eclass@,
                    root_op@,
                    strings_view(provenance@),
                    first_seen_family,
                ),
            forall|k: int|
                0 <= k < kept_cones(es.take(i as int), cur).len() ==> 0 <= #[trigger] kept_cones(
                    es.take(i as int),
                    cur,
                )[k] < i,
        decreases rest.len(),
    {
        let item = rest.remove(0);
        assert(item == es[i as int]);
        let ghost t = es.take(i + 1);
        assert(t.drop_last() =~= es.take(i as int));
        assert(t.last() == es[i as int]);
        let ghost before_expr = item.expression;
        let EnumeratedExpr { expression, gates, depth, root_enode } = item;
        let mut expression = expression;
        inherit_preserved_root_size(&mut expression, root_op.as_str());
        let hash = expr_hash(&expression);
        proof {
            lemma_inherited_hash(expression, before_expr, root_op@);
        }
        if !crate::text::same_string(&hash, &current_hash) {
            let boundary = boundary_anchors(&expression);
            let text = expression_text(&expression);
            let mut key: Vec<char> = Vec::new();
            push_str(&mut key, "root=");
            push_decimal(&mut key, root_anchor);
            push_str(&mut key, "|");
            let hash_chars = chars_of(hash.as_str());
            push_chars(&mut key, &hash_chars);
            assert(key@ =~= "root="@ + decimal(root_anchor as nat) + "|"@ + expr_hash_text(before_expr));
            let realization = StructuralRealization {
                root_anchor,
                root_eclass: crate::text::copy_string(root_eclass),
                root_enode,
                expression,
                expression_text: text,
                boundary_anchors: boundary,
                created_logical_nodes: gates,
                logic_depth: depth,
                structural_hash: string_of(key.as_slice()),
                provenance: copy_strings(provenance),
                first_seen_family,
            };
            let ghost before = out@;
            out.push(realization);
            assert(kept_cones(t, cur) == kept_cones(es.take(i as int), cur).push(i as int));
            assert forall|k: int| 0 <= k < out@.len() implies is_cone_realization(
                #[trigger] out@[k],
                es[kept_cones(t, cur)[k]],
                root_anchor,
                root_eclass@,
                root_op@,
                strings_view(provenance@),
                first_seen_family,
            ) by {
                if k < before.len() {
                    assert(out@[k] == before[k]);
                }
            }
        } else {
            assert(kept_cones(t, cur) == kept_cones(es.take(i as int), cur));
        }
        i = i + 1;
        assert(rest@ =~= es.skip(i as int));
    }
    assert(es.take(i as int) =~= es);
    out
}

/// The order of realizations by root anchor, then structural hash.
pub open spec fn key_less(a: StructuralRealization, b: StructuralRealization) -> bool {
    a.root_anchor < b.root_anchor || (a.root_anchor == b.root_anchor && chars_le(
        a.structural_hash@,
        b.structural_hash@,
    ) && a.structural_hash@ != b.structural_hash@)
}

/// Strictly increasing by root anchor, then structural hash.
pub open spec fn sorted_by_key(s: Seq<StructuralRealization>) -> bool {
    forall|i: int, j: int| 0 <= i < j < s.len() ==> key_less(#[trigger] s[i], #[trigger] s[j])
}

/// No two realizations share a structural hash.
pub open spec fn distinct_hashes(s: Seq<StructuralRealization>) -> bool {
    forall|i: int, j: int|
        0 <= i < j < s.len() ==> (#[trigger] s[i]).structural_hash@ != (#[trigger] s[j]).structural_hash@
}

/// The first position of a realization with hash `h` (-1 when none).
pub open spec fn first_with_hash(raw: Seq<StructuralRealization>, h: Seq<char>) -> int
    decreases raw.len(),
{
    if raw.len() == 0 {
        -1
    } else {
        let f = first_with_hash(raw.drop_last(), h);
        if f >= 0 {
            f
        } else if raw.last().structural_hash@ == h {
            raw.len() - 1
        } else {
            -1
        }
    }
}

/// `acc` extended by each of `items` that it does not hold yet, in order.
pub open spec fn merge_into(acc: Seq<Seq<char>>, items: Seq<Seq<char>>) -> Seq<Seq<char>>
    decreases items.len(),
{
    if items.len() == 0 {
        acc
    } else {
        let a = merge_into(acc, items.drop_last());
        if a.contains(items.last()) {
            a
        } else {
            a.push(items.last())
        }
    }
}

/// The provenance of the merged realization with hash `h`: that of its
/// first occurrence, extended by the new entries of each later one.
pub open spec fn merged_provenance(raw: Seq<StructuralRealization>, h: Seq<char>) -> Seq<Seq<char>>
    decreases raw.len(),
{
    if raw.len() == 0 {
        Seq::empty()
    } else {
        let prev = merged_provenance(raw.drop_last(), h);
        if raw.last().structural_hash@ != h {
            prev
        } else if first_with_hash(raw.drop_last(), h) < 0 {
            strings_view(raw.last().provenance@)
        } else {
            merge_into(prev, strings_view(raw.last().provenance@))
        }
    }
}

/// `u` is the merged realization of its hash: the first occurrence with
/// the merged provenance.
pub open spec fn is_dedup_entry(u: StructuralRealization, raw: Seq<StructuralRealization>) -> bool {
    let f = first_with_hash(raw, u.structural_hash@);
    &&& 0 <= f < raw.len()
    &&& u == (StructuralRealization { provenance: u.provenance, ..raw[f] })
    &&& strings_view(u.provenance@) == merged_provenance(raw, u.structural_hash@)
}

proof fn lemma_first_with_hash(raw: Seq<StructuralRealization>, h: Seq<char>)
    ensures
        first_with_hash(raw, h) < raw.len(),
        first_with_hash(raw, h) >= 0 ==> raw[first_with_hash(raw, h)].structural_hash@ == h,
        first_with_hash(raw, h) < 0 ==> forall|g: int|
            0 <= g < raw.len() ==> (#[trigger] raw[g]).structural_hash@ != h,
        first_with_hash(raw, h) >= -1,
    decreases raw.len(),
{
    if raw.len() > 0 {
        lemma_first_with_hash(raw.drop_last(), h);
        if first_with_hash(raw, h) < 0 {
            assert forall|g: int| 0 <= g < raw.len() implies (#[trigger] raw[g]).structural_hash@ != h by {
                if g < raw.len() - 1 {
                    assert(raw[g] == raw.drop_last()[g]);
                }
            }
        }
    }
}

proof fn lemma_key_less_trans(a: StructuralRealization, b: StructuralRealization, c: StructuralRealization)
    requires
        key_less(a, b),
        key_less(b, c),
    ensures
        key_less(a, c),
{
    if a.root_anchor == b.root_anchor && b.root_anchor == c.root_anchor {
        lemma_chars_le_trans(a.structural_hash@, b.structural_hash@, c.structural_hash@);
        if a.structural_hash@ == c.structural_hash@ {
            lemma_chars_le_antisym(a.structural_hash@, b.structural_hash@);
        }
    }
}

proof fn lemma_key_total(a: StructuralRealization, b: StructuralRealization)
    requires
        a.structural_hash@ != b.structural_hash@,
    ensures
        key_less(a, b) || key_less(b, a),
{
    lemma_chars_le_total(a.structural_hash@, b.structural_hash@);
}

fn key_less_exec(a: &StructuralRealization, b: &StructuralRealization) -> (r: bool)
    ensures
        r == key_less(*a, *b),
{
    if a.root_anchor != b.root_anchor {
        return a.root_anchor < b.root_anchor;
    }
    let x = chars_of(a.structural_hash.as_str());
    let y = chars_of(b.structural_hash.as_str());
    chars_less_eq(x.as_slice(), y.as_slice()) && !crate::text::same_string(
        &a.structural_hash,
        &b.structural_hash,
    )
}

/// Appends to `acc` each of `items` that it does not hold yet.
fn merge_strings(acc: &mut Vec<String>, items: &Vec<String>)
    ensures
        strings_view(final(acc)@) == merge_into(strings_view(old(acc)@), strings_view(items@)),
{
    let ghost start = strings_view(acc@);
    let mut i: usize = 0;
    while i < items.len()
        invariant
            0 <= i <= items@.len(),
            start == strings_view(old(acc)@),
            strings_view(acc@) == merge_into(start, strings_view(items@).take(i as int)),
        decreases items.len() - i,
    {
        let ghost iv = strings_view(items@);
        assert(iv.take(i + 1).drop_last() =~= iv.take(i as int));
        assert(iv.take(i + 1).last() == items@[i as int]@);
        assert(acc.deep_view() =~= strings_view(acc@));
        if !contains_string(acc.as_slice(), &items[i]) {
            let ghost before = strings_view(acc@);
            acc.push(crate::text::copy_string(&items[i]));
            assert(strings_view(acc@) =~= before.push(items@[i as int]@));
        }
        i = i + 1;
    }
    assert(strings_view(items@).take(i as int) =~= strings_view(items@));
}

/// What holds of the merged list after a prefix `p` of the realizations.
pub open spec fn dedup_state(out: Seq<StructuralRealization>, p: Seq<StructuralRealization>) -> bool {
    &&& sorted_by_key(out)
    &&& distinct_hashes(out)
    &&& forall|k: int| 0 <= k < out.len() ==> is_dedup_entry(#[trigger] out[k], p)
    &&& forall|f: int|
        0 <= f < p.len() ==> exists|k: int|
            0 <= k < out.len() && (#[trigger] out[k]).structural_hash@ == (
            #[trigger] p[f]).structural_hash@
}

/// Merges the provenance of `x` into entry `k`, which has its hash.
fn merge_at(
    out: &mut Vec<StructuralRealization>,
    k: usize,
    x: StructuralRealization,
    Ghost(p): Ghost<Seq<StructuralRealization>>,
)
    requires
        dedup_state(old(out)@, p),
        k < old(out)@.len(),
        old(out)@[k as int].structural_hash@ == x.structural_hash@,
    ensures
        dedup_state(final(out)@, p.push(x)),
        final(out)@.len() == old(out)@.len(),
{
    let ghost h = x.structural_hash@;
    let ghost p2 = p.push(x);
    assert(p2.drop_last() =~= p);
    let ghost old_out = out@;
    let mut item = out.remove(k);
    assert(item == old_out[k as int]);
    assert(is_dedup_entry(item, p));
    proof {
        lemma_first_with_hash(p, h);
    }
    merge_strings(&mut item.provenance, &x.provenance);
    out.insert(k, item);
    assert forall|j: int| 0 <= j < out@.len() implies is_dedup_entry(#[trigger] out@[j], p2) by {
        let g = out@[j].structural_hash@;
        assert(is_dedup_entry(old_out[j], p));
        lemma_first_with_hash(p, g);
        if j == k {
            assert(first_with_hash(p2, h) == first_with_hash(p, h));
        } else {
            assert(old_out[j].structural_hash@ != old_out[k as int].structural_hash@);
            assert(out@[j] == old_out[j]);
        }
    }
    assert forall|a: int, b: int| 0 <= a < b < out@.len() implies key_less(
        #[trigger] out@[a],
        #[trigger] out@[b],
    ) by {
        assert(key_less(old_out[a], old_out[b]));
    }
    assert forall|a: int, b: int| 0 <= a < b < out@.len() implies (
    #[trigger] out@[a]).structural_hash@ != (#[trigger] out@[b]).structural_hash@ by {
        assert(old_out[a].structural_hash@ != old_out[b].structural_hash@);
    }
    assert forall|f: int| 0 <= f < p2.len() implies exists|q: int|
        0 <= q < out@.len() && (#[trigger] out@[q]).structural_hash@ == (
        #[trigger] p2[f]).structural_hash@ by {
        if f < p.len() {
            assert(p2[f] == p[f]);
            let q = choose|q: int|
                0 <= q < old_out.len() && (#[trigger] old_out[q]).structural_hash@ == (
                #[trigger] p[f]).structural_hash@;
            assert(out@[q].structural_hash@ == old_out[q].structural_hash@);
        } else {
            assert(out@[k as int].structural_hash@ == h);
        }
    }
}

/// Inserts `x`, whose hash is new, at its place in key order.
fn insert_new(
    out: &mut Vec<StructuralRealization>,
    x: StructuralRealization,
    Ghost(p): Ghost<Seq<StructuralRealization>>,
)
    requires
        dedup_state(old(out)@, p),
        forall|j: int| 0 <= j < old(out)@.len() ==> (#[trigger] old(out)@[j]).structural_hash@ != x.structural_hash@,
    ensures
        dedup_state(final(out)@, p.push(x)),
        final(out)@.len() == old(out)@.len() + 1,
{
    let ghost h = x.structural_hash@;
    let ghost p2 = p.push(x);
    assert(p2.drop_last() =~= p);
    let ghost old_out = out@;
    proof {
        lemma_first_with_hash(p, h);
    }
    assert(first_with_hash(p, h) < 0) by {
        if first_with_hash(p, h) >= 0 {
            let f = first_with_hash(p, h);
            let q = choose|q: int|
                0 <= q < old_out.len() && (#[trigger] old_out[q]).structural_hash@ == (
                #[trigger] p[f]).structural_hash@;
            assert(old_out[q].structural_hash@ == h);
        }
    }
    let mut pos: usize = 0;
    while pos < out.len() && key_less_exec(&out[pos], &x)
        invariant
            0 <= pos <= out@.len(),
            out@ == old_out,
            forall|j: int| 0 <= j < pos ==> key_less(#[trigger] out@[j], x),
        decreases out.len() - pos,
    {
        pos = pos + 1;
    }
    proof {
        if pos < out@.len() {
            lemma_key_total(out@[pos as int], x);
        }
    }
    out.insert(pos, x);
    assert forall|a: int, b: int| 0 <= a < b < out@.len() implies key_less(
        #[trigger] out@[a],
        #[trigger] out@[b],
    ) by {
        if b < pos {
            assert(key_less(old_out[a], old_out[b]));
        } else if b == pos {
            assert(out@[a] == old_out[a]);
        } else if a < pos {
            assert(out@[b] == old_out[b - 1]);
            assert(key_less(old_out[a], x));
            if b - 1 > pos {
                assert(key_less(old_out[pos as int], old_out[b - 1]));
                lemma_key_less_trans(x, old_out[pos as int], old_out[b - 1]);
            }
            lemma_key_less_trans(old_out[a], x, old_out[b - 1]);
        } else if a == pos {
            assert(out@[b] == old_out[b - 1]);
            if b - 1 > pos {
                assert(key_less(old_out[pos as int], old_out[b - 1]));
                lemma_key_less_trans(x, old_out[pos as int], old_out[b - 1]);
            }
        } else {
            assert(key_less(old_out[a - 1], old_out[b - 1]));
        }
    }
    assert forall|a: int, b: int| 0 <= a < b < out@.len() implies (
    #[trigger] out@[a]).structural_hash@ != (#[trigger] out@[b]).structural_hash@ by {
        if a != pos && b != pos {
            let a0 = if a < pos {
                a
            } else {
                a - 1
            };
            let b0 = if b < pos {
                b
            } else {
                b - 1
            };
            assert(out@[a] == old_out[a0]);
            assert(out@[b] == old_out[b0]);
            assert(old_out[a0].structural_hash@ != old_out[b0].structural_hash@);
        } else if a == pos {
            assert(out@[b] == old_out[b - 1]);
        } else {
            assert(out@[a] == old_out[a]);
        }
    }
    assert forall|j: int| 0 <= j < out@.len() implies is_dedup_entry(#[trigger] out@[j], p2) by {
        if j == pos {
            assert(first_with_hash(p2, h) == p.len());
            assert(merged_provenance(p2, h) == strings_view(x.provenance@));
        } else {
            let j0 = if j < pos {
                j
            } else {
                j - 1
            };
            assert(out@[j] == old_out[j0]);
            assert(is_dedup_entry(old_out[j0], p));
            lemma_first_with_hash(p, old_out[j0].structural_hash@);
        }
    }
    assert forall|f: int| 0 <= f < p2.len() implies exists|q: int|
        0 <= q < out@.len() && (#[trigger] out@[q]).structural_hash@ == (
        #[trigger] p2[f]).structural_hash@ by {
        if f < p.len() {
            assert(p2[f] == p[f]);
            let q = choose|q: int|
                0 <= q < old_out.len() && (#[trigger] old_out[q]).structural_hash@ == (
                #[trigger] p[f]).structural_hash@;
            if q < pos {
                assert(out@[q] == old_out[q]);
            } else {
                assert(out@[q + 1] == old_out[q]);
            }
        } else {
            assert(out@[pos as int].structural_hash@ == h);
        }
    }
}

/// The anchors among the first `k` nodes that are neither leaves nor roots,
/// in increasing order.
pub open spec fn inner_anchors(k: nat, leaves: Seq<usize>, roots: Seq<usize>) -> Seq<usize>
    decreases k,
{
    if k == 0 {
        Seq::empty()
    } else {
        let rest = inner_anchors((k - 1) as nat, leaves, roots);
        if !leaves.contains((k - 1) as usize) && !roots.contains((k - 1) as usize) {
            rest.push((k - 1) as usize)
        } else {
            rest
        }
    }
}

/// The anchors whose cones are enumerated: every node that is neither a
/// primary input (leaf) nor a primary output (root), in index order.
pub fn realization_roots(source: &Netlist<StdCellType>) -> (r: Vec<usize>)
    ensures
        r@ == inner_anchors(source.nodes@.len(), source.leaves@, source.roots@),
{
    let mut r: Vec<usize> = Vec::new();
    let mut k: usize = 0;
    while k < source.nodes.len()
        invariant
            0 <= k <= source.nodes@.len(),
            r@ == inner_anchors(k as nat, source.leaves@, source.roots@),
        decreases source.nodes.len() - k,
    {
        if !contains_index(&source.leaves, k) && !contains_index(&source.roots, k) {
            r.push(k);
        }
        k = k + 1;
    }
    r
}

/// Merges realizations that share a structural hash (the first occurrence
/// stays, with the provenance of the later ones added) and orders the rest
/// by root anchor and hash; the counters record how many were merged.
pub fn dedup_realizations(raw: Vec<StructuralRealization>, stats: DedupStats) -> (r: (
    Vec<StructuralRealization>,
    DedupStats,
))
    ensures
        sorted_by_key(r.0@),
        distinct_hashes(r.0@),
        forall|k: int| 0 <= k < r.0@.len() ==> is_dedup_entry(#[trigger] r.0@[k], raw@),
        forall|f: int|
            0 <= f < raw@.len() ==> exists|k: int|
                0 <= k < r.0@.len() && (#[trigger] r.0@[k]).structural_hash@ == (
                #[trigger] raw@[f]).structural_hash@,
        r.1 == (DedupStats {
            raw_realizations: raw@.len() as usize,
            unique_realizations: r.0@.len() as usize,
            duplicate_realizations: (raw@.len() - r.0@.len()) as usize,
            ..stats
        }),
{
    let n = raw.len();
    let ghost es = raw@;
    let mut rest = raw;
    let mut out: Vec<StructuralRealization> = Vec::new();
    let mut i: usize = 0;
    assert(es.take(0) =~= Seq::<StructuralRealization>::empty());
    while rest.len() > 0
        invariant
            i + rest@.len() == es.len(),
            es.len() == n,
            rest@ == es.skip(i as int),
            out@.len() <= i,
            dedup_state(out@, es.take(i as int)),
        decreases rest.len(),
    {
        let x = rest.remove(0);
        assert(x == es[i as int]);
        assert(es.take(i as int).push(x) =~= es.take(i + 1));
        let mut k: usize = 0;
        while k < out.len() && !crate::text::same_string(&out[k].structural_hash, &x.structural_hash)
            invariant
                0 <= k <= out@.len(),
                forall|j: int| 0 <= j < k ==> (#[trigger] out@[j]).structural_hash@ != x.structural_hash@,
            decreases out.len() - k,
        {
            k = k + 1;
        }
        if k < out.len() {
            merge_at(&mut out, k, x, Ghost(es.take(i as int)));
        } else {
            insert_new(&mut out, x, Ghost(es.take(i as int)));
        }
        i = i + 1;
        assert(rest@ =~= es.skip(i as int));
    }
    assert(es.take(i as int) =~= es);
    let unique = out.len();
    let result_stats = DedupStats {
        raw_realizations: n,
        unique_realizations: unique,
        duplicate_realizations: n - unique,
        ..stats
    };
    (out, result_stats)
}

} // verus!
