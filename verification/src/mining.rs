//! Frequent-pattern mining over a standard-cell e-graph: small cell cones
//! rooted at e-graph nodes, counted by the number of nodes that root them,
//! and ranked.
use vstd::prelude::*;

use crate::language::{cell_text, CellModel, StdCellType};
use crate::netlist::{fanins_of, Netlist};
use crate::paths::join_path;
use crate::text::{
    chars_le, chars_less_eq, copy_string, decimal, lemma_chars_le_antisym, lemma_chars_le_total,
    lemma_chars_le_trans, push_decimal, push_str, same_string, string_of,
};

verus! {

/// A cell cone: a gate over sub-cones, or an input of the cone.
#[derive(Debug, PartialEq, Eq)]
pub enum PatternExpr {
    Input,
    Gate { op: String, children: Vec<PatternExpr> },
}

/// The size measure of a pattern; a gate is larger than its children.
pub open spec fn pattern_size(p: PatternExpr) -> nat
    decreases p,
{
    match p {
        PatternExpr::Input => 1,
        PatternExpr::Gate { children, .. } => 1 + patterns_size(children@),
    }
}

pub open spec fn patterns_size(cs: Seq<PatternExpr>) -> nat
    decreases cs,
{
    if cs.len() == 0 {
        0
    } else {
        patterns_size(cs.drop_last()) + pattern_size(cs.last())
    }
}

/// The number of gates of a pattern.
pub open spec fn pattern_gates(p: PatternExpr) -> nat
    decreases p,
{
    match p {
        PatternExpr::Input => 0,
        PatternExpr::Gate { children, .. } => 1 + patterns_gates(children@),
    }
}

/// The number of gates of a list of patterns.
pub open spec fn patterns_gates(cs: Seq<PatternExpr>) -> nat
    decreases cs,
{
    if cs.len() == 0 {
        0
    } else {
        patterns_gates(cs.drop_last()) + pattern_gates(cs.last())
    }
}

/// The signature of a pattern: `IN` for an input, the operation alone for
/// a gate without children, and `op(child,...)` otherwise.
pub open spec fn pattern_signature(p: PatternExpr) -> Seq<char>
    decreases p,
{
    match p {
        PatternExpr::Input => seq!['I', 'N'],
        PatternExpr::Gate { op, children } => if children@.len() == 0 {
            op@
        } else {
            op@.push('(') + patterns_signature(children@) + seq![')']
        },
    }
}

/// The signatures of a list of patterns, joined by `,`.
pub open spec fn patterns_signature(cs: Seq<PatternExpr>) -> Seq<char>
    decreases cs,
{
    if cs.len() == 0 {
        Seq::empty()
    } else if cs.len() == 1 {
        pattern_signature(cs[0])
    } else {
        patterns_signature(cs.drop_last()).push(',') + pattern_signature(cs.last())
    }
}

/// The operation at the root of a pattern, `input` for an input.
pub open spec fn pattern_root(p: PatternExpr) -> Seq<char> {
    match p {
        PatternExpr::Input => "input"@,
        PatternExpr::Gate { op, .. } => op@,
    }
}

pub proof fn lemma_child_measures(cs: Seq<PatternExpr>, i: int)
    requires
        0 <= i < cs.len(),
    ensures
        pattern_size(cs[i]) <= patterns_size(cs),
        pattern_gates(cs[i]) <= patterns_gates(cs),
    decreases cs.len(),
{
    if i < cs.len() - 1 {
        lemma_child_measures(cs.drop_last(), i);
        assert(cs.drop_last()[i] == cs[i]);
    }
}

proof fn lemma_gates_prefix(cs: Seq<PatternExpr>, k: int)
    requires
        0 <= k <= cs.len(),
    ensures
        patterns_gates(cs.take(k)) <= patterns_gates(cs),
    decreases cs.len() - k,
{
    if k < cs.len() {
        lemma_gates_prefix(cs, k + 1);
        assert(cs.take(k + 1).drop_last() =~= cs.take(k));
    } else {
        assert(cs.take(k) =~= cs);
    }
}

/// The value of a pattern: an input, or an operation over child values.
pub enum PModel {
    Input,
    Gate(Seq<char>, Seq<PModel>),
}

pub open spec fn pmodel(p: PatternExpr) -> PModel
    decreases p,
{
    match p {
        PatternExpr::Input => PModel::Input,
        PatternExpr::Gate { op, children } => PModel::Gate(op@, pmodels(children@)),
    }
}

pub open spec fn pmodels(cs: Seq<PatternExpr>) -> Seq<PModel>
    decreases cs,
{
    if cs.len() == 0 {
        Seq::empty()
    } else {
        pmodels(cs.drop_last()).push(pmodel(cs.last()))
    }
}

/// The values of a list of patterns.
pub open spec fn pms(v: Seq<PatternExpr>) -> Seq<PModel> {
    v.map_values(|p: PatternExpr| pmodel(p))
}

/// The number of gates of a pattern value.
pub open spec fn mgates(m: PModel) -> nat
    decreases m,
{
    match m {
        PModel::Input => 0,
        PModel::Gate(_, cs) => 1 + mgates_seq(cs),
    }
}

pub open spec fn mgates_seq(cs: Seq<PModel>) -> nat
    decreases cs,
{
    if cs.len() == 0 {
        0
    } else {
        mgates_seq(cs.drop_last()) + mgates(cs.last())
    }
}

/// The signature of a pattern value (see `pattern_signature`).
pub open spec fn msig(m: PModel) -> Seq<char>
    decreases m,
{
    match m {
        PModel::Input => seq!['I', 'N'],
        PModel::Gate(op, cs) => if cs.len() == 0 {
            op
        } else {
            op.push('(') + msigs(cs) + seq![')']
        },
    }
}

pub open spec fn msigs(cs: Seq<PModel>) -> Seq<char>
    decreases cs,
{
    if cs.len() == 0 {
        Seq::empty()
    } else if cs.len() == 1 {
        msig(cs[0])
    } else {
        msigs(cs.drop_last()).push(',') + msig(cs.last())
    }
}

pub proof fn lemma_model_measures(p: PatternExpr)
    ensures
        pattern_gates(p) == mgates(pmodel(p)),
        pattern_signature(p) == msig(pmodel(p)),
    decreases p,
{
    match p {
        PatternExpr::Input => {},
        PatternExpr::Gate { op, children } => {
            lemma_models_measures(children@);
        },
    }
}

pub proof fn lemma_models_measures(cs: Seq<PatternExpr>)
    ensures
        pmodels(cs).len() == cs.len(),
        patterns_gates(cs) == mgates_seq(pmodels(cs)),
        patterns_signature(cs) == msigs(pmodels(cs)),
    decreases cs,
{
    if cs.len() > 0 {
        lemma_models_measures(cs.drop_last());
        lemma_model_measures(cs.last());
        assert(pmodels(cs).drop_last() =~= pmodels(cs.drop_last()));
        if cs.len() == 1 {
            assert(pmodels(cs)[0] == pmodel(cs[0]));
        }
    }
}

pub proof fn lemma_pms_pmodels(cs: Seq<PatternExpr>)
    ensures
        pms(cs) == pmodels(cs),
    decreases cs.len(),
{
    if cs.len() > 0 {
        lemma_pms_pmodels(cs.drop_last());
        assert(pms(cs) =~= pms(cs.drop_last()).push(pmodel(cs.last())));
    } else {
        assert(pms(cs) =~= Seq::<PModel>::empty());
    }
}

impl PatternExpr {
    /// The number of gates.
    pub fn gate_count(&self) -> (r: usize)
        requires
            pattern_gates(*self) <= usize::MAX,
        ensures
            r == pattern_gates(*self),
        decreases pattern_size(*self),
    {
        match self {
            PatternExpr::Input => 0,
            PatternExpr::Gate { children, .. } => {
                let mut total: usize = 0;
                let mut i: usize = 0;
                while i < children.len()
                    invariant
                        0 <= i <= children@.len(),
                        total == patterns_gates(children@.take(i as int)),
                        1 + patterns_gates(children@) <= usize::MAX,
                        patterns_size(children@) < pattern_size(*self),
                    decreases children.len() - i,
                {
                    proof {
                        lemma_child_measures(children@, i as int);
                        lemma_gates_prefix(children@, i + 1);
                        assert(children@.take(i + 1).drop_last() =~= children@.take(i as int));
                    }
                    total = total + children[i].gate_count();
                    i = i + 1;
                }
                assert(children@.take(i as int) =~= children@);
                1 + total
            },
        }
    }

    /// The signature (see `pattern_signature`).
    pub fn signature(&self) -> (r: String)
        ensures
            r@ == pattern_signature(*self),
    {
        let mut out: Vec<char> = Vec::new();
        push_signature(&mut out, self);
        assert(out@ =~= pattern_signature(*self));
        string_of(out.as_slice())
    }

    /// A copy with the same operations, shape, gates and signature.
    pub fn duplicate(&self) -> (r: PatternExpr)
        ensures
            pattern_gates(r) == pattern_gates(*self),
            pattern_signature(r) == pattern_signature(*self),
            pattern_root(r) == pattern_root(*self),
            pmodel(r) == pmodel(*self),
        decreases pattern_size(*self),
    {
        match self {
            PatternExpr::Input => PatternExpr::Input,
            PatternExpr::Gate { op, children } => {
                let mut out: Vec<PatternExpr> = Vec::new();
                let mut i: usize = 0;
                while i < children.len()
                    invariant
                        0 <= i <= children@.len(),
                        out@.len() == i,
                        patterns_size(children@) < pattern_size(*self),
                        patterns_gates(out@) == patterns_gates(children@.take(i as int)),
                        patterns_signature(out@) == patterns_signature(children@.take(i as int)),
                        pmodels(out@) == pmodels(children@.take(i as int)),
                    decreases children.len() - i,
                {
                    proof {
                        lemma_child_measures(children@, i as int);
                    }
                    let c = children[i].duplicate();
                    let ghost before = out@;
                    out.push(c);
                    proof {
                        assert(out@.drop_last() =~= before);
                        let t = children@.take(i + 1);
                        assert(t.drop_last() =~= children@.take(i as int));
                        if i == 0 {
                            assert(out@.len() == 1);
                        }
                    }
                    i = i + 1;
                }
                assert(children@.take(i as int) =~= children@);
                PatternExpr::Gate { op: copy_string(op), children: out }
            },
        }
    }
}

fn push_signature(out: &mut Vec<char>, p: &PatternExpr)
    ensures
        final(out)@ == old(out)@ + pattern_signature(*p),
    decreases pattern_size(*p),
{
    match p {
        PatternExpr::Input => {
            out.push('I');
            out.push('N');
            assert(final(out)@ =~= old(out)@ + seq!['I', 'N']);
        },
        PatternExpr::Gate { op, children } => {
            push_str(out, op.as_str());
            if children.len() == 0 {
                return ;
            }
            out.push('(');
            let ghost head = out@;
            let mut i: usize = 0;
            while i < children.len()
                invariant
                    0 <= i <= children@.len(),
                    out@ == head + patterns_signature(children@.take(i as int)),
                    patterns_size(children@) < pattern_size(*p),
                decreases children.len() - i,
            {
                if i > 0 {
                    out.push(',');
                }
                proof {
                    lemma_child_measures(children@, i as int);
                }
                push_signature(out, &children[i]);
                proof {
                    let t = children@.take(i + 1);
                    assert(t.drop_last() =~= children@.take(i as int));
                    assert(t.last() == children@[i as int]);
                    if i == 0 {
                        assert(patterns_signature(children@.take(0)) =~= Seq::<char>::empty());
                    }
                    assert(out@ =~= head + patterns_signature(t));
                }
                i = i + 1;
            }
            assert(children@.take(i as int) =~= children@);
            out.push(')');
            assert(final(out)@ =~= old(out)@ + pattern_signature(*p));
        },
    }
}

/// The mining parameters.
#[derive(Debug, Clone)]
pub struct MiningConfig {
    pub min_support: usize,
    pub max_pattern_size: usize,
    pub top_k: usize,
}

impl Default for MiningConfig {
    /// Support at least 2, at most 3 gates, the 10 best patterns.
    fn default() -> (r: Self)
        ensures
            r.min_support == 2,
            r.max_pattern_size == 3,
            r.top_k == 10,
    {
        MiningConfig { min_support: 2, max_pattern_size: 3, top_k: 10 }
    }
}

/// An exported pattern.
#[derive(Debug)]
pub struct MinedPattern {
    pub rank: usize,
    pub support: usize,
    pub gate_count: usize,
    pub root_op: String,
    pub signature: String,
    pub expr: PatternExpr,
    pub verilog_path: String,
}

/// What a mining run exported.
#[derive(Debug)]
pub struct MiningSummary {
    pub min_support: usize,
    pub max_pattern_size: usize,
    pub top_k: usize,
    pub egraph_nodes: usize,
    pub egraph_classes: usize,
    pub exported_patterns: Vec<MinedPattern>,
}

/// The direction of a library cell's pin.
#[derive(Clone, Copy, Debug, PartialEq, Eq, Structural)]
pub enum PinDirection {
    I,
    O,
    Other,
}

/// A cell library: every cell with its pins, in library order.
#[derive(Debug)]
pub struct CellLibrary {
    pub cells: Vec<(String, Vec<(String, PinDirection)>)>,
}

/// The number of output pins.
pub open spec fn output_count(pins: Seq<(String, PinDirection)>) -> nat
    decreases pins.len(),
{
    if pins.len() == 0 {
        0
    } else {
        output_count(pins.drop_last()) + if pins.last().1 == PinDirection::O {
            1nat
        } else {
            0nat
        }
    }
}

/// The message for a cell that does not have exactly one output pin.
pub open spec fn multi_output_message(name: Seq<char>, outputs: nat) -> Seq<char> {
    "only support single-output cells during mining, got "@ + decimal(outputs) + " outputs for "@
        + name
}

/// The error of the first cell, in library order, without exactly one
/// output pin.
pub open spec fn library_error(cells: Seq<(String, Vec<(String, PinDirection)>)>) -> Option<Seq<char>>
    decreases cells.len(),
{
    if cells.len() == 0 {
        None
    } else if output_count(cells[0].1@) != 1 {
        Some(multi_output_message(cells[0].0@, output_count(cells[0].1@)))
    } else {
        library_error(cells.drop_first())
    }
}

/// Whether `op` names a cell of the library.
pub open spec fn is_library_cell(cells: Seq<(String, Vec<(String, PinDirection)>)>, op: Seq<char>) -> bool {
    exists|i: int| 0 <= i < cells.len() && (#[trigger] cells[i]).0@ == op
}

fn count_outputs(pins: &Vec<(String, PinDirection)>) -> (r: usize)
    ensures
        r == output_count(pins@),
{
    let mut n: usize = 0;
    let mut i: usize = 0;
    while i < pins.len()
        invariant
            0 <= i <= pins@.len(),
            n == output_count(pins@.take(i as int)),
            n <= i,
        decreases pins.len() - i,
    {
        assert(pins@.take(i + 1).drop_last() =~= pins@.take(i as int));
        if pins[i].1 == PinDirection::O {
            n = n + 1;
        }
        i = i + 1;
    }
    assert(pins@.take(i as int) =~= pins@);
    n
}

proof fn lemma_library_error_prefix(cells: Seq<(String, Vec<(String, PinDirection)>)>, k: int)
    requires
        0 <= k <= cells.len(),
        forall|j: int| 0 <= j < k ==> output_count((#[trigger] cells[j]).1@) == 1,
    ensures
        library_error(cells) == library_error(cells.skip(k)),
    decreases k,
{
    if k > 0 {
        lemma_library_error_prefix(cells, k - 1);
        assert(cells.skip(k - 1).drop_first() =~= cells.skip(k));
        assert(cells.skip(k - 1)[0] == cells[k - 1]);
    } else {
        assert(cells.skip(0) =~= cells);
    }
}

/// The names of the library's cells, refusing a library with a cell that
/// has not exactly one output pin.
fn library_gates(library: &CellLibrary) -> (r: Result<Vec<String>, String>)
    ensures
        match library_error(library.cells@) {
            Some(m) => r matches Err(e) && e@ == m,
            None => r matches Ok(names) && names@.len() == library.cells@.len() && forall|i: int|
                0 <= i < names@.len() ==> (#[trigger] names@[i])@ == library.cells@[i].0@,
        },
{
    let mut names: Vec<String> = Vec::new();
    let mut i: usize = 0;
    while i < library.cells.len()
        invariant
            0 <= i <= library.cells@.len(),
            names@.len() == i,
            forall|j: int| 0 <= j < i ==> (#[trigger] names@[j])@ == library.cells@[j].0@,
            forall|j: int| 0 <= j < i ==> output_count((#[trigger] library.cells@[j]).1@) == 1,
        decreases library.cells.len() - i,
    {
        let outputs = count_outputs(&library.cells[i].1);
        if outputs != 1 {
            proof {
                lemma_library_error_prefix(library.cells@, i as int);
                assert(library.cells@.skip(i as int)[0] == library.cells@[i as int]);
            }
            let mut v: Vec<char> = Vec::new();
            push_str(&mut v, "only support single-output cells during mining, got ");
            push_decimal(&mut v, outputs);
            push_str(&mut v, " outputs for ");
            push_str(&mut v, library.cells[i].0.as_str());
            return Err(string_of(v.as_slice()));
        }
        names.push(copy_string(&library.cells[i].0));
        i = i + 1;
    }
    proof {
        lemma_library_error_prefix(library.cells@, i as int);
        assert(library.cells@.skip(i as int) =~= Seq::<(String, Vec<(String, PinDirection)>)>::empty());
    }
    Ok(names)
}

/// A node of a serialized e-graph: its operation, its own class and its
/// children's classes.
#[derive(Debug)]
pub struct MiningNode {
    pub op: String,
    pub class: usize,
    pub children: Vec<usize>,
}

/// The mined e-graph: its nodes in order, and each class's nodes in order.
#[derive(Debug)]
pub struct MiningGraph {
    pub nodes: Vec<MiningNode>,
    pub classes: Vec<Vec<usize>>,
}

impl MiningGraph {
    /// Every child class and every class member exists.
    pub open spec fn wf(&self) -> bool {
        &&& forall|i: int| 0 <= i < self.nodes@.len() ==> (#[trigger] self.nodes@[i]).class < self.classes@.len()
        &&& forall|i: int, j: int|
            0 <= i < self.nodes@.len() && 0 <= j < self.nodes@[i].children@.len() ==> #[trigger] self.nodes@[i].children@[j]
                < self.classes@.len()
        &&& forall|c: int, j: int|
            0 <= c < self.classes@.len() && 0 <= j < self.classes@[c]@.len() ==> #[trigger] self.classes@[c]@[j]
                < self.nodes@.len()
    }
}

/// Every pattern has at most `budget` gates.
pub open spec fn within_budget(ps: Seq<PatternExpr>, budget: nat) -> bool {
    forall|i: int| 0 <= i < ps.len() ==> pattern_gates(#[trigger] ps[i]) <= budget
}

/// Every pattern stored under a signature has at most `budget` gates.
pub open spec fn keyed_within_budget(ps: Seq<(String, PatternExpr)>, budget: nat) -> bool {
    forall|i: int| 0 <= i < ps.len() ==> pattern_gates((#[trigger] ps[i]).1) <= budget
}

/// The memoized enumerations: each entry's patterns respect its budget.
pub open spec fn memo_ok(memo: Seq<(usize, usize, Vec<PatternExpr>)>) -> bool {
    forall|i: int| 0 <= i < memo.len() ==> within_budget((#[trigger] memo[i]).2@, memo[i].1 as nat)
}

fn copy_patterns(ps: &Vec<PatternExpr>) -> (r: Vec<PatternExpr>)
    ensures
        r@.len() == ps@.len(),
        forall|i: int|
            0 <= i < ps@.len() ==> pattern_gates(#[trigger] r@[i]) == pattern_gates(ps@[i])
                && pattern_signature(r@[i]) == pattern_signature(ps@[i]),
        pms(r@) == pms(ps@),
{
    let mut out: Vec<PatternExpr> = Vec::new();
    let mut i: usize = 0;
    while i < ps.len()
        invariant
            0 <= i <= ps@.len(),
            out@.len() == i,
            forall|j: int|
                0 <= j < i ==> pattern_gates(#[trigger] out@[j]) == pattern_gates(ps@[j])
                    && pattern_signature(out@[j]) == pattern_signature(ps@[j])
                    && pmodel(out@[j]) == pmodel(ps@[j]),
        decreases ps.len() - i,
    {
        out.push(ps[i].duplicate());
        i = i + 1;
    }
    assert(pms(out@) =~= pms(ps@));
    out
}

/// The values of a signature-keyed list of patterns.
pub open spec fn kmap(v: Seq<(String, PatternExpr)>) -> Seq<(Seq<char>, PModel)> {
    v.map_values(|e: (String, PatternExpr)| (e.0@, pmodel(e.1)))
}

/// The position of the first entry of `m[k..]` keyed `sig` (-1 when none).
pub open spec fn key_pos(m: Seq<(Seq<char>, PModel)>, k: nat, sig: Seq<char>) -> int
    decreases m.len() - k,
{
    if k >= m.len() {
        -1
    } else if m[k as int].0 == sig {
        k as int
    } else {
        key_pos(m, k + 1, sig)
    }
}

proof fn lemma_key_pos(m: Seq<(Seq<char>, PModel)>, k: nat, sig: Seq<char>)
    ensures
        key_pos(m, k, sig) >= 0 ==> k <= key_pos(m, k, sig) < m.len() && m[key_pos(m, k, sig)].0 == sig,
    decreases m.len() - k,
{
    if k < m.len() && m[k as int].0 != sig {
        lemma_key_pos(m, k + 1, sig);
    }
}

/// `m` with `p` stored under `sig`: in place of the entry keyed `sig`, or
/// appended when there is none.
pub open spec fn insert_sig(m: Seq<(Seq<char>, PModel)>, sig: Seq<char>, p: PModel) -> Seq<(Seq<char>, PModel)> {
    let i = key_pos(m, 0, sig);
    if i >= 0 {
        m.update(i, (sig, p))
    } else {
        m.push((sig, p))
    }
}

/// Stores `p` under signature `sig`, replacing what was stored there.
fn insert_by_signature(map: &mut Vec<(String, PatternExpr)>, sig: String, p: PatternExpr, budget: Ghost<nat>)
    requires
        keyed_within_budget(old(map)@, budget@),
        pattern_gates(p) <= budget@,
    ensures
        keyed_within_budget(final(map)@, budget@),
        kmap(final(map)@) == insert_sig(kmap(old(map)@), sig@, pmodel(p)),
{
    let ghost m0 = kmap(map@);
    let mut i: usize = 0;
    while i < map.len()
        invariant
            0 <= i <= map@.len(),
            map@ == old(map)@,
            m0 == kmap(map@),
            keyed_within_budget(map@, budget@),
            pattern_gates(p) <= budget@,
            key_pos(m0, i as nat, sig@) == key_pos(m0, 0, sig@),
        decreases map.len() - i,
    {
        if same_string(&map[i].0, &sig) {
            let ghost e = (sig@, pmodel(p));
            map.set(i, (sig, p));
            assert(kmap(map@) =~= m0.update(i as int, e));
            return ;
        }
        i = i + 1;
    }
    let ghost e = (sig@, pmodel(p));
    map.push((sig, p));
    assert(kmap(map@) =~= m0.push(e));
}

fn values_of(map: Vec<(String, PatternExpr)>, budget: Ghost<nat>) -> (r: Vec<PatternExpr>)
    requires
        keyed_within_budget(map@, budget@),
    ensures
        within_budget(r@, budget@),
        r@ == map@.map_values(|e: (String, PatternExpr)| e.1),
{
    let ghost all = map@;
    let mut out: Vec<PatternExpr> = Vec::new();
    let mut rest = map;
    while rest.len() > 0
        invariant
            keyed_within_budget(rest@, budget@),
            within_budget(out@, budget@),
            out@.len() + rest@.len() == all.len(),
            rest@ == all.skip(out@.len() as int),
            forall|j: int| 0 <= j < out@.len() ==> #[trigger] out@[j] == all[j].1,
        decreases rest.len(),
    {
        let ghost before = rest@;
        let (_, p) = rest.remove(0);
        assert(pattern_gates(p) <= budget@) by {
            assert(before[0].1 == p);
        }
        assert forall|i: int| 0 <= i < rest@.len() implies pattern_gates((#[trigger] rest@[i]).1)
            <= budget@ by {
            assert(rest@[i] == before[i + 1]);
        }
        assert(before[0] == all[out@.len() as int]);
        out.push(p);
        assert(rest@ =~= all.skip(out@.len() as int));
    }
    assert(out@ =~= all.map_values(|e: (String, PatternExpr)| e.1));
    out
}

/// The values of the memo's entries.
pub open spec fn memo_model(m: Seq<(usize, usize, Vec<PatternExpr>)>) -> Seq<(usize, usize, Seq<PModel>)> {
    m.map_values(|e: (usize, usize, Vec<PatternExpr>)| (e.0, e.1, pms(e.2@)))
}

/// The patterns memoized for (`node`, `budget`), from the first matching
/// entry of `m[k..]`.
pub open spec fn memo_find(m: Seq<(usize, usize, Seq<PModel>)>, k: nat, node: usize, budget: usize) -> Option<
    Seq<PModel>,
>
    decreases m.len() - k,
{
    if k >= m.len() {
        None
    } else if m[k as int].0 == node && m[k as int].1 == budget {
        Some(m[k as int].2)
    } else {
        memo_find(m, k + 1, node, budget)
    }
}

/// The values of the options of each child.
pub open spec fn options_model(v: Seq<Vec<PatternExpr>>) -> Seq<Seq<PModel>> {
    v.map_values(|o: Vec<PatternExpr>| pms(o@))
}

/// `out` after the completions of `current` (whose patterns have
/// `used - 1` gates) by one option per child from `idx` on: every complete
/// gate with 2 to `budget` gates is stored under its signature, and a
/// partial choice is dropped as soon as it exceeds the budget.
pub open spec fn comb(
    op: Seq<char>,
    opts: Seq<Seq<PModel>>,
    idx: nat,
    current: Seq<PModel>,
    used: nat,
    out: Seq<(Seq<char>, PModel)>,
    budget: nat,
) -> Seq<(Seq<char>, PModel)>
    decreases opts.len() - idx, 1nat, 0nat,
{
    if idx >= opts.len() {
        let pat = PModel::Gate(op, current);
        if used >= 2 && used <= budget {
            insert_sig(out, msig(pat), pat)
        } else {
            out
        }
    } else {
        comb_opts(op, opts, idx, current, used, out, budget, 0)
    }
}

/// The completions through the options `opts[idx][i..]` of child `idx`.
pub open spec fn comb_opts(
    op: Seq<char>,
    opts: Seq<Seq<PModel>>,
    idx: nat,
    current: Seq<PModel>,
    used: nat,
    out: Seq<(Seq<char>, PModel)>,
    budget: nat,
    i: nat,
) -> Seq<(Seq<char>, PModel)>
    decreases opts.len() - idx, 0nat, opts[idx as int].len() - i,
{
    if idx >= opts.len() || i >= opts[idx as int].len() {
        out
    } else {
        let o = opts[idx as int][i as int];
        let out2 = if used + mgates(o) <= budget {
            comb(op, opts, idx + 1, current.push(o), used + mgates(o), out, budget)
        } else {
            out
        };
        comb_opts(op, opts, idx, current, used, out2, budget, i + 1)
    }
}

/// `by` with each of `ps[k..]` stored under its signature, in order.
pub open spec fn insert_all(by: Seq<(Seq<char>, PModel)>, ps: Seq<PModel>, k: nat) -> Seq<(Seq<char>, PModel)>
    decreases ps.len() - k,
{
    if k >= ps.len() {
        by
    } else {
        insert_all(insert_sig(by, msig(ps[k as int]), ps[k as int]), ps, k + 1)
    }
}

/// The stored patterns of a signature-keyed list, in order.
pub open spec fn kvalues(by: Seq<(Seq<char>, PModel)>) -> Seq<PModel> {
    by.map_values(|e: (Seq<char>, PModel)| e.1)
}

/// Operation `op` over `n` inputs.
pub open spec fn base_pattern(op: Seq<char>, n: nat) -> PModel {
    PModel::Gate(op, Seq::new(n, |k: int| PModel::Input))
}

/// The patterns rooted at `node` with at most `budget` gates, and the memo
/// after enumerating them: none without budget, for a node that is no
/// library gate, or for a node already on the path `stack`; the memoized
/// ones where (`node`, `budget`) is memoized; else `op` over inputs and
/// every completion of its children's options (each child's class with
/// one gate less), stored by signature, and memoized.
pub open spec fn pfn(
    g: MiningGraph,
    lib: Seq<String>,
    memo: Seq<(usize, usize, Seq<PModel>)>,
    node: usize,
    budget: usize,
    stack: Seq<usize>,
) -> (Seq<(usize, usize, Seq<PModel>)>, Seq<PModel>)
    decreases budget, 3nat, 0nat,
{
    if budget == 0 || node >= g.nodes@.len() {
        (memo, Seq::empty())
    } else {
        let op = g.nodes@[node as int].op@;
        if !seen_has(lib, op) {
            (memo, Seq::empty())
        } else {
            match memo_find(memo, 0, node, budget) {
                Some(ps) => (memo, ps),
                None => if stack.contains(node) {
                    (memo, Seq::empty())
                } else {
                    let children = g.nodes@[node as int].children@;
                    let base = base_pattern(op, children.len());
                    let by0 = insert_sig(Seq::empty(), msig(base), base);
                    let r: (Seq<(usize, usize, Seq<PModel>)>, Seq<(Seq<char>, PModel)>) = if budget > 1
                        && children.len() > 0 {
                        let c = child_loop(g, lib, memo, children, 0, budget, stack.push(node), Seq::empty());
                        (c.0, comb(op, c.1, 0, Seq::empty(), 1, by0, budget as nat))
                    } else {
                        (memo, by0)
                    };
                    let result = kvalues(r.1);
                    (r.0.push((node, budget, result)), result)
                },
            }
        }
    }
}

/// The options of `children[c..]`, each its class's options with one gate
/// less, appended to `opts`.
pub open spec fn child_loop(
    g: MiningGraph,
    lib: Seq<String>,
    memo: Seq<(usize, usize, Seq<PModel>)>,
    children: Seq<usize>,
    c: nat,
    budget: usize,
    stack: Seq<usize>,
    opts: Seq<Seq<PModel>>,
) -> (Seq<(usize, usize, Seq<PModel>)>, Seq<Seq<PModel>>)
    decreases budget, 2nat, children.len() - c,
{
    if c >= children.len() || budget == 0 {
        (memo, opts)
    } else {
        let r = copt(g, lib, memo, children[c as int], (budget - 1) as usize, stack);
        child_loop(g, lib, r.0, children, c + 1, budget, stack, opts.push(r.1))
    }
}

/// The patterns that may stand for a child in class `class`: an input, and
/// with some budget the patterns rooted at its members, by signature.
pub open spec fn copt(
    g: MiningGraph,
    lib: Seq<String>,
    memo: Seq<(usize, usize, Seq<PModel>)>,
    class: usize,
    budget: usize,
    stack: Seq<usize>,
) -> (Seq<(usize, usize, Seq<PModel>)>, Seq<PModel>)
    decreases budget, 5nat, 0nat,
{
    let by0 = insert_sig(Seq::empty(), msig(PModel::Input), PModel::Input);
    if budget == 0 || class >= g.classes@.len() {
        (memo, kvalues(by0))
    } else {
        let r = members_loop(g, lib, memo, g.classes@[class as int]@, 0, budget, stack, by0);
        (r.0, kvalues(r.1))
    }
}

/// The patterns of the members `members[i..]` stored by signature into `by`.
pub open spec fn members_loop(
    g: MiningGraph,
    lib: Seq<String>,
    memo: Seq<(usize, usize, Seq<PModel>)>,
    members: Seq<usize>,
    i: nat,
    budget: usize,
    stack: Seq<usize>,
    by: Seq<(Seq<char>, PModel)>,
) -> (Seq<(usize, usize, Seq<PModel>)>, Seq<(Seq<char>, PModel)>)
    decreases budget, 4nat, members.len() - i,
{
    if i >= members.len() {
        (memo, by)
    } else {
        let r = pfn(g, lib, memo, members[i as int], budget, stack);
        members_loop(g, lib, r.0, members, i + 1, budget, stack, insert_all(by, r.1, 0))
    }
}

/// The miner: the e-graph, the library's cell names, the parameters and the
/// memo of enumerations by (node, budget).
pub struct GSpan {
    pub graph: MiningGraph,
    pub config: MiningConfig,
    pub lib_gates: Vec<String>,
    pub memo: Vec<(usize, usize, Vec<PatternExpr>)>,
}

fn contains_node(stack: &Vec<usize>, x: usize) -> (r: bool)
    ensures
        r == stack@.contains(x),
{
    let mut i: usize = 0;
    while i < stack.len()
        invariant
            0 <= i <= stack@.len(),
            forall|j: int| 0 <= j < i ==> stack@[j] != x,
        decreases stack.len() - i,
    {
        if stack[i] == x {
            return true;
        }
        i = i + 1;
    }
    false
}

/// The position of the first `x` in `s[k..]` (-1 when none).
pub open spec fn node_pos(s: Seq<usize>, k: nat, x: usize) -> int
    decreases s.len() - k,
{
    if k >= s.len() {
        -1
    } else if s[k as int] == x {
        k as int
    } else {
        node_pos(s, k + 1, x)
    }
}

proof fn lemma_node_pos(s: Seq<usize>, k: nat, x: usize)
    ensures
        node_pos(s, k, x) >= 0 ==> k <= node_pos(s, k, x) < s.len(),
        node_pos(s, k, x) < 0 ==> forall|j: int| k <= j < s.len() ==> s[j] != x,
    decreases s.len() - k,
{
    if k < s.len() && s[k as int] != x {
        lemma_node_pos(s, k + 1, x);
    }
}

proof fn lemma_node_pos_push(s: Seq<usize>, k: nat, x: usize)
    requires
        k <= s.len(),
        !s.contains(x),
    ensures
        node_pos(s.push(x), k, x) == s.len(),
    decreases s.len() - k,
{
    if k < s.len() {
        assert(s.push(x)[k as int] == s[k as int]);
        lemma_node_pos_push(s, k + 1, x);
    }
}

/// `s` without its first `x` (unchanged when it holds none).
pub open spec fn without_first(s: Seq<usize>, x: usize) -> Seq<usize> {
    let i = node_pos(s, 0, x);
    if i >= 0 {
        s.remove(i)
    } else {
        s
    }
}

/// Removes the first `x` from the path.
fn remove_node(stack: &mut Vec<usize>, x: usize)
    ensures
        final(stack)@ == without_first(old(stack)@, x),
{
    proof {
        lemma_node_pos(stack@, 0, x);
    }
    let mut i: usize = 0;
    while i < stack.len()
        invariant
            0 <= i <= stack@.len(),
            stack@ == old(stack)@,
            node_pos(stack@, i as nat, x) == node_pos(stack@, 0, x),
        decreases stack.len() - i,
    {
        if stack[i] == x {
            stack.remove(i);
            return ;
        }
        i = i + 1;
    }
}

impl GSpan {
    /// The miner's invariant: a well-formed graph and a sound memo.
    pub open spec fn inv(&self) -> bool {
        self.graph.wf() && memo_ok(self.memo@)
    }

    /// A miner over `graph`; the library must have one output pin per cell.
    pub fn new(graph: MiningGraph, library: &CellLibrary, config: MiningConfig) -> (r: Result<GSpan, String>)
        requires
            graph.wf(),
        ensures
            match library_error(library.cells@) {
                Some(m) => r matches Err(e) && e@ == m,
                None => r matches Ok(g) && g.inv() && fresh_miner(g, graph, library.cells@, config),
            },
    {
        let lib_gates = match library_gates(library) {
            Ok(names) => names,
            Err(e) => {
                return Err(e);
            },
        };
        Ok(GSpan { graph, config, lib_gates, memo: Vec::new() })
    }

    fn is_library_gate(&self, op: &String) -> (r: bool)
        ensures
            r == seen_has(self.lib_gates@, op@),
    {
        let mut i: usize = 0;
        while i < self.lib_gates.len()
            invariant
                0 <= i <= self.lib_gates@.len(),
                forall|j: int| 0 <= j < i ==> (#[trigger] self.lib_gates@[j])@ != op@,
            decreases self.lib_gates.len() - i,
        {
            if same_string(&self.lib_gates[i], op) {
                return true;
            }
            i = i + 1;
        }
        false
    }

    fn memo_get(&self, node: usize, budget: usize) -> (r: Option<Vec<PatternExpr>>)
        requires
            memo_ok(self.memo@),
        ensures
            r matches Some(ps) ==> within_budget(ps@, budget as nat),
            match memo_find(memo_model(self.memo@), 0, node, budget) {
                Some(ps) => r matches Some(q) && pms(q@) == ps,
                None => r is None,
            },
    {
        let mut i: usize = 0;
        while i < self.memo.len()
            invariant
                0 <= i <= self.memo@.len(),
                memo_ok(self.memo@),
                memo_find(memo_model(self.memo@), i as nat, node, budget) == memo_find(
                    memo_model(self.memo@),
                    0,
                    node,
                    budget,
                ),
            decreases self.memo.len() - i,
        {
            if self.memo[i].0 == node && self.memo[i].1 == budget {
                let ps = copy_patterns(&self.memo[i].2);
                assert(within_budget(self.memo@[i as int].2@, budget as nat));
                return Some(ps);
            }
            i = i + 1;
        }
        None
    }

    /// The distinct patterns (by signature) rooted at `node` with at most
    /// `budget` gates; empty for a non-library node and on a cycle back to
    /// a node being enumerated (see `pfn`).
    fn enumerate_patterns_for_node(&mut self, node: usize, budget: usize, stack: &mut Vec<usize>) -> (r:
        Vec<PatternExpr>)
        requires
            old(self).inv(),
            node < old(self).graph.nodes@.len(),
        ensures
            final(self).inv(),
            final(self).graph == old(self).graph,
            final(self).config == old(self).config,
            final(self).lib_gates@ == old(self).lib_gates@,
            final(stack)@ == old(stack)@,
            within_budget(r@, budget as nat),
            (memo_model(final(self).memo@), pms(r@)) == pfn(
                old(self).graph,
                old(self).lib_gates@,
                memo_model(old(self).memo@),
                node,
                budget,
                old(stack)@,
            ),
        decreases budget, 1nat,
    {
        let ghost g = self.graph;
        let ghost lib = self.lib_gates@;
        let ghost m0 = memo_model(self.memo@);
        let ghost st0 = stack@;
        if budget == 0 {
            let r: Vec<PatternExpr> = Vec::new();
            assert(pms(r@) =~= Seq::<PModel>::empty());
            return r;
        }
        let op = copy_string(&self.graph.nodes[node].op);
        if !self.is_library_gate(&op) {
            let r: Vec<PatternExpr> = Vec::new();
            assert(pms(r@) =~= Seq::<PModel>::empty());
            return r;
        }
        match self.memo_get(node, budget) {
            Some(cached) => {
                return cached;
            },
            None => {},
        }
        if contains_node(stack, node) {
            let r: Vec<PatternExpr> = Vec::new();
            assert(pms(r@) =~= Seq::<PModel>::empty());
            return r;
        }
        stack.push(node);
        let ghost st1 = stack@;
        let n_children = self.graph.nodes[node].children.len();
        let ghost children = self.graph.nodes@[node as int].children@;
        let mut by_signature: Vec<(String, PatternExpr)> = Vec::new();
        let mut inputs: Vec<PatternExpr> = Vec::new();
        let mut k: usize = 0;
        while k < n_children
            invariant
                0 <= k <= n_children,
                inputs@.len() == k,
                forall|j: int| 0 <= j < k ==> #[trigger] inputs@[j] == PatternExpr::Input,
            decreases n_children - k,
        {
            inputs.push(PatternExpr::Input);
            k = k + 1;
        }
        proof {
            assert forall|m: int| 0 <= m <= inputs@.len() implies #[trigger] patterns_gates(
                inputs@.take(m),
            ) == 0 by {
                lemma_inputs_gates(inputs@, m);
            }
            assert(inputs@.take(inputs@.len() as int) =~= inputs@);
            lemma_inputs_gates(inputs@, inputs@.len() as int);
            lemma_pms_pmodels(inputs@);
            assert(pms(inputs@) =~= Seq::new(n_children as nat, |j: int| PModel::Input));
        }
        let base = PatternExpr::Gate { op: copy_string(&op), children: inputs };
        proof {
            lemma_model_measures(base);
            assert(pmodel(base) == base_pattern(op@, children.len()));
        }
        let base_sig = base.signature();
        assert(kmap(by_signature@) =~= Seq::<(Seq<char>, PModel)>::empty());
        insert_by_signature(&mut by_signature, base_sig, base, Ghost(budget as nat));
        let ghost by0 = kmap(by_signature@);
        if budget > 1 && n_children > 0 {
            let mut child_options: Vec<Vec<PatternExpr>> = Vec::new();
            let mut c: usize = 0;
            assert(options_model(child_options@) =~= Seq::<Seq<PModel>>::empty());
            while c < n_children
                invariant
                    0 <= c <= n_children,
                    self.inv(),
                    node < self.graph.nodes@.len(),
                    n_children == self.graph.nodes@[node as int].children@.len(),
                    children == self.graph.nodes@[node as int].children@,
                    self.graph == old(self).graph,
                    self.config == old(self).config,
                    self.lib_gates@ == lib,
                    g == self.graph,
                    stack@ == st1,
                    budget > 1,
                    child_options@.len() == c,
                    forall|j: int|
                        0 <= j < c ==> within_budget(#[trigger] child_options@[j]@, (budget - 1) as nat),
                    child_loop(g, lib, memo_model(self.memo@), children, c as nat, budget, st1, options_model(
                        child_options@,
                    )) == child_loop(g, lib, m0, children, 0, budget, st1, Seq::empty()),
                decreases n_children - c,
            {
                let class = self.graph.nodes[node].children[c];
                let ghost ob = options_model(child_options@);
                let options = self.enumerate_child_options(class, budget - 1, stack);
                child_options.push(options);
                assert(options_model(child_options@) =~= ob.push(pms(options@)));
                c = c + 1;
            }
            let mut current: Vec<PatternExpr> = Vec::new();
            assert(pms(current@) =~= Seq::<PModel>::empty());
            self.combine_child_patterns(&op, &child_options, 0, 1, &mut current, &mut by_signature, budget);
        }
        proof {
            lemma_node_pos_push(st0, 0, node);
        }
        remove_node(stack, node);
        assert(stack@ =~= st0);
        let ghost byf = by_signature@;
        let result = values_of(by_signature, Ghost(budget as nat));
        assert(pms(result@) =~= kvalues(kmap(byf)));
        let stored = copy_patterns(&result);
        let ghost pre = self.memo@;
        self.memo.push((node, budget, stored));
        proof {
            assert forall|i: int| 0 <= i < self.memo@.len() implies within_budget(
                (#[trigger] self.memo@[i]).2@,
                self.memo@[i].1 as nat,
            ) by {
                if i < pre.len() {
                    assert(self.memo@[i] == pre[i]);
                }
            }
            assert(memo_model(self.memo@) =~= memo_model(pre).push((node, budget, pms(result@))));
        }
        result
    }

    /// The patterns that may stand for a child in class `class`: an input,
    /// and the patterns with at most `budget` gates rooted at its nodes
    /// (see `copt`).
    fn enumerate_child_options(&mut self, class: usize, budget: usize, stack: &mut Vec<usize>) -> (r:
        Vec<PatternExpr>)
        requires
            old(self).inv(),
            class < old(self).graph.classes@.len(),
        ensures
            final(self).inv(),
            final(self).graph == old(self).graph,
            final(self).config == old(self).config,
            final(self).lib_gates@ == old(self).lib_gates@,
            final(stack)@ == old(stack)@,
            within_budget(r@, budget as nat),
            (memo_model(final(self).memo@), pms(r@)) == copt(
                old(self).graph,
                old(self).lib_gates@,
                memo_model(old(self).memo@),
                class,
                budget,
                old(stack)@,
            ),
        decreases budget, 2nat,
    {
        let ghost g = self.graph;
        let ghost lib = self.lib_gates@;
        let ghost m0 = memo_model(self.memo@);
        let ghost st0 = stack@;
        let mut by_signature: Vec<(String, PatternExpr)> = Vec::new();
        let input = PatternExpr::Input;
        let input_sig = input.signature();
        assert(kmap(by_signature@) =~= Seq::<(Seq<char>, PModel)>::empty());
        insert_by_signature(&mut by_signature, input_sig, input, Ghost(budget as nat));
        let ghost by0 = kmap(by_signature@);
        if budget == 0 {
            let ghost byf = by_signature@;
            let r = values_of(by_signature, Ghost(budget as nat));
            assert(pms(r@) =~= kvalues(kmap(byf)));
            return r;
        }
        let members = crate::topology::copy_indices(&self.graph.classes[class]);
        let mut i: usize = 0;
        while i < members.len()
            invariant
                0 <= i <= members@.len(),
                self.inv(),
                class < self.graph.classes@.len(),
                members@ == self.graph.classes@[class as int]@,
                self.graph == old(self).graph,
                self.config == old(self).config,
                self.lib_gates@ == lib,
                g == self.graph,
                stack@ == st0,
                budget > 0,
                keyed_within_budget(by_signature@, budget as nat),
                members_loop(g, lib, memo_model(self.memo@), members@, i as nat, budget, st0, kmap(
                    by_signature@,
                )) == members_loop(g, lib, m0, members@, 0, budget, st0, by0),
            decreases members.len() - i,
        {
            let found = self.enumerate_patterns_for_node(members[i], budget, stack);
            let ghost fm = pms(found@);
            let ghost by_start = kmap(by_signature@);
            let mut rest = found;
            let ghost mut t: nat = 0;
            while rest.len() > 0
                invariant
                    within_budget(rest@, budget as nat),
                    keyed_within_budget(by_signature@, budget as nat),
                    t <= fm.len(),
                    pms(rest@) == fm.skip(t as int),
                    insert_all(kmap(by_signature@), fm, t) == insert_all(by_start, fm, 0),
                decreases rest.len(),
            {
                let ghost before = rest@;
                let p = rest.remove(0);
                assert(pattern_gates(p) <= budget) by {
                    assert(before[0] == p);
                }
                assert forall|j: int| 0 <= j < rest@.len() implies pattern_gates(
                    #[trigger] rest@[j],
                ) <= budget by {
                    assert(rest@[j] == before[j + 1]);
                }
                proof {
                    assert(pms(before).len() == fm.skip(t as int).len());
                    assert(fm.skip(t as int)[0] == fm[t as int]);
                    assert(pms(before)[0] == pmodel(before[0]));
                    assert(pmodel(p) == fm[t as int]);
                    lemma_model_measures(p);
                    assert forall|j: int| 0 <= j < rest@.len() implies #[trigger] pms(rest@)[j] == fm.skip(
                        (t + 1) as int,
                    )[j] by {
                        assert(rest@[j] == before[j + 1]);
                        assert(pms(before)[j + 1] == fm.skip(t as int)[j + 1]);
                    }
                    assert(pms(rest@) =~= fm.skip((t + 1) as int));
                }
                let sig = p.signature();
                insert_by_signature(&mut by_signature, sig, p, Ghost(budget as nat));
                proof {
                    t = t + 1;
                }
            }
            assert(fm.skip(t as int).len() == 0);
            i = i + 1;
        }
        let ghost byf = by_signature@;
        let r = values_of(by_signature, Ghost(budget as nat));
        assert(pms(r@) =~= kvalues(kmap(byf)));
        r
    }

    /// Completes `current` with one option for each remaining child, keeping
    /// each completed gate with at least 2 and at most `budget` gates.
    fn combine_child_patterns(
        &self,
        op: &String,
        child_options: &Vec<Vec<PatternExpr>>,
        idx: usize,
        used: usize,
        current: &mut Vec<PatternExpr>,
        out: &mut Vec<(String, PatternExpr)>,
        budget: usize,
    )
        requires
            idx <= child_options@.len(),
            old(current)@.len() == idx,
            used == 1 + patterns_gates(old(current)@),
            used <= budget,
            forall|j: int| 0 <= j < child_options@.len() ==> within_budget(#[trigger] child_options@[j]@, budget as nat),
            keyed_within_budget(old(out)@, budget as nat),
        ensures
            keyed_within_budget(final(out)@, budget as nat),
            final(current)@ == old(current)@,
            kmap(final(out)@) == comb(
                op@,
                options_model(child_options@),
                idx as nat,
                pms(old(current)@),
                used as nat,
                kmap(old(out)@),
                budget as nat,
            ),
        decreases child_options@.len() - idx,
    {
        if idx == child_options.len() {
            let children = copy_patterns(current);
            proof {
                lemma_gates_pointwise(children@, current@);
            }
            let pattern = PatternExpr::Gate { op: copy_string(op), children };
            proof {
                lemma_pms_pmodels(children@);
                lemma_model_measures(pattern);
                assert(pmodel(pattern) == PModel::Gate(op@, pms(current@)));
            }
            if used >= 2 && used <= budget {
                let sig = pattern.signature();
                insert_by_signature(out, sig, pattern, Ghost(budget as nat));
            }
            return ;
        }
        let ghost opm = options_model(child_options@);
        let ghost curm = pms(current@);
        let ghost out0 = kmap(out@);
        let options = &child_options[idx];
        let mut i: usize = 0;
        while i < options.len()
            invariant
                0 <= i <= options@.len(),
                idx < child_options@.len(),
                options == child_options@[idx as int],
                current@ == old(current)@,
                current@.len() == idx,
                used == 1 + patterns_gates(current@),
                used <= budget,
                forall|j: int| 0 <= j < child_options@.len() ==> within_budget(#[trigger] child_options@[j]@, budget as nat),
                keyed_within_budget(out@, budget as nat),
                opm == options_model(child_options@),
                curm == pms(current@),
                opm[idx as int] == pms(options@),
                comb_opts(op@, opm, idx as nat, curm, used as nat, kmap(out@), budget as nat, i as nat)
                    == comb_opts(op@, opm, idx as nat, curm, used as nat, out0, budget as nat, 0),
            decreases options.len() - i,
        {
            let option = options[i].duplicate();
            proof {
                lemma_model_measures(option);
                assert(pmodel(option) == opm[idx as int][i as int]);
            }
            assert(pattern_gates(options@[i as int]) <= budget);
            assert(idx < child_options.len());
            let g = option.gate_count();
            let ghost before = current@;
            current.push(option);
            assert(current@.drop_last() =~= before);
            assert(pms(current@) =~= curm.push(opm[idx as int][i as int]));
            match used.checked_add(g) {
                Some(total) => {
                    if total <= budget {
                        self.combine_child_patterns(op, child_options, idx + 1, total, current, out, budget);
                    }
                },
                None => {},
            }
            current.pop();
            assert(current@ =~= before);
            i = i + 1;
        }
    }
}

/// `a` ranks no lower than `b`: more support, then more gates, then the
/// lexicographically smaller signature.
pub open spec fn ranks_before(a: (PatternExpr, usize), b: (PatternExpr, usize)) -> bool {
    a.1 > b.1 || (a.1 == b.1 && (pattern_gates(a.0) > pattern_gates(b.0) || (pattern_gates(a.0)
        == pattern_gates(b.0) && chars_le(pattern_signature(a.0), pattern_signature(b.0)))))
}

proof fn lemma_ranks_total(a: (PatternExpr, usize), b: (PatternExpr, usize))
    ensures
        ranks_before(a, b) || ranks_before(b, a),
{
    lemma_chars_le_total(pattern_signature(a.0), pattern_signature(b.0));
}

proof fn lemma_ranks_trans(a: (PatternExpr, usize), b: (PatternExpr, usize), c: (PatternExpr, usize))
    requires
        ranks_before(a, b),
        ranks_before(b, c),
    ensures
        ranks_before(a, c),
{
    if a.1 == b.1 && b.1 == c.1 && pattern_gates(a.0) == pattern_gates(b.0) && pattern_gates(b.0)
        == pattern_gates(c.0) {
        lemma_chars_le_trans(pattern_signature(a.0), pattern_signature(b.0), pattern_signature(c.0));
    }
}

/// A counted candidate: its signature, its pattern and its support.
pub open spec fn entry_view(e: (String, PatternExpr, usize)) -> (PatternExpr, usize) {
    (e.1, e.2)
}

/// Counted candidates with distinct signatures, each its pattern's.
pub open spec fn entries_ok(es: Seq<(String, PatternExpr, usize)>, max: nat) -> bool {
    &&& forall|i: int| 0 <= i < es.len() ==> (#[trigger] es[i]).0@ == pattern_signature(es[i].1)
    &&& forall|i: int|
        0 <= i < es.len() ==> 2 <= pattern_gates((#[trigger] es[i]).1) && pattern_gates(es[i].1) <= max
    &&& forall|i: int, j: int|
        0 <= i < j < es.len() ==> (#[trigger] es[i]).0@ != (#[trigger] es[j]).0@
}

fn entry_ranks_before(a: &(String, PatternExpr, usize), b: &(String, PatternExpr, usize)) -> (r: bool)
    requires
        a.0@ == pattern_signature(a.1),
        b.0@ == pattern_signature(b.1),
        pattern_gates(a.1) <= usize::MAX,
        pattern_gates(b.1) <= usize::MAX,
    ensures
        r == ranks_before(entry_view(*a), entry_view(*b)),
{
    if a.2 != b.2 {
        return a.2 > b.2;
    }
    let ga = a.1.gate_count();
    let gb = b.1.gate_count();
    if ga != gb {
        return ga > gb;
    }
    chars_less_eq(crate::text::chars_of(a.0.as_str()).as_slice(), crate::text::chars_of(b.0.as_str()).as_slice())
}

/// Sorts counted candidates by rank.
fn sort_entries(v: Vec<(String, PatternExpr, usize)>, max: Ghost<nat>) -> (r: Vec<(String, PatternExpr, usize)>)
    requires
        entries_ok(v@, max@),
        max@ <= usize::MAX,
    ensures
        entries_ok(r@, max@),
        r@.len() == v@.len(),
        forall|i: int| 0 <= i < r@.len() ==> v@.contains(#[trigger] r@[i]),
        forall|j: int| 0 <= j < v@.len() ==> r@.contains(#[trigger] v@[j]),
        forall|i: int, j: int|
            0 <= i < j < r@.len() ==> ranks_before(entry_view(#[trigger] r@[i]), entry_view(#[trigger] r@[j])),
{
    let mut out: Vec<(String, PatternExpr, usize)> = Vec::new();
    let ghost v0 = v@;
    let mut rest = v;
    let ghost all = rest@;
    assert(all == v0);
    let ghost mut done: Seq<(String, PatternExpr, usize)> = Seq::empty();
    while rest.len() > 0
        invariant
            all == done + rest@,
            entries_ok(all, max@),
            max@ <= usize::MAX,
            entries_ok(out@, max@),
            out@.len() == done.len(),
            forall|i: int| 0 <= i < out@.len() ==> exists|j: int| 0 <= j < done.len() && #[trigger] out@[i] == done[j],
            forall|j: int| 0 <= j < done.len() ==> out@.contains(#[trigger] done[j]),
            forall|i: int, j: int|
                0 <= i < j < out@.len() ==> ranks_before(entry_view(#[trigger] out@[i]), entry_view(#[trigger] out@[j])),
        decreases rest.len(),
    {
        let ghost before_rest = rest@;
        let x = rest.remove(0);
        let ghost xv = x;
        assert(before_rest =~= seq![xv] + rest@);
        assert(all[done.len() as int] == xv);
        let ghost before = out@;
        let mut p: usize = 0;
        while p < out.len() && entry_ranks_before(&out[p], &x)
            invariant
                0 <= p <= out@.len(),
                out@ == before,
                entries_ok(before, max@),
                max@ <= usize::MAX,
                xv == x,
                x.0@ == pattern_signature(x.1),
                pattern_gates(x.1) <= max@,
                forall|i: int| 0 <= i < p ==> ranks_before(entry_view(#[trigger] before[i]), entry_view(xv)),
            decreases out.len() - p,
        {
            p = p + 1;
        }
        proof {
            if p < out.len() {
                lemma_ranks_total(entry_view(before[p as int]), entry_view(xv));
            }
            assert forall|i: int| 0 <= i < before.len() implies (#[trigger] before[i]).0@ != xv.0@ by {
                let j = choose|j: int| 0 <= j < done.len() && before[i] == done[j];
                assert(all[j] == done[j]);
            }
        }
        out.insert(p, x);
        proof {
            let after = out@;
            assert(after =~= before.insert(p as int, xv));
            assert forall|i: int, j: int| 0 <= i < j < after.len() implies ranks_before(
                entry_view(#[trigger] after[i]),
                entry_view(#[trigger] after[j]),
            ) by {
                if j < p {
                    assert(after[i] == before[i] && after[j] == before[j]);
                } else if j == p {
                    assert(after[i] == before[i]);
                } else if i == p {
                    assert(after[j] == before[j - 1]);
                    if j - 1 > p {
                        lemma_ranks_trans(entry_view(xv), entry_view(before[p as int]), entry_view(before[j - 1]));
                    }
                } else if i < p {
                    assert(after[i] == before[i] && after[j] == before[j - 1]);
                } else {
                    assert(after[i] == before[i - 1] && after[j] == before[j - 1]);
                }
            }
            assert forall|i: int, j: int| 0 <= i < j < after.len() implies (#[trigger] after[i]).0@
                != (#[trigger] after[j]).0@ by {
                if j < p {
                    assert(after[i] == before[i] && after[j] == before[j]);
                } else if j == p {
                    assert(after[i] == before[i]);
                } else if i == p {
                    assert(after[j] == before[j - 1]);
                } else if i < p {
                    assert(after[i] == before[i] && after[j] == before[j - 1]);
                } else {
                    assert(after[i] == before[i - 1] && after[j] == before[j - 1]);
                }
            }
            assert forall|i: int| 0 <= i < after.len() implies (#[trigger] after[i]).0@ == pattern_signature(after[i].1)
                && 2 <= pattern_gates(after[i].1) && pattern_gates(after[i].1) <= max@ by {
                if i < p {
                    assert(after[i] == before[i]);
                } else if i > p {
                    assert(after[i] == before[i - 1]);
                }
            }
            let done2 = done.push(xv);
            assert forall|i: int| 0 <= i < after.len() implies exists|j: int| 0 <= j < done2.len() && #[trigger] after[i] == done2[j] by {
                if i < p {
                    assert(after[i] == before[i]);
                    let j = choose|j: int| 0 <= j < done.len() && before[i] == done[j];
                    assert(done2[j] == done[j]);
                } else if i > p {
                    assert(after[i] == before[i - 1]);
                    let j = choose|j: int| 0 <= j < done.len() && before[i - 1] == done[j];
                    assert(done2[j] == done[j]);
                } else {
                    assert(done2[done.len() as int] == xv);
                }
            }
            assert forall|j: int| 0 <= j < done2.len() implies after.contains(#[trigger] done2[j]) by {
                if j < done.len() {
                    assert(done2[j] == done[j]);
                    assert(before.contains(done[j]));
                    let q = choose|q: int| 0 <= q < before.len() && before[q] == done[j];
                    if q < p {
                        assert(after[q] == before[q]);
                    } else {
                        assert(after[q + 1] == before[q]);
                    }
                } else {
                    assert(after[p as int] == xv);
                }
            }
            done = done2;
            assert(all =~= done + rest@);
        }
    }
    assert(done =~= all);
    assert forall|i: int| 0 <= i < out@.len() implies v@.contains(#[trigger] out@[i]) by {
        let j = choose|j: int| 0 <= j < done.len() && out@[i] == done[j];
        assert(v0[j] == done[j]);
    }
    out
}

/// Whether some string of `seen` holds `x`.
pub open spec fn seen_has(seen: Seq<String>, x: Seq<char>) -> bool {
    exists|i: int| 0 <= i < seen.len() && (#[trigger] seen[i])@ == x
}

fn find_string(v: &Vec<String>, x: &String) -> (r: Option<usize>)
    ensures
        r matches Some(k) ==> k < v@.len() && v@[k as int]@ == x@ && forall|j: int| 0 <= j < k ==> (#[trigger] v@[j])@ != x@,
        r is None ==> !seen_has(v@, x@),
{
    let mut i: usize = 0;
    while i < v.len()
        invariant
            0 <= i <= v@.len(),
            forall|j: int| 0 <= j < i ==> (#[trigger] v@[j])@ != x@,
        decreases v.len() - i,
    {
        if same_string(&v[i], x) {
            return Some(i);
        }
        i = i + 1;
    }
    None
}

/// `a` ranks no lower than `b` (see `ranks_before`), over pattern values.
pub open spec fn ranks_before_m(a: (PModel, nat), b: (PModel, nat)) -> bool {
    a.1 > b.1 || (a.1 == b.1 && (mgates(a.0) > mgates(b.0) || (mgates(a.0) == mgates(b.0) && chars_le(
        msig(a.0),
        msig(b.0),
    ))))
}

proof fn lemma_ranks_model(a: (PatternExpr, usize), b: (PatternExpr, usize))
    ensures
        ranks_before(a, b) == ranks_before_m((pmodel(a.0), a.1 as nat), (pmodel(b.0), b.1 as nat)),
{
    lemma_model_measures(a.0);
    lemma_model_measures(b.0);
}

/// The position of the count keyed `sig` in `cs[k..]` (-1 when none).
pub open spec fn count_pos(cs: Seq<(Seq<char>, PModel, nat)>, k: nat, sig: Seq<char>) -> int
    decreases cs.len() - k,
{
    if k >= cs.len() {
        -1
    } else if cs[k as int].0 == sig {
        k as int
    } else {
        count_pos(cs, k + 1, sig)
    }
}

proof fn lemma_count_pos_at(cs: Seq<(Seq<char>, PModel, nat)>, k: nat, sig: Seq<char>, at: int)
    requires
        k <= at < cs.len(),
        cs[at].0 == sig,
        forall|j: int| k <= j < at ==> (#[trigger] cs[j]).0 != sig,
    ensures
        count_pos(cs, k, sig) == at,
    decreases cs.len() - k,
{
    if k < at {
        lemma_count_pos_at(cs, k + 1, sig, at);
    }
}

proof fn lemma_count_pos_none(cs: Seq<(Seq<char>, PModel, nat)>, k: nat, sig: Seq<char>)
    requires
        forall|j: int| k <= j < cs.len() ==> (#[trigger] cs[j]).0 != sig,
    ensures
        count_pos(cs, k, sig) == -1,
    decreases cs.len() - k,
{
    if k < cs.len() {
        lemma_count_pos_none(cs, k + 1, sig);
    }
}

/// One more node supports `p` (keyed `sig`): its count goes up, or it is
/// counted for the first time.
pub open spec fn counts_insert(cs: Seq<(Seq<char>, PModel, nat)>, sig: Seq<char>, p: PModel) -> Seq<
    (Seq<char>, PModel, nat),
> {
    let i = count_pos(cs, 0, sig);
    if i >= 0 {
        cs.update(i, (cs[i].0, cs[i].1, cs[i].2 + 1))
    } else {
        cs.push((sig, p, 1))
    }
}

/// The counts after the patterns `ps[k..]` of one node: each signature of
/// 2 to `max` gates is counted once per node (`seen` holds those already
/// counted for it).
pub open spec fn count_node(
    cs: Seq<(Seq<char>, PModel, nat)>,
    seen: Seq<Seq<char>>,
    ps: Seq<PModel>,
    k: nat,
    max: nat,
) -> Seq<(Seq<char>, PModel, nat)>
    decreases ps.len() - k,
{
    if k >= ps.len() {
        cs
    } else {
        let p = ps[k as int];
        if mgates(p) < 2 || mgates(p) > max || seen.contains(msig(p)) {
            count_node(cs, seen, ps, k + 1, max)
        } else {
            count_node(counts_insert(cs, msig(p), p), seen.push(msig(p)), ps, k + 1, max)
        }
    }
}

/// The memo and the counts after mining the nodes from `node` on, each
/// with a budget of `max` gates and an empty path.
pub open spec fn mine_nodes(
    g: MiningGraph,
    lib: Seq<String>,
    memo: Seq<(usize, usize, Seq<PModel>)>,
    node: nat,
    max: usize,
    cs: Seq<(Seq<char>, PModel, nat)>,
) -> (Seq<(usize, usize, Seq<PModel>)>, Seq<(Seq<char>, PModel, nat)>)
    decreases g.nodes@.len() - node,
{
    if node >= g.nodes@.len() {
        (memo, cs)
    } else {
        let r = pfn(g, lib, memo, node as usize, max, Seq::empty());
        mine_nodes(g, lib, r.0, node + 1, max, count_node(cs, Seq::empty(), r.1, 0, max as nat))
    }
}

/// The support counts of a mining run: signature, pattern and the number
/// of nodes that root it, in first-seen order.
pub open spec fn mined_counts(gs: GSpan) -> Seq<(Seq<char>, PModel, nat)> {
    mine_nodes(
        gs.graph,
        gs.lib_gates@,
        memo_model(gs.memo@),
        0,
        gs.config.max_pattern_size,
        Seq::empty(),
    ).1
}

/// The counts held as parallel lists.
pub open spec fn cmodel(keys: Seq<String>, pats: Seq<PatternExpr>, sups: Seq<usize>) -> Seq<
    (Seq<char>, PModel, nat),
> {
    Seq::new(keys.len(), |i: int| (keys[i]@, pmodel(pats[i]), sups[i] as nat))
}

pub open spec fn strs(v: Seq<String>) -> Seq<Seq<char>> {
    v.map_values(|x: String| x@)
}

/// Signatures and patterns with distinct signatures, each its pattern's.
pub open spec fn keyed_ok(keys: Seq<String>, pats: Seq<PatternExpr>, max: nat) -> bool {
    &&& keys.len() == pats.len()
    &&& forall|i: int| 0 <= i < keys.len() ==> (#[trigger] keys[i])@ == pattern_signature(pats[i])
    &&& forall|i: int|
        0 <= i < pats.len() ==> 2 <= pattern_gates(#[trigger] pats[i]) && pattern_gates(pats[i]) <= max
    &&& forall|i: int, j: int| 0 <= i < j < keys.len() ==> (#[trigger] keys[i])@ != (#[trigger] keys[j])@
}

/// A miner built from `graph`, the cell names of `cells` in library
/// order, and `config`, with an empty memo.
pub open spec fn fresh_miner(
    gs: GSpan,
    graph: MiningGraph,
    cells: Seq<(String, Vec<(String, PinDirection)>)>,
    config: MiningConfig,
) -> bool {
    &&& gs.graph == graph
    &&& gs.config == config
    &&& gs.memo@.len() == 0
    &&& gs.lib_gates@.len() == cells.len()
    &&& forall|i: int| 0 <= i < cells.len() ==> (#[trigger] gs.lib_gates@[i])@ == cells[i].0@
}

/// What mining with `gs` returns: at most `top_k` patterns of 2 to
/// `max_pattern_size` gates, each a counted pattern with its support of at
/// least `min_support`, ranked and distinct by signature, and every
/// counted pattern with enough support among them unless the list is full
/// of patterns ranked before it.
pub open spec fn mine_result(gs: GSpan, r: Seq<(PatternExpr, usize)>) -> bool {
    &&& (r.len() <= gs.config.top_k)
    &&& (forall|i: int|
                0 <= i < r.len() ==> 2 <= pattern_gates((#[trigger] r[i]).0) && pattern_gates(r[i].0)
                    <= gs.config.max_pattern_size && r[i].1 >= gs.config.min_support
                    && r[i].1 <= gs.graph.nodes@.len())
    &&& (forall|i: int, j: int|
                0 <= i < j < r.len() ==> ranks_before(#[trigger] r[i], #[trigger] r[j]))
    &&& (forall|i: int, j: int|
                0 <= i < j < r.len() ==> pattern_signature((#[trigger] r[i]).0) != pattern_signature(
                    (#[trigger] r[j]).0,
                ))
    &&& (forall|i: int|
                #![trigger r[i]]
                0 <= i < r.len() ==> exists|j: int|
                    0 <= j < mined_counts(gs).len() && (#[trigger] mined_counts(gs)[j]).1
                        == pmodel(r[i].0) && mined_counts(gs)[j].2 == r[i].1)
    &&& (forall|j: int|
                0 <= j < mined_counts(gs).len() && (#[trigger] mined_counts(gs)[j]).2
                    >= gs.config.min_support ==> (exists|i: int|
                    0 <= i < r.len() && pmodel((#[trigger] r[i]).0) == mined_counts(gs)[j].1
                        && r[i].1 == mined_counts(gs)[j].2) || (r.len()
                    == gs.config.top_k && forall|i: int|
                    0 <= i < r.len() ==> ranks_before_m(
                        (pmodel((#[trigger] r[i]).0), r[i].1 as nat),
                        (mined_counts(gs)[j].1, mined_counts(gs)[j].2),
                    )))
}

impl GSpan {
    /// The most frequent patterns: every node's patterns of 2 to
    /// `max_pattern_size` gates are counted once per node by signature,
    /// those with at least `min_support` nodes are ranked by support, then
    /// gate count, then signature, and the first `top_k` are returned.
    pub fn mine(&mut self) -> (r: Vec<(PatternExpr, usize)>)
        requires
            old(self).inv(),
        ensures
            final(self).inv(),
            final(self).graph == old(self).graph,
            final(self).config == old(self).config,
            final(self).lib_gates@ == old(self).lib_gates@,
            memo_model(final(self).memo@) == mine_nodes(
                old(self).graph,
                old(self).lib_gates@,
                memo_model(old(self).memo@),
                0,
                old(self).config.max_pattern_size,
                Seq::empty(),
            ).0,
            mine_result(*old(self), r@),
    {
        let ghost g = self.graph;
        let ghost lib = self.lib_gates@;
        let ghost m0 = memo_model(self.memo@);
        let ghost cs_final = mined_counts(*self);
        let n = self.graph.nodes.len();
        let max = self.config.max_pattern_size;
        let mut keys: Vec<String> = Vec::new();
        let mut pats: Vec<PatternExpr> = Vec::new();
        let mut supports: Vec<usize> = Vec::new();
        let mut node: usize = 0;
        assert(cmodel(keys@, pats@, supports@) =~= Seq::<(Seq<char>, PModel, nat)>::empty());
        while node < n
            invariant
                0 <= node <= n,
                self.inv(),
                n == self.graph.nodes@.len(),
                max == self.config.max_pattern_size,
                self.graph == old(self).graph,
                self.config == old(self).config,
                keyed_ok(keys@, pats@, max as nat),
                supports@.len() == keys@.len(),
                forall|i: int| 0 <= i < supports@.len() ==> 1 <= #[trigger] supports@[i] <= node,
                g == self.graph,
                lib == self.lib_gates@,
                cs_final == mine_nodes(g, lib, m0, 0, max, Seq::empty()).1,
                mine_nodes(g, lib, memo_model(self.memo@), node as nat, max, cmodel(keys@, pats@, supports@))
                    == mine_nodes(g, lib, m0, 0, max, Seq::empty()),
            decreases n - node,
        {
            let mut stack: Vec<usize> = Vec::new();
            assert(stack@ =~= Seq::<usize>::empty());
            let ghost c_start = cmodel(keys@, pats@, supports@);
            let patterns = self.enumerate_patterns_for_node(node, max, &mut stack);
            let ghost pm = pms(patterns@);
            let mut seen: Vec<String> = Vec::new();
            assert(strs(seen@) =~= Seq::<Seq<char>>::empty());
            let mut rest = patterns;
            let ghost mut t: nat = 0;
            while rest.len() > 0
                invariant
                    within_budget(rest@, max as nat),
                    node < n,
                    keyed_ok(keys@, pats@, max as nat),
                    supports@.len() == keys@.len(),
                    t <= pm.len(),
                    pms(rest@) == pm.skip(t as int),
                    count_node(cmodel(keys@, pats@, supports@), strs(seen@), pm, t, max as nat) == count_node(
                        c_start,
                        Seq::empty(),
                        pm,
                        0,
                        max as nat,
                    ),
                    forall|i: int|
                        0 <= i < supports@.len() ==> 1 <= #[trigger] supports@[i] <= node + (if seen_has(
                            seen@,
                            keys@[i]@,
                        ) {
                            1int
                        } else {
                            0int
                        }),
                decreases rest.len(),
            {
                let ghost before = rest@;
                let p = rest.remove(0);
                assert(pattern_gates(p) <= max) by {
                    assert(before[0] == p);
                }
                assert forall|j: int| 0 <= j < rest@.len() implies pattern_gates(#[trigger] rest@[j]) <= max by {
                    assert(rest@[j] == before[j + 1]);
                }
                let ghost cm = cmodel(keys@, pats@, supports@);
                let ghost sm = strs(seen@);
                proof {
                    assert(pms(before).len() == pm.skip(t as int).len());
                    assert(pm.skip(t as int)[0] == pm[t as int]);
                    assert(pms(before)[0] == pmodel(before[0]));
                    assert(pmodel(p) == pm[t as int]);
                    lemma_model_measures(p);
                    assert forall|j: int| 0 <= j < rest@.len() implies #[trigger] pms(rest@)[j] == pm.skip(
                        (t + 1) as int,
                    )[j] by {
                        assert(rest@[j] == before[j + 1]);
                        assert(pms(before)[j + 1] == pm.skip(t as int)[j + 1]);
                    }
                    assert(pms(rest@) =~= pm.skip((t + 1) as int));
                    t = t + 1;
                }
                let g = p.gate_count();
                if g >= 2 && g <= max {
                    let sig = p.signature();
                    match find_string(&seen, &sig) {
                        Some(q) => {
                            assert(sm[q as int] == sig@);
                        },
                        None => {
                            assert(!sm.contains(sig@)) by {
                                if sm.contains(sig@) {
                                    let q = choose|q: int| 0 <= q < sm.len() && sm[q] == sig@;
                                    assert(seen@[q]@ == sig@);
                                }
                            }
                            let ghost seen_before = seen@;
                            seen.push(copy_string(&sig));
                            assert(seen@[seen@.len() - 1]@ == sig@);
                            assert forall|x: Seq<char>| seen_has(seen_before, x) implies seen_has(seen@, x) by {
                                if seen_has(seen_before, x) {
                                    let i = choose|i: int| 0 <= i < seen_before.len() && (#[trigger] seen_before[i])@ == x;
                                    assert(seen@[i] == seen_before[i]);
                                }
                            }
                            assert(strs(seen@) =~= sm.push(sig@));
                            match find_string(&keys, &sig) {
                                Some(k) => {
                                    let c = supports[k];
                                    assert(!seen_has(seen_before, keys@[k as int]@));
                                    proof {
                                        lemma_count_pos_at(cm, 0, sig@, k as int);
                                    }
                                    supports.set(k, c + 1);
                                    assert(seen_has(seen@, keys@[k as int]@));
                                    assert(cmodel(keys@, pats@, supports@) =~= counts_insert(cm, sig@, pmodel(p)));
                                },
                                None => {
                                    proof {
                                        assert forall|j: int| 0 <= j < cm.len() implies (#[trigger] cm[j]).0 != sig@ by {
                                            if cm[j].0 == sig@ {
                                                assert(keys@[j]@ == sig@);
                                            }
                                        }
                                        lemma_count_pos_none(cm, 0, sig@);
                                    }
                                    let ghost pv = pmodel(p);
                                    keys.push(sig);
                                    pats.push(p);
                                    supports.push(1);
                                    assert(seen_has(seen@, keys@[keys@.len() - 1]@));
                                    assert(cmodel(keys@, pats@, supports@) =~= counts_insert(cm, sig@, pv));
                                },
                            }
                        },
                    }
                }
            }
            node = node + 1;
        }
        let mut entries: Vec<(String, PatternExpr, usize)> = Vec::new();
        let ghost all_keys = keys@;
        let ghost all_pats = pats@;
        let ghost all_supports = supports@;
        let mut i: usize = 0;
        let total = keys.len();
        while i < total
            invariant
                0 <= i <= total,
                total == all_keys.len(),
                keyed_ok(all_keys, all_pats, max as nat),
                all_supports.len() == all_keys.len(),
                keys@ == all_keys.skip(i as int),
                pats@ == all_pats.skip(i as int),
                supports@ == all_supports,
                forall|k: int| 0 <= k < all_supports.len() ==> 1 <= #[trigger] all_supports[k] <= n,
                entries_ok(entries@, max as nat),
                forall|k: int| 0 <= k < entries@.len() ==> (#[trigger] entries@[k]).2 >= self.config.min_support
                    && entries@[k].2 <= n,
                forall|k: int|
                    0 <= k < entries@.len() ==> exists|j: int| 0 <= j < i && (#[trigger] entries@[k]).0@ == all_keys[j]@,
                forall|k: int|
                    0 <= k < entries@.len() ==> exists|j: int|
                        0 <= j < i && #[trigger] entries@[k] == (all_keys[j], all_pats[j], all_supports[j]),
                forall|j: int|
                    0 <= j < i && all_supports[j] >= self.config.min_support ==> entries@.contains(
                        (#[trigger] all_keys[j], all_pats[j], all_supports[j]),
                    ),
            decreases total - i,
        {
            let ghost kb = keys@;
            let ghost pb = pats@;
            let key = keys.remove(0);
            let pat = pats.remove(0);
            assert(kb[0] == all_keys[i as int]);
            assert(pb[0] == all_pats[i as int]);
            assert(keys@ =~= all_keys.skip(i + 1));
            assert(pats@ =~= all_pats.skip(i + 1));
            let support = supports[i];
            if support >= self.config.min_support {
                let ghost eb = entries@;
                entries.push((key, pat, support));
                proof {
                    assert forall|a: int, b: int| 0 <= a < b < entries@.len() implies (#[trigger] entries@[a]).0@
                        != (#[trigger] entries@[b]).0@ by {
                        if b == entries@.len() - 1 {
                            assert(entries@[a] == eb[a]);
                            let j = choose|j: int| 0 <= j < i && eb[a].0@ == all_keys[j]@;
                        } else {
                            assert(entries@[a] == eb[a] && entries@[b] == eb[b]);
                        }
                    }
                    assert forall|k: int| 0 <= k < entries@.len() implies exists|j: int| 0 <= j < i + 1 && (#[trigger] entries@[k]).0@ == all_keys[j]@ by {
                        if k < entries@.len() - 1 {
                            assert(entries@[k] == eb[k]);
                            let j = choose|j: int| 0 <= j < i && eb[k].0@ == all_keys[j]@;
                        } else {
                            assert(entries@[k].0@ == all_keys[i as int]@);
                        }
                    }
                    let tup = (all_keys[i as int], all_pats[i as int], all_supports[i as int]);
                    assert(entries@[entries@.len() - 1] == tup);
                    assert forall|k: int| 0 <= k < entries@.len() implies exists|j: int|
                        0 <= j < i + 1 && #[trigger] entries@[k] == (all_keys[j], all_pats[j], all_supports[j]) by {
                        if k < entries@.len() - 1 {
                            assert(entries@[k] == eb[k]);
                            let j = choose|j: int|
                                0 <= j < i && #[trigger] eb[k] == (all_keys[j], all_pats[j], all_supports[j]);
                        } else {
                            assert(entries@[k] == tup);
                        }
                    }
                    assert forall|j: int|
                        0 <= j < i + 1 && all_supports[j] >= self.config.min_support implies entries@.contains(
                        (#[trigger] all_keys[j], all_pats[j], all_supports[j]),
                    ) by {
                        if j < i {
                            let t2 = (all_keys[j], all_pats[j], all_supports[j]);
                            assert(eb.contains(t2));
                            let q = choose|q: int| 0 <= q < eb.len() && eb[q] == t2;
                            assert(entries@[q] == eb[q]);
                        } else {
                            assert(entries@[entries@.len() - 1] == tup);
                        }
                    }
                }
            } else {
                assert forall|k: int| 0 <= k < entries@.len() implies exists|j: int|
                    0 <= j < i + 1 && #[trigger] entries@[k] == (all_keys[j], all_pats[j], all_supports[j]) by {
                    let j = choose|j: int|
                        0 <= j < i && #[trigger] entries@[k] == (all_keys[j], all_pats[j], all_supports[j]);
                }
            }
            i = i + 1;
        }
        let ghost ents = entries@;
        let ghost cfin = cmodel(all_keys, all_pats, all_supports);
        assert(cfin == cs_final);
        let mut sorted = sort_entries(entries, Ghost(max as nat));
        let ghost sfull = sorted@;
        let k = self.config.top_k;
        sorted.truncate(k);
        assert(sorted@ == if k < sfull.len() { sfull.take(k as int) } else { sfull });
        let mut out: Vec<(PatternExpr, usize)> = Vec::new();
        let mut rest = sorted;
        let ghost all_sorted = rest@;
        let ghost mut taken: nat = 0;
        while rest.len() > 0
            invariant
                all_sorted.len() <= self.config.top_k,
                rest@ == all_sorted.skip(taken as int),
                taken <= all_sorted.len(),
                out@.len() == taken,
                forall|a: int| 0 <= a < taken ==> #[trigger] out@[a] == entry_view(all_sorted[a]),
            decreases rest.len(),
        {
            let ghost rb = rest@;
            let (_, p, c) = rest.remove(0);
            assert(rb[0] == all_sorted[taken as int]);
            out.push((p, c));
            proof {
                taken = taken + 1;
                assert(rest@ =~= all_sorted.skip(taken as int));
            }
        }
        proof {
            assert(all_sorted.skip(taken as int).len() == 0);
            let min = self.config.min_support;
            assert forall|i: int| #![trigger out@[i]] 0 <= i < out@.len() implies exists|j: int|
                0 <= j < cfin.len() && (#[trigger] cfin[j]).1 == pmodel(out@[i].0) && cfin[j].2 == out@[i].1 by {
                assert(all_sorted[i] == sfull[i]);
                assert(ents.contains(sfull[i]));
                let q = choose|q: int| 0 <= q < ents.len() && ents[q] == sfull[i];
                let j = choose|j: int|
                    0 <= j < total && #[trigger] ents[q] == (all_keys[j], all_pats[j], all_supports[j]);
                assert(cfin[j].1 == pmodel(all_pats[j]));
            }
            assert forall|j: int|
                0 <= j < cfin.len() && (#[trigger] cfin[j]).2 >= min implies (exists|i: int|
                0 <= i < out@.len() && pmodel((#[trigger] out@[i]).0) == cfin[j].1 && out@[i].1 == cfin[j].2)
                || (out@.len() == k && forall|i: int|
                0 <= i < out@.len() ==> ranks_before_m(
                    (pmodel((#[trigger] out@[i]).0), out@[i].1 as nat),
                    (cfin[j].1, cfin[j].2),
                )) by {
                let tj = (all_keys[j], all_pats[j], all_supports[j]);
                assert(all_supports[j] >= min);
                assert(ents.contains(tj));
                let q0 = choose|q0: int| 0 <= q0 < ents.len() && ents[q0] == tj;
                assert(sfull.contains(ents[q0]));
                let q = choose|q: int| 0 <= q < sfull.len() && sfull[q] == tj;
                if q < all_sorted.len() {
                    assert(all_sorted[q] == sfull[q]);
                    assert(out@[q] == entry_view(tj));
                } else {
                    assert(out@.len() == k);
                    assert forall|i: int| 0 <= i < out@.len() implies ranks_before_m(
                        (pmodel((#[trigger] out@[i]).0), out@[i].1 as nat),
                        (cfin[j].1, cfin[j].2),
                    ) by {
                        assert(all_sorted[i] == sfull[i]);
                        assert(ranks_before(entry_view(sfull[i]), entry_view(sfull[q])));
                        lemma_ranks_model(entry_view(sfull[i]), entry_view(sfull[q]));
                    }
                }
            }
        }
        out
    }
}

/// The number of inputs of a pattern.
pub open spec fn pattern_inputs(p: PatternExpr) -> nat
    decreases p,
{
    match p {
        PatternExpr::Input => 1,
        PatternExpr::Gate { children, .. } => patterns_inputs(children@),
    }
}

pub open spec fn patterns_inputs(cs: Seq<PatternExpr>) -> nat
    decreases cs,
{
    if cs.len() == 0 {
        0
    } else {
        patterns_inputs(cs.drop_last()) + pattern_inputs(cs.last())
    }
}

proof fn lemma_inputs_within_size(p: PatternExpr)
    ensures
        pattern_inputs(p) <= pattern_size(p),
    decreases p,
{
    match p {
        PatternExpr::Input => {},
        PatternExpr::Gate { children, .. } => {
            lemma_children_inputs_within_size(children@);
        },
    }
}

proof fn lemma_children_inputs_within_size(cs: Seq<PatternExpr>)
    ensures
        patterns_inputs(cs) <= patterns_size(cs),
    decreases cs,
{
    if cs.len() > 0 {
        lemma_children_inputs_within_size(cs.drop_last());
        lemma_inputs_within_size(cs.last());
    }
}

/// The name of the `k`-th input of a pattern netlist.
pub open spec fn input_name(k: nat) -> Seq<char> {
    "in_"@ + decimal(k)
}

/// The weight of the node that a pattern's root becomes, given the number
/// of inputs numbered before it.
pub open spec fn root_weight(p: PatternExpr, counter: nat) -> CellModel {
    match p {
        PatternExpr::Input => CellModel::Symbol(input_name(counter)),
        PatternExpr::Gate { op, .. } => CellModel::Symbol(op@),
    }
}

/// The node weights of a pattern in pre-order, its inputs numbered from
/// `counter`.
pub open spec fn pattern_nodes(p: PatternExpr, counter: nat) -> Seq<CellModel>
    decreases p,
{
    match p {
        PatternExpr::Input => seq![CellModel::Symbol(input_name(counter))],
        PatternExpr::Gate { op, children } => seq![CellModel::Symbol(op@)] + patterns_nodes(children@, counter),
    }
}

pub open spec fn patterns_nodes(cs: Seq<PatternExpr>, counter: nat) -> Seq<CellModel>
    decreases cs,
{
    if cs.len() == 0 {
        Seq::empty()
    } else {
        patterns_nodes(cs.drop_last(), counter) + pattern_nodes(
            cs.last(),
            counter + patterns_inputs(cs.drop_last()),
        )
    }
}

/// The edges of a pattern whose first node is `base`: each gate's children
/// in order, each child's own edges before the edge to it from its gate.
pub open spec fn pattern_edges(p: PatternExpr, base: nat) -> Seq<(usize, usize)>
    decreases p,
{
    match p {
        PatternExpr::Input => Seq::empty(),
        PatternExpr::Gate { children, .. } => patterns_edges(children@, base, base + 1),
    }
}

/// The edges of the children `cs` of gate `parent`, the first of
/// them at node `start`.
pub open spec fn patterns_edges(cs: Seq<PatternExpr>, parent: nat, start: nat) -> Seq<(usize, usize)>
    decreases cs,
{
    if cs.len() == 0 {
        Seq::empty()
    } else {
        let at = start + patterns_size(cs.drop_last());
        patterns_edges(cs.drop_last(), parent, start) + pattern_edges(cs.last(), at) + seq![
            (parent as usize, at as usize),
        ]
    }
}

/// The input nodes of a pattern whose first node is `base`, in order.
pub open spec fn pattern_leaves(p: PatternExpr, base: nat) -> Seq<usize>
    decreases p,
{
    match p {
        PatternExpr::Input => seq![base as usize],
        PatternExpr::Gate { children, .. } => patterns_leaves(children@, base + 1),
    }
}

pub open spec fn patterns_leaves(cs: Seq<PatternExpr>, start: nat) -> Seq<usize>
    decreases cs,
{
    if cs.len() == 0 {
        Seq::empty()
    } else {
        patterns_leaves(cs.drop_last(), start) + pattern_leaves(cs.last(), start + patterns_size(cs.drop_last()))
    }
}

fn build_pattern(expr: &PatternExpr, netlist: &mut Netlist<StdCellType>, counter: &mut usize) -> (r: usize)
    requires
        old(netlist).wf(),
        old(netlist).nodes@.len() + pattern_size(*expr) <= usize::MAX,
        *old(counter) + pattern_inputs(*expr) <= usize::MAX,
    ensures
        final(netlist).wf(),
        r == old(netlist).nodes@.len(),
        final(netlist).nodes@.len() == old(netlist).nodes@.len() + pattern_size(*expr),
        final(netlist).nodes@[r as int]@ == root_weight(*expr, *old(counter) as nat),
        final(netlist).nodes@.map_values(|w: StdCellType| w@) == old(netlist).nodes@.map_values(|w: StdCellType| w@)
            + pattern_nodes(*expr, *old(counter) as nat),
        final(netlist).edges@ == old(netlist).edges@ + pattern_edges(*expr, old(netlist).nodes@.len() as nat),
        final(netlist).leaves@ == old(netlist).leaves@ + pattern_leaves(*expr, old(netlist).nodes@.len() as nat),
        final(netlist).roots@ == old(netlist).roots@,
        forall|k: int|
            0 <= k < old(netlist).nodes@.len() ==> #[trigger] final(netlist).nodes@[k]
                == old(netlist).nodes@[k],
        final(netlist).leaves@.len() == old(netlist).leaves@.len() + pattern_inputs(*expr),
        *final(counter) == *old(counter) + pattern_inputs(*expr),
        final(netlist).edges@.len() >= old(netlist).edges@.len(),
        forall|k: int|
            0 <= k < old(netlist).edges@.len() ==> #[trigger] final(netlist).edges@[k]
                == old(netlist).edges@[k],
        forall|k: int|
            old(netlist).edges@.len() <= k < final(netlist).edges@.len() ==> old(netlist).nodes@.len()
                <= (#[trigger] final(netlist).edges@[k]).0,
    decreases pattern_size(*expr),
{
    match expr {
        PatternExpr::Input => {
            let mut name: Vec<char> = Vec::new();
            push_str(&mut name, "in_");
            push_decimal(&mut name, *counter);
            *counter = *counter + 1;
            let nid = netlist.add_node(StdCellType::Symbol(string_of(name.as_slice())));
            netlist.leaves.push(nid);
            nid
        },
        PatternExpr::Gate { op, children } => {
            let oid = netlist.add_node(StdCellType::Symbol(copy_string(op)));
            let ghost start_nodes = netlist.nodes@.len();
            let ghost start_seq = netlist.nodes@;
            let ghost start_edges = old(netlist).edges@;
            let ghost start_leaves = netlist.leaves@.len();
            let ghost start_counter = *counter;
            let ghost start_view = netlist.nodes@.map_values(|w: StdCellType| w@);
            let ghost start_leaf_seq = netlist.leaves@;
            assert(start_view =~= old(netlist).nodes@.map_values(|w: StdCellType| w@).push(CellModel::Symbol(op@)));
            assert(children@.take(0) =~= Seq::<PatternExpr>::empty());
            assert(netlist.edges@ =~= start_edges + patterns_edges(children@.take(0), oid as nat, (oid + 1) as nat));
            assert(netlist.leaves@ =~= start_leaf_seq + patterns_leaves(children@.take(0), (oid + 1) as nat));
            assert(netlist.nodes@.map_values(|w: StdCellType| w@) =~= start_view + patterns_nodes(children@.take(0), start_counter as nat));
            let mut i: usize = 0;
            while i < children.len()
                invariant
                    0 <= i <= children@.len(),
                    start_leaf_seq == old(netlist).leaves@,
                    start_view == old(netlist).nodes@.map_values(|w: StdCellType| w@).push(CellModel::Symbol(op@)),
                    netlist.nodes@.map_values(|w: StdCellType| w@) == start_view + patterns_nodes(children@.take(i as int), start_counter as nat),
                    netlist.edges@ == start_edges + patterns_edges(children@.take(i as int), oid as nat, (oid + 1) as nat),
                    netlist.leaves@ == start_leaf_seq + patterns_leaves(children@.take(i as int), (oid + 1) as nat),
                    netlist.wf(),
                    oid == old(netlist).nodes@.len(),
                    oid < netlist.nodes@.len(),
                    netlist.nodes@[oid as int]@ == CellModel::Symbol(op@),
                    netlist.nodes@.len() == start_nodes + patterns_size(children@.take(i as int)),
                    start_nodes == oid + 1,
                    start_seq.len() == start_nodes,
                    start_seq[oid as int]@ == CellModel::Symbol(op@),
                    forall|k: int| 0 <= k < oid ==> #[trigger] start_seq[k] == old(netlist).nodes@[k],
                    forall|k: int| 0 <= k < start_nodes ==> #[trigger] netlist.nodes@[k] == start_seq[k],
                    *counter == start_counter + patterns_inputs(children@.take(i as int)),
                    start_counter == *old(counter),
                    netlist.leaves@.len() == start_leaves + patterns_inputs(children@.take(i as int)),
                    start_leaves == old(netlist).leaves@.len(),
                    netlist.roots@ == old(netlist).roots@,
                    old(netlist).nodes@.len() + pattern_size(*expr) <= usize::MAX,
                    *old(counter) + pattern_inputs(*expr) <= usize::MAX,
                    *expr == (PatternExpr::Gate { op: *op, children: *children }),
                    start_edges == old(netlist).edges@,
                    netlist.edges@.len() >= start_edges.len(),
                    forall|k: int| 0 <= k < start_edges.len() ==> #[trigger] netlist.edges@[k] == start_edges[k],
                    forall|k: int|
                        start_edges.len() <= k < netlist.edges@.len() ==> oid <= (
                        #[trigger] netlist.edges@[k]).0,
                decreases children.len() - i,
            {
                proof {
                    lemma_child_measures(children@, i as int);
                    lemma_prefix_measures(children@, i as int);
                    assert(children@.take(i + 1).drop_last() =~= children@.take(i as int));
                }
                let ghost mid_edges = netlist.edges@;
                let ghost mid_view = netlist.nodes@.map_values(|w: StdCellType| w@);
                let ghost mid_leaves = netlist.leaves@;
                let ghost mid_counter = *counter;
                let iid = build_pattern(&children[i], netlist, counter);
                let ghost after_edges = netlist.edges@;
                netlist.add_edge(oid, iid);
                proof {
                    let pre = children@.take(i as int);
                    let cur = children@.take(i + 1);
                    assert(cur.drop_last() =~= pre);
                    assert(cur.last() == children@[i as int]);
                    assert(netlist.edges@ =~= after_edges.push((oid, iid)));
                    assert(netlist.edges@ =~= start_edges + patterns_edges(cur, oid as nat, (oid + 1) as nat));
                    assert(netlist.leaves@ =~= start_leaf_seq + patterns_leaves(cur, (oid + 1) as nat));
                    assert(netlist.nodes@.map_values(|w: StdCellType| w@) =~= start_view + patterns_nodes(cur, start_counter as nat));
                }
                i = i + 1;
            }
            assert(children@.take(i as int) =~= children@);
            oid
        },
    }
}

proof fn lemma_prefix_measures(cs: Seq<PatternExpr>, i: int)
    requires
        0 <= i < cs.len(),
    ensures
        patterns_size(cs.take(i + 1)) <= patterns_size(cs),
        patterns_inputs(cs.take(i + 1)) <= patterns_inputs(cs),
    decreases cs.len() - i,
{
    if i + 1 < cs.len() {
        lemma_prefix_measures(cs, i + 1);
        assert(cs.take(i + 2).drop_last() =~= cs.take(i + 1));
    } else {
        assert(cs.take(i + 1) =~= cs);
    }
}

proof fn lemma_no_fanins(edges: Seq<(usize, usize)>, node: int)
    requires
        forall|k: int| 0 <= k < edges.len() ==> (#[trigger] edges[k]).0 < node,
    ensures
        fanins_of(edges, node) =~= Seq::<usize>::empty(),
    decreases edges.len(),
{
    if edges.len() > 0 {
        lemma_no_fanins(edges.drop_last(), node);
    }
}

/// The netlist of a pattern: its gates and inputs in pre-order (inputs
/// named `in_0`, `in_1`, ... in that order and listed as leaves), and one
/// output node `out_0` driven by the pattern's root, which is node 0.
pub fn pattern_to_netlist(expr: &PatternExpr) -> (r: Netlist<StdCellType>)
    requires
        pattern_size(*expr) < usize::MAX,
    ensures
        r.wf(),
        r.nodes@.len() == pattern_size(*expr) + 1,
        r.nodes@[0]@ == root_weight(*expr, 0),
        r.nodes@[pattern_size(*expr) as int]@ == CellModel::Symbol("out_0"@),
        fanins_of(r.edges@, pattern_size(*expr) as int) == seq![0usize],
        r.roots@ == seq![pattern_size(*expr) as usize],
        r.leaves@.len() == pattern_inputs(*expr),
        r.nodes@.map_values(|w: StdCellType| w@) == pattern_nodes(*expr, 0).push(CellModel::Symbol("out_0"@)),
        r.edges@ == pattern_edges(*expr, 0).push((pattern_size(*expr) as usize, 0usize)),
        r.leaves@ == pattern_leaves(*expr, 0),
{
    let mut netlist: Netlist<StdCellType> = Netlist::new();
    let mut counter: usize = 0;
    proof {
        lemma_inputs_within_size(*expr);
    }
    assert(netlist.nodes@.map_values(|w: StdCellType| w@) =~= Seq::<CellModel>::empty());
    let root = build_pattern(expr, &mut netlist, &mut counter);
    let ghost edges_before = netlist.edges@;
    let ghost view_before = netlist.nodes@.map_values(|w: StdCellType| w@);
    let output = netlist.add_node(StdCellType::Symbol("out_0".to_string()));
    netlist.add_edge(output, root);
    netlist.roots.push(output);
    proof {
        lemma_no_fanins(edges_before, output as int);
        assert(netlist.edges@.drop_last() =~= edges_before);
        assert(netlist.nodes@.map_values(|w: StdCellType| w@) =~= view_before.push(CellModel::Symbol("out_0"@)));
        assert(edges_before =~= pattern_edges(*expr, 0));
        assert(netlist.leaves@ =~= pattern_leaves(*expr, 0));
    }
    netlist
}

/// `n` in decimal, padded with a leading zero to two digits.
pub open spec fn two_digits(n: nat) -> Seq<char> {
    if n < 10 {
        seq!['0'] + decimal(n)
    } else {
        decimal(n)
    }
}

/// The file name of the pattern of rank `rank`.
pub open spec fn pattern_file_name(rank: nat, support: nat, gates: nat) -> Seq<char> {
    "pattern_"@ + two_digits(rank) + "_support"@ + decimal(support) + "_size"@ + decimal(gates)
        + ".v"@
}

fn file_name(rank: usize, support: usize, gates: usize) -> (r: String)
    ensures
        r@ == pattern_file_name(rank as nat, support as nat, gates as nat),
{
    let mut v: Vec<char> = Vec::new();
    push_str(&mut v, "pattern_");
    if rank < 10 {
        v.push('0');
    }
    push_decimal(&mut v, rank);
    push_str(&mut v, "_support");
    push_decimal(&mut v, support);
    push_str(&mut v, "_size");
    push_decimal(&mut v, gates);
    push_str(&mut v, ".v");
    assert(v@ =~= pattern_file_name(rank as nat, support as nat, gates as nat));
    string_of(v.as_slice())
}

/// The (pattern, support) pairs of the exported patterns, in rank order.
pub open spec fn exported_pairs(ms: Seq<MinedPattern>) -> Seq<(PatternExpr, usize)> {
    ms.map_values(|m: MinedPattern| (m.expr, m.support))
}

/// An exported pattern of rank `rank` with the given support, under the
/// output directory `dir`.
pub open spec fn is_exported(m: MinedPattern, rank: nat, expr_support: (PatternExpr, usize)) -> bool {
    &&& m.rank == rank
    &&& m.expr == expr_support.0
    &&& m.support == expr_support.1
    &&& m.gate_count == pattern_gates(expr_support.0)
    &&& m.root_op@ == pattern_root(expr_support.0)
    &&& m.signature@ == pattern_signature(expr_support.0)
    &&& pattern_gates(m.expr) == pattern_gates(expr_support.0)
    &&& pattern_signature(m.expr) == pattern_signature(expr_support.0)
    &&& pattern_root(m.expr) == pattern_root(expr_support.0)
    &&& m.verilog_path@.len() >= pattern_file_name(rank, m.support as nat, m.gate_count as nat).len()
    &&& m.verilog_path@.subrange(
        m.verilog_path@.len() - pattern_file_name(rank, m.support as nat, m.gate_count as nat).len(),
        m.verilog_path@.len() as int,
    ) == pattern_file_name(rank, m.support as nat, m.gate_count as nat)
}

/// Mines `graph` with `config` and describes the export of the ranked
/// patterns under `output_dir`: pattern `k` (from 1) gets the file
/// `pattern_<kk>_support<s>_size<g>.v`.  The files themselves are written
/// by the caller.
pub fn mine_patterns_to_dir(
    graph: MiningGraph,
    library: &CellLibrary,
    config: MiningConfig,
    output_dir: &str,
) -> (r: Result<MiningSummary, String>)
    requires
        graph.wf(),
    ensures
        match library_error(library.cells@) {
            Some(m) => r matches Err(e) && e@ == m,
            None => r is Ok,
        },
        r matches Ok(summary) ==> {
            &&& summary.min_support == config.min_support
            &&& summary.max_pattern_size == config.max_pattern_size
            &&& summary.top_k == config.top_k
            &&& summary.egraph_nodes == graph.nodes@.len()
            &&& summary.egraph_classes == graph.classes@.len()
            &&& summary.exported_patterns@.len() <= config.top_k
            &&& forall|i: int|
                0 <= i < summary.exported_patterns@.len() ==> {
                    let m = #[trigger] summary.exported_patterns@[i];
                    &&& m.rank == i + 1
                    &&& 2 <= m.gate_count <= config.max_pattern_size
                    &&& m.gate_count == pattern_gates(m.expr)
                    &&& m.signature@ == pattern_signature(m.expr)
                    &&& m.root_op@ == pattern_root(m.expr)
                    &&& config.min_support <= m.support <= graph.nodes@.len()
                    &&& m.verilog_path@.len() >= pattern_file_name(m.rank as nat, m.support as nat, m.gate_count as nat).len()
                    &&& m.verilog_path@.subrange(
                        m.verilog_path@.len() - pattern_file_name(m.rank as nat, m.support as nat, m.gate_count as nat).len(),
                        m.verilog_path@.len() as int,
                    ) == pattern_file_name(m.rank as nat, m.support as nat, m.gate_count as nat)
                }
            &&& exists|gs: GSpan|
                fresh_miner(gs, graph, library.cells@, config) && #[trigger] mine_result(
                    gs,
                    exported_pairs(summary.exported_patterns@),
                )
            &&& forall|i: int, j: int|
                0 <= i < j < summary.exported_patterns@.len() ==> ranks_before(
                    ((#[trigger] summary.exported_patterns@[i]).expr, summary.exported_patterns@[i].support),
                    ((#[trigger] summary.exported_patterns@[j]).expr, summary.exported_patterns@[j].support),
                ) && summary.exported_patterns@[i].signature@ != summary.exported_patterns@[j].signature@
        },
{
    let egraph_nodes = graph.nodes.len();
    let egraph_classes = graph.classes.len();
    let mut miner = match GSpan::new(graph, library, config) {
        Ok(m) => m,
        Err(e) => {
            return Err(e);
        },
    };
    let ghost fresh: GSpan = miner;
    let mined = miner.mine();
    let ghost all = mined@;
    let mut exported: Vec<MinedPattern> = Vec::new();
    let mut rest = mined;
    let mut idx: usize = 0;
    while rest.len() > 0
        invariant
            rest@ == all.skip(idx as int),
            idx <= all.len(),
            all.len() <= miner.config.top_k,
            exported@.len() == idx,
            forall|i: int|
                0 <= i < all.len() ==> 2 <= pattern_gates((#[trigger] all[i]).0) && pattern_gates(all[i].0)
                    <= miner.config.max_pattern_size,
            forall|i: int| 0 <= i < idx ==> is_exported(#[trigger] exported@[i], (i + 1) as nat, all[i]),
        decreases rest.len(),
    {
        let ghost rb = rest@;
        let (expr, support) = rest.remove(0);
        assert(rb[0] == all[idx as int]);
        assert(rest@ =~= all.skip(idx + 1));
        let rank = idx + 1;
        let gates = expr.gate_count();
        let root_op = match &expr {
            PatternExpr::Gate { op, .. } => copy_string(op),
            PatternExpr::Input => "input".to_string(),
        };
        let signature = expr.signature();
        let name = file_name(rank, support, gates);
        let verilog_path = join_path(output_dir, &name);
        exported.push(MinedPattern { rank, support, gate_count: gates, root_op, signature, expr, verilog_path });
        idx = idx + 1;
    }
    proof {
        assert(exported_pairs(exported@) =~= all);
        assert(fresh_miner(fresh, graph, library.cells@, config));
        assert(mine_result(fresh, exported_pairs(exported@)));
    }
    Ok(
        MiningSummary {
            min_support: miner.config.min_support,
            max_pattern_size: miner.config.max_pattern_size,
            top_k: miner.config.top_k,
            egraph_nodes,
            egraph_classes,
            exported_patterns: exported,
        },
    )
}

proof fn lemma_gates_pointwise(a: Seq<PatternExpr>, b: Seq<PatternExpr>)
    requires
        a.len() == b.len(),
        forall|i: int| 0 <= i < a.len() ==> pattern_gates(#[trigger] a[i]) == pattern_gates(b[i]),
    ensures
        patterns_gates(a) == patterns_gates(b),
    decreases a.len(),
{
    if a.len() > 0 {
        lemma_gates_pointwise(a.drop_last(), b.drop_last());
        assert(pattern_gates(a[a.len() - 1]) == pattern_gates(b[b.len() - 1]));
    }
}

proof fn lemma_inputs_gates(s: Seq<PatternExpr>, m: int)
    requires
        0 <= m <= s.len(),
        forall|j: int| 0 <= j < s.len() ==> #[trigger] s[j] == PatternExpr::Input,
    ensures
        patterns_gates(s.take(m)) == 0,
    decreases m,
{
    if m > 0 {
        lemma_inputs_gates(s, m - 1);
        assert(s.take(m).drop_last() =~= s.take(m - 1));
        assert(s.take(m).last() == s[m - 1]);
        assert(pattern_gates(s[m - 1]) == 0);
    }
}

} // verus!
