//! One proof-carrying representation for topology candidates, whether they
//! come from primitive e-graph rewrites (D1 rows) or from the contextual
//! generator, and the identity checks made at the topology-extraction
//! boundary.
use vstd::prelude::*;

use crate::text::{
    contains_string, copy_string, decimal, flag_enabled, flag_on, opt_text, push_decimal, push_str,
    same_string, str_equals, string_of, strings_view,
};
use crate::topology::{copy_indices, TopologyExpr};

verus! {

/// The schema tag of a unified equivalence record.
pub open spec fn unified_schema() -> Seq<char> {
    "egg-unified-equivalence-candidate-v1"@
}

/// The schema tag of a unified equivalence record.
pub fn unified_equivalence_schema() -> (r: String)
    ensures
        r@ == unified_schema(),
{
    "egg-unified-equivalence-candidate-v1".to_string()
}

/// An enode of a candidate.
#[derive(Debug, PartialEq, Eq)]
pub enum UnifiedEnode {
    /// An enode already created by primitive rewrites in a local e-graph.
    Ordinary { eclass_id: String, enode_id: String },
    /// A higher-order or contextual rewrite endpoint generated directly.
    VirtualGenerated { root_anchor: usize, eclass_id: String, expression: TopologyExpr },
}

/// What a candidate claims to be equivalent to.
#[derive(Debug, PartialEq, Eq)]
pub enum EquivalenceTarget {
    SingleEclass { eclass_id: String },
    EclassTransaction { eclass_ids: Vec<String> },
    /// A relational target: a shared multi-output realization is not one
    /// ordinary e-class.
    MultiOutputGroup { output_anchors: Vec<usize>, eclass_ids: Vec<String> },
    /// Only for full-netlist sidecars and closures without local enodes.
    WholeNetlist,
}

/// Where a candidate comes from.
#[derive(Clone, Copy, Debug, PartialEq, Eq, Structural)]
pub enum EquivalenceSource {
    PrimitiveEgraphRewrite,
    CompiledContextualRewrite,
    MappedRewriteClosure,
    ExternalSidecar,
}

/// How a candidate's equivalence is established.
#[derive(Clone, Copy, Debug, PartialEq, Eq, Structural)]
pub enum EquivalenceProofKind {
    EclassMembership,
    BoundaryTruthTable,
    CompositionalBoundaryProof,
    WholeNetlistProof,
}

/// A group of enodes proved equivalent together over one boundary.
#[derive(Debug)]
pub struct UnifiedProofGroup {
    pub enodes: Vec<UnifiedEnode>,
    pub boundary_anchors: Vec<usize>,
    pub output_anchors: Vec<usize>,
}

/// A topology candidate with the equivalence it claims and how it is proved.
#[derive(Debug)]
pub struct UnifiedEquivalenceCandidate {
    pub schema: String,
    pub candidate_id: String,
    pub source: EquivalenceSource,
    pub target: EquivalenceTarget,
    pub enodes: Vec<UnifiedEnode>,
    pub boundary_anchors: Vec<usize>,
    pub output_anchors: Vec<usize>,
    pub proof_kind: EquivalenceProofKind,
    /// The exact proof interface, distinct from the union of target and
    /// output anchors.
    pub proof_outputs: Option<Vec<usize>>,
    pub proof_groups: Vec<UnifiedProofGroup>,
    pub provenance: Vec<String>,
}

/// One choice of a generated candidate: a realization of `root_anchor`.
#[derive(Debug)]
pub struct GeneratorChoice {
    pub root_anchor: usize,
    pub expression: TopologyExpr,
}

/// Choices that the generator proves equivalent together.
#[derive(Debug)]
pub struct GeneratorProofGroup {
    pub choices: Vec<GeneratorChoice>,
    pub boundary: Vec<usize>,
    pub outputs: Vec<usize>,
}

/// What the unified representation reads of a generated candidate.
#[derive(Debug)]
pub struct GeneratorCandidate {
    pub candidate_id: String,
    pub provenance: Vec<String>,
    pub choices: Vec<GeneratorChoice>,
    pub outputs: Vec<usize>,
    pub proof_boundary: Vec<usize>,
    pub proof_outputs: Vec<usize>,
    pub proof_groups: Vec<GeneratorProofGroup>,
}

/// The e-class name of an original physical occurrence.
pub open spec fn physical_eclass_text(anchor: usize) -> Seq<char> {
    "physical."@ + decimal(anchor as nat)
}

/// The e-class name `physical.<anchor>`.
pub fn physical_eclass(anchor: usize) -> (r: String)
    ensures
        r@ == physical_eclass_text(anchor),
{
    let mut v: Vec<char> = Vec::new();
    push_str(&mut v, "physical.");
    push_decimal(&mut v, anchor);
    string_of(v.as_slice())
}

/// Strictly increasing.
pub open spec fn strictly_increasing(s: Seq<usize>) -> bool {
    forall|i: int, j: int| 0 <= i < j < s.len() ==> #[trigger] s[i] < #[trigger] s[j]
}

/// The distinct values, in increasing order.
pub fn sorted_unique(values: Vec<usize>) -> (r: Vec<usize>)
    ensures
        strictly_increasing(r@),
        r@.to_set() == values@.to_set(),
{
    let mut out: Vec<usize> = Vec::new();
    let mut k: usize = 0;
    while k < values.len()
        invariant
            0 <= k <= values@.len(),
            strictly_increasing(out@),
            out@.to_set() == values@.take(k as int).to_set(),
        decreases values.len() - k,
    {
        let x = values[k];
        let ghost before = out@;
        let mut p: usize = 0;
        while p < out.len() && out[p] < x
            invariant
                0 <= p <= out@.len(),
                out@ == before,
                forall|i: int| 0 <= i < p ==> #[trigger] before[i] < x,
            decreases out.len() - p,
        {
            p = p + 1;
        }
        assert(values@.take(k + 1) =~= values@.take(k as int).push(x));
        proof {
            values@.take(k as int).lemma_push_to_set_commute(x);
        }
        if p < out.len() && out[p] == x {
            assert(before.to_set().contains(x)) by {
                assert(before[p as int] == x);
            }
            assert(out@.to_set() =~= before.to_set().insert(x));
        } else {
            out.insert(p, x);
            proof {
                let after = out@;
                assert(after =~= before.insert(p as int, x));
                assert forall|i: int, j: int| 0 <= i < j < after.len() implies #[trigger] after[i]
                    < #[trigger] after[j] by {
                    if j < p {
                        assert(after[i] == before[i] && after[j] == before[j]);
                    } else if j == p {
                        assert(after[i] == before[i]);
                    } else if i == p {
                        assert(after[j] == before[j - 1]);
                        if j - 1 > p {
                            assert(before[p as int] < before[j - 1]);
                        }
                    } else if i < p {
                        assert(after[i] == before[i] && after[j] == before[j - 1]);
                    } else {
                        assert(after[i] == before[i - 1] && after[j] == before[j - 1]);
                    }
                }
                assert forall|y: usize| after.to_set().contains(y) <==> before.to_set().insert(
                    x,
                ).contains(y) by {
                    if after.to_set().contains(y) {
                        let i = choose|i: int| 0 <= i < after.len() && after[i] == y;
                        if i < p {
                            assert(before[i] == y);
                        } else if i > p {
                            assert(before[i - 1] == y);
                        }
                    }
                    if before.to_set().contains(y) {
                        let i = choose|i: int| 0 <= i < before.len() && before[i] == y;
                        if i < p {
                            assert(after[i] == y);
                        } else {
                            assert(after[i + 1] == y);
                        }
                    }
                    if y == x {
                        assert(after[p as int] == x);
                    }
                }
                assert(after.to_set() =~= before.to_set().insert(x));
            }
        }
        k = k + 1;
    }
    assert(values@.take(k as int) =~= values@);
    out
}

/// The enode of a generated choice, in the e-class of its root anchor.
pub open spec fn is_generated_enode(e: UnifiedEnode, c: GeneratorChoice) -> bool {
    e matches UnifiedEnode::VirtualGenerated { root_anchor, eclass_id, expression } && root_anchor
        == c.root_anchor && eclass_id@ == physical_eclass_text(c.root_anchor) && expression
        == c.expression
}

/// The enodes of a list of generated choices, one per choice and in order.
pub open spec fn are_generated_enodes(es: Seq<UnifiedEnode>, cs: Seq<GeneratorChoice>) -> bool {
    es.len() == cs.len() && forall|i: int| 0 <= i < cs.len() ==> is_generated_enode(#[trigger] es[i], cs[i])
}

fn generated_enodes(choices: Vec<GeneratorChoice>) -> (r: Vec<UnifiedEnode>)
    ensures
        are_generated_enodes(r@, choices@),
{
    let mut out: Vec<UnifiedEnode> = Vec::new();
    let mut rest = choices;
    let ghost all = rest@;
    let ghost mut done: Seq<GeneratorChoice> = Seq::empty();
    while rest.len() > 0
        invariant
            all == done + rest@,
            are_generated_enodes(out@, done),
        decreases rest.len(),
    {
        let ghost before = rest@;
        let c = rest.remove(0);
        let ghost gc = c;
        let GeneratorChoice { root_anchor, expression } = c;
        let eclass_id = physical_eclass(root_anchor);
        out.push(UnifiedEnode::VirtualGenerated { root_anchor, eclass_id, expression });
        proof {
            assert(before =~= seq![gc] + rest@);
            done = done.push(gc);
            assert(all =~= done + rest@);
        }
    }
    assert(done =~= all);
    out
}

/// The anchors of a list of generated choices.
pub open spec fn choice_roots(cs: Seq<GeneratorChoice>) -> Seq<usize> {
    cs.map_values(|c: GeneratorChoice| c.root_anchor)
}

/// Each id names the e-class of the anchor at the same position.
pub open spec fn are_physical_eclasses(ids: Seq<String>, anchors: Seq<usize>) -> bool {
    ids.len() == anchors.len() && forall|i: int|
        0 <= i < anchors.len() ==> (#[trigger] ids[i])@ == physical_eclass_text(anchors[i])
}

fn physical_eclasses(anchors: &Vec<usize>) -> (r: Vec<String>)
    ensures
        are_physical_eclasses(r@, anchors@),
{
    let mut out: Vec<String> = Vec::new();
    let mut i: usize = 0;
    while i < anchors.len()
        invariant
            0 <= i <= anchors@.len(),
            out@.len() == i,
            forall|j: int| 0 <= j < i ==> (#[trigger] out@[j])@ == physical_eclass_text(anchors@[j]),
        decreases anchors.len() - i,
    {
        out.push(physical_eclass(anchors[i]));
        i = i + 1;
    }
    out
}

/// The proof group made of a generator's proof group.
pub open spec fn is_generated_group(g: UnifiedProofGroup, h: GeneratorProofGroup) -> bool {
    are_generated_enodes(g.enodes@, h.choices@) && g.boundary_anchors == h.boundary
        && g.output_anchors == h.outputs
}

/// The output anchors of a generated candidate: its proof outputs, its
/// outputs and the anchors its choices realize.
pub open spec fn generated_output_anchors(c: GeneratorCandidate) -> Set<usize> {
    c.proof_outputs@.to_set() + c.outputs@.to_set() + choice_roots(c.choices@).to_set()
}

fn generated_groups(groups: Vec<GeneratorProofGroup>) -> (r: Vec<UnifiedProofGroup>)
    ensures
        r@.len() == groups@.len(),
        forall|i: int| 0 <= i < groups@.len() ==> is_generated_group(#[trigger] r@[i], groups@[i]),
{
    let mut out: Vec<UnifiedProofGroup> = Vec::new();
    let mut rest = groups;
    let ghost all = rest@;
    let ghost mut done: Seq<GeneratorProofGroup> = Seq::empty();
    while rest.len() > 0
        invariant
            all == done + rest@,
            out@.len() == done.len(),
            forall|i: int| 0 <= i < done.len() ==> is_generated_group(#[trigger] out@[i], done[i]),
        decreases rest.len(),
    {
        let ghost before = rest@;
        let g = rest.remove(0);
        let ghost gg = g;
        let GeneratorProofGroup { choices, boundary, outputs } = g;
        let enodes = generated_enodes(choices);
        out.push(UnifiedProofGroup { enodes, boundary_anchors: boundary, output_anchors: outputs });
        proof {
            assert(before =~= seq![gg] + rest@);
            done = done.push(gg);
            assert(all =~= done + rest@);
        }
    }
    assert(done =~= all);
    out
}

/// What the unified representation reads of one choice of a D1 row; a
/// field is `None` when the row lacks it or it is no string.
#[derive(Debug)]
pub struct D1Choice {
    pub eclass_id: Option<String>,
    pub enode_id: Option<String>,
}

/// What the unified representation reads of a D1 row.
#[derive(Debug)]
pub struct D1Row {
    pub candidate_id: Option<String>,
    pub choices: Option<Vec<D1Choice>>,
}

/// The error text for a D1 row whose choice `c` is incomplete, if it is.
pub open spec fn d1_choice_fault(id: Seq<char>, c: D1Choice) -> Option<Seq<char>> {
    if c.eclass_id is None {
        Some("D1 candidate "@ + id + " choice missing eclass_id"@)
    } else if c.enode_id is None {
        Some("D1 candidate "@ + id + " choice missing enode_id"@)
    } else {
        None
    }
}

/// The error of the first incomplete choice, in row order.
pub open spec fn d1_first_fault(id: Seq<char>, cs: Seq<D1Choice>) -> Option<Seq<char>>
    decreases cs.len(),
{
    if cs.len() == 0 {
        None
    } else if d1_choice_fault(id, cs[0]) is Some {
        d1_choice_fault(id, cs[0])
    } else {
        d1_first_fault(id, cs.drop_first())
    }
}

/// The error a D1 row gives, if any.
pub open spec fn d1_row_error(row: D1Row) -> Option<Seq<char>> {
    match row.candidate_id {
        None => Some("D1 candidate missing candidate_id"@),
        Some(id) => match row.choices {
            None => Some("D1 candidate "@ + id@ + " missing choices"@),
            Some(cs) => d1_first_fault(id@, cs@),
        },
    }
}

/// The ordinary enode of a complete D1 choice.
pub open spec fn is_ordinary_enode(e: UnifiedEnode, c: D1Choice) -> bool {
    e matches UnifiedEnode::Ordinary { eclass_id, enode_id } && c.eclass_id matches Some(x)
        && c.enode_id matches Some(y) && eclass_id@ == x@ && enode_id@ == y@
}

/// The unified record of a complete D1 row.
pub open spec fn is_d1_candidate(c: UnifiedEquivalenceCandidate, row: D1Row) -> bool {
    &&& row.candidate_id matches Some(id)
    &&& row.choices matches Some(cs)
    &&& c.schema@ == unified_schema()
    &&& c.candidate_id@ == row.candidate_id->0@
    &&& c.source == EquivalenceSource::PrimitiveEgraphRewrite
    &&& c.enodes@.len() == row.choices->0@.len()
    &&& forall|i: int|
        0 <= i < row.choices->0@.len() ==> is_ordinary_enode(
            #[trigger] c.enodes@[i],
            row.choices->0@[i],
        )
    &&& row.choices->0@.len() == 1 ==> (c.target matches EquivalenceTarget::SingleEclass {
        eclass_id,
    } && row.choices->0@[0].eclass_id matches Some(x) && eclass_id@ == x@)
    &&& row.choices->0@.len() != 1 ==> (c.target matches EquivalenceTarget::EclassTransaction {
        eclass_ids,
    } && eclass_ids@.len() == row.choices->0@.len() && forall|i: int|
        0 <= i < row.choices->0@.len() ==> (row.choices->0@[i].eclass_id matches Some(x) && (
        #[trigger] eclass_ids@[i])@ == x@))
    &&& c.boundary_anchors@.len() == 0
    &&& c.output_anchors@.len() == 0
    &&& c.proof_kind == EquivalenceProofKind::EclassMembership
    &&& c.proof_outputs is None
    &&& c.proof_groups@.len() == 0
    &&& c.provenance@.len() == 1
    &&& c.provenance@[0]@ == "d1-rewrite"@
}

/// `"D1 candidate " + id + tail`.
fn d1_message(id: &String, tail: &str) -> (r: String)
    ensures
        r@ == "D1 candidate "@ + id@ + tail@,
{
    let mut v: Vec<char> = Vec::new();
    push_str(&mut v, "D1 candidate ");
    push_str(&mut v, id.as_str());
    push_str(&mut v, tail);
    string_of(v.as_slice())
}

proof fn lemma_first_fault_none(id: Seq<char>, cs: Seq<D1Choice>, k: int)
    requires
        0 <= k <= cs.len(),
        forall|j: int| 0 <= j < k ==> d1_choice_fault(id, #[trigger] cs[j]) is None,
    ensures
        d1_first_fault(id, cs) == d1_first_fault(id, cs.skip(k)),
    decreases k,
{
    if k > 0 {
        assert(cs.skip(k - 1).drop_first() =~= cs.skip(k));
        lemma_first_fault_none(id, cs, k - 1);
        assert(cs.skip(k - 1)[0] == cs[k - 1]);
    } else {
        assert(cs.skip(0) =~= cs);
    }
}

impl UnifiedEquivalenceCandidate {
    /// The unified form of a D1 row: one ordinary enode per choice, in one
    /// e-class when there is a single choice and an e-class transaction
    /// otherwise.
    pub fn from_d1_row(row: &D1Row) -> (r: Result<Self, String>)
        ensures
            match d1_row_error(*row) {
                Some(m) => r matches Err(e) && e@ == m,
                None => r matches Ok(c) && is_d1_candidate(c, *row),
            },
    {
        let id = match &row.candidate_id {
            Some(id) => id,
            None => {
                return Err("D1 candidate missing candidate_id".to_string());
            },
        };
        let choices = match &row.choices {
            Some(cs) => cs,
            None => {
                return Err(d1_message(id, " missing choices"));
            },
        };
        let mut enodes: Vec<UnifiedEnode> = Vec::new();
        let mut eclass_ids: Vec<String> = Vec::new();
        let mut i: usize = 0;
        while i < choices.len()
            invariant
                0 <= i <= choices@.len(),
                row.candidate_id == Some(*id),
                row.choices == Some(*choices),
                enodes@.len() == i,
                eclass_ids@.len() == i,
                forall|j: int| 0 <= j < i ==> d1_choice_fault(id@, #[trigger] choices@[j]) is None,
                forall|j: int| 0 <= j < i ==> is_ordinary_enode(#[trigger] enodes@[j], choices@[j]),
                forall|j: int|
                    0 <= j < i ==> (choices@[j].eclass_id matches Some(x) && (
                    #[trigger] eclass_ids@[j])@ == x@),
            decreases choices.len() - i,
        {
            let c = &choices[i];
            proof {
                lemma_first_fault_none(id@, choices@, i as int);
                assert(choices@.skip(i as int)[0] == choices@[i as int]);
            }
            let eclass_id = match &c.eclass_id {
                Some(x) => copy_string(x),
                None => {
                    return Err(d1_message(id, " choice missing eclass_id"));
                },
            };
            let enode_id = match &c.enode_id {
                Some(y) => copy_string(y),
                None => {
                    return Err(d1_message(id, " choice missing enode_id"));
                },
            };
            eclass_ids.push(copy_string(&eclass_id));
            enodes.push(UnifiedEnode::Ordinary { eclass_id, enode_id });
            i = i + 1;
        }
        proof {
            lemma_first_fault_none(id@, choices@, i as int);
        }
        let target = if eclass_ids.len() == 1 {
            EquivalenceTarget::SingleEclass { eclass_id: copy_string(&eclass_ids[0]) }
        } else {
            EquivalenceTarget::EclassTransaction { eclass_ids }
        };
        let mut provenance: Vec<String> = Vec::new();
        provenance.push("d1-rewrite".to_string());
        Ok(
            UnifiedEquivalenceCandidate {
                schema: unified_equivalence_schema(),
                candidate_id: copy_string(id),
                source: EquivalenceSource::PrimitiveEgraphRewrite,
                target,
                enodes,
                boundary_anchors: Vec::new(),
                output_anchors: Vec::new(),
                proof_kind: EquivalenceProofKind::EclassMembership,
                proof_outputs: None,
                proof_groups: Vec::new(),
                provenance,
            },
        )
    }
}

impl UnifiedEquivalenceCandidate {
    /// The unified form of a generated candidate.  Its target is one e-class
    /// only when it has a single output anchor and a single choice; any
    /// shared multi-output realization is a relational group.
    pub fn from_generator(candidate: GeneratorCandidate) -> (r: Self)
        ensures
            r.schema@ == unified_schema(),
            r.candidate_id == candidate.candidate_id,
            r.source == EquivalenceSource::CompiledContextualRewrite,
            are_generated_enodes(r.enodes@, candidate.choices@),
            strictly_increasing(r.output_anchors@),
            r.output_anchors@.to_set() == generated_output_anchors(candidate),
            (r.output_anchors@.len() == 1 && candidate.choices@.len() == 1) ==> (
            r.target matches EquivalenceTarget::SingleEclass { eclass_id } && eclass_id@
                == physical_eclass_text(r.output_anchors@[0])),
            !(r.output_anchors@.len() == 1 && candidate.choices@.len() == 1) ==> (
            r.target matches EquivalenceTarget::MultiOutputGroup { output_anchors, eclass_ids }
                && output_anchors@ == r.output_anchors@ && are_physical_eclasses(
                eclass_ids@,
                r.output_anchors@,
            )),
            r.boundary_anchors == candidate.proof_boundary,
            r.proof_outputs matches Some(p) && p@ == candidate.proof_outputs@,
            r.proof_groups@.len() == candidate.proof_groups@.len(),
            forall|i: int|
                0 <= i < candidate.proof_groups@.len() ==> is_generated_group(
                    #[trigger] r.proof_groups@[i],
                    candidate.proof_groups@[i],
                ),
            r.proof_kind == (if candidate.proof_groups@.len() == 0 {
                EquivalenceProofKind::BoundaryTruthTable
            } else {
                EquivalenceProofKind::CompositionalBoundaryProof
            }),
            r.provenance == candidate.provenance,
    {
        let ghost input = candidate;
        let GeneratorCandidate {
            candidate_id,
            provenance,
            choices,
            outputs,
            proof_boundary,
            proof_outputs,
            proof_groups,
        } = candidate;
        let n_choices = choices.len();
        let mut anchors = copy_indices(&proof_outputs);
        let mut i: usize = 0;
        while i < outputs.len()
            invariant
                0 <= i <= outputs@.len(),
                anchors@ == proof_outputs@ + outputs@.take(i as int),
            decreases outputs.len() - i,
        {
            anchors.push(outputs[i]);
            assert(outputs@.take(i + 1) =~= outputs@.take(i as int).push(outputs@[i as int]));
            i = i + 1;
        }
        assert(outputs@.take(i as int) =~= outputs@);
        let ghost mid = anchors@;
        let mut k: usize = 0;
        while k < choices.len()
            invariant
                0 <= k <= choices@.len(),
                anchors@ == mid + choice_roots(choices@).take(k as int),
            decreases choices.len() - k,
        {
            anchors.push(choices[k].root_anchor);
            assert(choice_roots(choices@).take(k + 1) =~= choice_roots(choices@).take(k as int).push(
                choices@[k as int].root_anchor,
            ));
            k = k + 1;
        }
        assert(choice_roots(choices@).take(k as int) =~= choice_roots(choices@));
        proof {
            vstd::seq_lib::seq_to_set_distributes_over_add(proof_outputs@, outputs@);
            vstd::seq_lib::seq_to_set_distributes_over_add(mid, choice_roots(choices@));
        }
        let output_anchors = sorted_unique(anchors);
        let enodes = generated_enodes(choices);
        let target = if output_anchors.len() == 1 && n_choices == 1 {
            EquivalenceTarget::SingleEclass { eclass_id: physical_eclass(output_anchors[0]) }
        } else {
            EquivalenceTarget::MultiOutputGroup {
                output_anchors: copy_indices(&output_anchors),
                eclass_ids: physical_eclasses(&output_anchors),
            }
        };
        let no_groups = proof_groups.len() == 0;
        let groups = generated_groups(proof_groups);
        UnifiedEquivalenceCandidate {
            schema: unified_equivalence_schema(),
            candidate_id,
            source: EquivalenceSource::CompiledContextualRewrite,
            target,
            enodes,
            boundary_anchors: proof_boundary,
            output_anchors,
            proof_kind: if no_groups {
                EquivalenceProofKind::BoundaryTruthTable
            } else {
                EquivalenceProofKind::CompositionalBoundaryProof
            },
            proof_outputs: Some(proof_outputs),
            proof_groups: groups,
            provenance,
        }
    }

    /// The record of a candidate known only as a whole netlist.
    pub fn whole_netlist(candidate_id: String, source: EquivalenceSource, provenance: String) -> (r: Self)
        ensures
            r.schema@ == unified_schema(),
            r.candidate_id == candidate_id,
            r.source == source,
            r.target == EquivalenceTarget::WholeNetlist,
            r.enodes@.len() == 0,
            r.boundary_anchors@.len() == 0,
            r.output_anchors@.len() == 0,
            r.proof_kind == EquivalenceProofKind::WholeNetlistProof,
            r.proof_outputs is None,
            r.proof_groups@.len() == 0,
            r.provenance@ == seq![provenance],
    {
        let mut prov: Vec<String> = Vec::new();
        prov.push(provenance);
        UnifiedEquivalenceCandidate {
            schema: unified_equivalence_schema(),
            candidate_id,
            source,
            target: EquivalenceTarget::WholeNetlist,
            enodes: Vec::new(),
            boundary_anchors: Vec::new(),
            output_anchors: Vec::new(),
            proof_kind: EquivalenceProofKind::WholeNetlistProof,
            proof_outputs: None,
            proof_groups: Vec::new(),
            provenance: prov,
        }
    }
}

/// What the extraction boundary reads of a union row: its top-level id,
/// its output netlist, and, when the row carries a unified record, the
/// record's own id (`Some(None)` when the record has none).
#[derive(Debug)]
pub struct UnionRow {
    pub candidate_id: Option<String>,
    pub output_netlist: Option<String>,
    pub unified_id: Option<Option<String>>,
}

/// The candidate identity and implementation seen at the extraction
/// boundary.
#[derive(Debug)]
pub struct ExtractionCandidateRef {
    pub candidate_id: String,
    pub implementation: String,
    pub has_equivalence: bool,
}

/// `prefix + id + suffix`.
fn framed(prefix: &str, id: &String, suffix: &str) -> (r: String)
    ensures
        r@ == prefix@ + id@ + suffix@,
{
    let mut v: Vec<char> = Vec::new();
    push_str(&mut v, prefix);
    push_str(&mut v, id.as_str());
    push_str(&mut v, suffix);
    string_of(v.as_slice())
}

/// The error a union row gives at the extraction boundary, if any.
pub open spec fn extraction_error(row: UnionRow, require_unified: bool) -> Option<Seq<char>> {
    match row.candidate_id {
        None => Some("union row missing candidate_id"@),
        Some(legacy) => if row.output_netlist is None {
            Some("union candidate "@ + legacy@ + " missing output_netlist"@)
        } else if !require_unified {
            None
        } else {
            match row.unified_id {
                Some(Some(unified)) => if legacy@ == unified@ {
                    None
                } else {
                    Some("legacy candidate id "@ + legacy@ + " differs from unified id "@ + unified@)
                },
                _ => Some("union candidate "@ + legacy@ + " missing unified representation"@),
            }
        },
    }
}

/// The candidate identity consumed at the topology-extraction boundary.  The
/// top-level id stays authoritative; when the unified representation is
/// required, both ids must exist and agree exactly.
pub fn extraction_candidate_with_mode(row: &UnionRow, require_unified: bool) -> (r: Result<
    ExtractionCandidateRef,
    String,
>)
    ensures
        match extraction_error(*row, require_unified) {
            Some(m) => r matches Err(e) && e@ == m,
            None => r matches Ok(v) && v.candidate_id@ == row.candidate_id->0@
                && v.implementation@ == row.output_netlist->0@ && v.has_equivalence
                == row.unified_id is Some,
        },
        r is Ok && require_unified ==> (row.unified_id matches Some(Some(u)) && r->Ok_0.candidate_id@
            == u@),
{
    let legacy = match &row.candidate_id {
        Some(id) => id,
        None => {
            return Err("union row missing candidate_id".to_string());
        },
    };
    let implementation = match &row.output_netlist {
        Some(p) => p,
        None => {
            return Err(framed("union candidate ", legacy, " missing output_netlist"));
        },
    };
    if require_unified {
        match &row.unified_id {
            Some(Some(unified)) => {
                if !same_string(legacy, unified) {
                    let mut v: Vec<char> = Vec::new();
                    push_str(&mut v, "legacy candidate id ");
                    push_str(&mut v, legacy.as_str());
                    push_str(&mut v, " differs from unified id ");
                    push_str(&mut v, unified.as_str());
                    return Err(string_of(v.as_slice()));
                }
            },
            _ => {
                return Err(framed("union candidate ", legacy, " missing unified representation"));
            },
        }
    }
    Ok(
        ExtractionCandidateRef {
            candidate_id: copy_string(legacy),
            implementation: copy_string(implementation),
            has_equivalence: row.unified_id.is_some(),
        },
    )
}

/// What a unified record of the portfolio parses to.
#[derive(Debug)]
pub enum RecordCheck {
    /// The record does not decode; the decoder's message.
    Invalid(String),
    /// The record decodes, with its schema, whether it lists any enode and
    /// whether its target is the whole netlist.
    Decoded { schema: String, has_enodes: bool, whole_netlist: bool },
}

/// A portfolio row: the union row and what its unified record decodes to.
#[derive(Debug)]
pub struct PortfolioRow {
    pub row: UnionRow,
    pub record: RecordCheck,
}

/// The error of the portfolio row `i`, given the ids of the rows before it.
pub open spec fn portfolio_row_error(rows: Seq<PortfolioRow>, i: int) -> Option<Seq<char>> {
    let row = rows[i];
    match extraction_error(row.row, true) {
        Some(m) => Some(m),
        None => {
            let id = row.row.candidate_id->0@;
            if exists|j: int| 0 <= j < i && (#[trigger] rows[j]).row.candidate_id->0@ == id {
                Some("duplicate unified candidate id "@ + id)
            } else {
                match row.record {
                    RecordCheck::Invalid(e) => Some("invalid unified candidate "@ + id + ": "@ + e@),
                    RecordCheck::Decoded { schema, has_enodes, whole_netlist } => if schema@
                        != unified_schema() {
                        Some("candidate "@ + id + " has unknown equivalence schema"@)
                    } else if !has_enodes && !whole_netlist {
                        Some("candidate "@ + id + " has no ordinary or virtual enode"@)
                    } else {
                        None
                    },
                }
            }
        },
    }
}

/// The error of the first faulty row, if any.
pub open spec fn portfolio_error(rows: Seq<PortfolioRow>, k: nat) -> Option<Seq<char>>
    decreases k,
{
    if k == 0 {
        None
    } else {
        match portfolio_error(rows, (k - 1) as nat) {
            Some(m) => Some(m),
            None => portfolio_row_error(rows, k - 1),
        }
    }
}

proof fn lemma_portfolio_error_stable(rows: Seq<PortfolioRow>, k: nat, n: nat)
    requires
        k <= n,
    ensures
        portfolio_error(rows, k) is Some ==> portfolio_error(rows, n) == portfolio_error(rows, k),
    decreases n,
{
    if k < n {
        lemma_portfolio_error_stable(rows, k, (n - 1) as nat);
    }
}

/// Checks a portfolio at the extraction boundary: nothing is required while
/// the unified representation is off; with it on, every row must pass the
/// identity check, ids must be distinct, and every record must decode, carry
/// the schema and list an enode unless it stands for the whole netlist.
pub fn validate_extraction_portfolio_with_mode(rows: &Vec<PortfolioRow>, require_unified: bool) -> (r:
    Result<(), String>)
    ensures
        !require_unified ==> r is Ok,
        require_unified ==> match portfolio_error(rows@, rows@.len()) {
            Some(m) => r matches Err(e) && e@ == m,
            None => r is Ok,
        },
{
    if !require_unified {
        return Ok(());
    }
    let mut seen: Vec<String> = Vec::new();
    let mut i: usize = 0;
    while i < rows.len()
        invariant
            0 <= i <= rows@.len(),
            require_unified,
            portfolio_error(rows@, i as nat) is None,
            seen@.len() == i,
            forall|j: int| 0 <= j < i ==> extraction_error(#[trigger] rows@[j].row, true) is None,
            forall|j: int|
                0 <= j < i ==> (#[trigger] seen@[j])@ == rows@[j].row.candidate_id->0@,
        decreases rows.len() - i,
    {
        let entry = &rows[i];
        proof {
            lemma_portfolio_error_stable(rows@, (i + 1) as nat, rows@.len());
        }
        let view = match extraction_candidate_with_mode(&entry.row, true) {
            Ok(v) => v,
            Err(e) => {
                return Err(e);
            },
        };
        let id = view.candidate_id;
        let mut k: usize = 0;
        while k < seen.len()
            invariant
                0 <= k <= seen@.len(),
                i < rows@.len(),
                require_unified,
                portfolio_error(rows@, i as nat) is None,
                extraction_error(rows@[i as int].row, true) is None,
                id@ == rows@[i as int].row.candidate_id->0@,
                seen@.len() == i,
                forall|j: int|
                    0 <= j < i ==> (#[trigger] seen@[j])@ == rows@[j].row.candidate_id->0@,
                forall|j: int| 0 <= j < k ==> (#[trigger] seen@[j])@ != id@,
            decreases seen.len() - k,
        {
            if same_string(&seen[k], &id) {
                proof {
                    assert(seen@[k as int]@ == id@);
                    assert(rows@[k as int].row.candidate_id->0@ == id@);
                    lemma_portfolio_error_stable(rows@, (i + 1) as nat, rows@.len());
                }
                let mut v: Vec<char> = Vec::new();
                push_str(&mut v, "duplicate unified candidate id ");
                push_str(&mut v, id.as_str());
                return Err(string_of(v.as_slice()));
            }
            k = k + 1;
        }
        assert(!exists|j: int| 0 <= j < i && (#[trigger] rows@[j]).row.candidate_id->0@ == id@)
            by {
            if exists|j: int| 0 <= j < i && (#[trigger] rows@[j]).row.candidate_id->0@ == id@ {
                let j = choose|j: int| 0 <= j < i && (#[trigger] rows@[j]).row.candidate_id->0@ == id@;
                assert(seen@[j]@ == id@);
            }
        }
        match &entry.record {
            RecordCheck::Invalid(e) => {
                let mut v: Vec<char> = Vec::new();
                push_str(&mut v, "invalid unified candidate ");
                push_str(&mut v, id.as_str());
                push_str(&mut v, ": ");
                push_str(&mut v, e.as_str());
                return Err(string_of(v.as_slice()));
            },
            RecordCheck::Decoded { schema, has_enodes, whole_netlist } => {
                let expected = unified_equivalence_schema();
                if !same_string(schema, &expected) {
                    return Err(framed("candidate ", &id, " has unknown equivalence schema"));
                }
                if !*has_enodes && !*whole_netlist {
                    return Err(framed("candidate ", &id, " has no ordinary or virtual enode"));
                }
            },
        }
        seen.push(id);
        i = i + 1;
    }
    Ok(())
}

/// Whether the unified representation is required, given the value of its
/// environment switch: set, and neither `0` nor `false` in any ASCII case.
pub fn unified_equivalence_enabled(switch: Option<&str>) -> (r: bool)
    ensures
        r == flag_on(opt_text(switch)),
{
    flag_enabled(switch)
}

/// The candidate identity at the extraction boundary, with the unified
/// representation required exactly when its switch is on.
pub fn extraction_candidate(row: &UnionRow, switch: Option<&str>) -> (r: Result<
    ExtractionCandidateRef,
    String,
>)
    ensures
        match extraction_error(*row, flag_on(opt_text(switch))) {
            Some(m) => r matches Err(e) && e@ == m,
            None => r matches Ok(v) && v.candidate_id@ == row.candidate_id->0@
                && v.implementation@ == row.output_netlist->0@ && v.has_equivalence
                == row.unified_id is Some,
        },
{
    extraction_candidate_with_mode(row, unified_equivalence_enabled(switch))
}

/// The candidate id at the extraction boundary.
pub fn extraction_candidate_id(row: &UnionRow, switch: Option<&str>) -> (r: Result<String, String>)
    ensures
        match extraction_error(*row, flag_on(opt_text(switch))) {
            Some(m) => r matches Err(e) && e@ == m,
            None => r matches Ok(id) && id@ == row.candidate_id->0@,
        },
{
    match extraction_candidate(row, switch) {
        Ok(v) => Ok(v.candidate_id),
        Err(e) => Err(e),
    }
}

/// Checks a portfolio at the extraction boundary, with the unified
/// representation required exactly when its switch is on.
pub fn validate_extraction_portfolio(rows: &Vec<PortfolioRow>, switch: Option<&str>) -> (r: Result<
    (),
    String,
>)
    ensures
        !flag_on(opt_text(switch)) ==> r is Ok,
        flag_on(opt_text(switch)) ==> match portfolio_error(rows@, rows@.len()) {
            Some(m) => r matches Err(e) && e@ == m,
            None => r is Ok,
        },
{
    validate_extraction_portfolio_with_mode(rows, unified_equivalence_enabled(switch))
}

/// Whether two paths are equal, component by component.
pub uninterp spec fn path_eq(a: Seq<char>, b: Seq<char>) -> bool;

/// `std::path::Path` equality, which compares the paths' components.
/// Trusted: the result is `path_eq` of the two texts.
#[verifier::external_body]
fn same_path(a: &str, b: &str) -> (r: bool)
    ensures
        r == path_eq(a@, b@),
{
    std::path::Path::new(a) == std::path::Path::new(b)
}

/// The P1 entry of candidate `id`: its `input` text, if it has one.
pub open spec fn p1_entry(p1: Seq<(Seq<char>, Option<Seq<char>>)>, id: Seq<char>, n: int) -> Option<Option<Seq<char>>>
    decreases n,
{
    if n <= 0 {
        None
    } else if p1[n - 1].0 == id {
        Some(p1[n - 1].1)
    } else {
        p1_entry(p1, id, n - 1)
    }
}

/// The refusal of the first of the union rows `rows[k..]` that has no
/// candidate identity, repeats an earlier id, or names an implementation
/// other than its P1 input; `seen` holds the ids before row `k`.
pub open spec fn union_row_fault(
    rows: Seq<PortfolioRow>,
    p1: Seq<(Seq<char>, Option<Seq<char>>)>,
    require_unified: bool,
    k: int,
    seen: Seq<Seq<char>>,
) -> Option<Seq<char>>
    decreases rows.len() - k,
{
    if k < 0 || k >= rows.len() {
        None
    } else {
        match extraction_error(rows[k].row, require_unified) {
            Some(m) => Some(m),
            None => {
                let id = rows[k].row.candidate_id->0@;
                let imp = rows[k].row.output_netlist->0@;
                if seen.contains(id) {
                    Some("duplicate "@ + id)
                } else {
                    match p1_entry(p1, id, p1.len() as int) {
                        Some(None) => Some("missing string field input"@),
                        Some(Some(input)) => if !path_eq(input, imp) {
                            Some(
                                "candidate "@ + id + " implementation differs between unified extraction ("@ + imp
                                    + ") and P1 ("@ + input + ")"@,
                            )
                        } else {
                            union_row_fault(rows, p1, require_unified, k + 1, seen.push(id))
                        },
                        None => union_row_fault(rows, p1, require_unified, k + 1, seen.push(id)),
                    }
                }
            },
        }
    }
}

/// The refusal of a union portfolio build before any candidate is ranked:
/// too few slots, a portfolio that fails the extraction checks, a faulty
/// row, or plan and P1 candidate sets that differ.
pub open spec fn union_precheck_fault(
    limit: usize,
    rows: Seq<PortfolioRow>,
    p1: Seq<(Seq<char>, Option<Seq<char>>)>,
    require_unified: bool,
) -> Option<Seq<char>> {
    if limit < 20 {
        Some("union portfolio needs at least 20 slots"@)
    } else if require_unified && portfolio_error(rows, rows.len()) is Some {
        portfolio_error(rows, rows.len())
    } else {
        match union_row_fault(rows, p1, require_unified, 0, Seq::empty()) {
            Some(m) => Some(m),
            None => if rows.len() == p1.len() && forall|k: int|
                0 <= k < rows.len() ==> p1_entry(p1, #[trigger] rows[k].row.candidate_id->0@, p1.len() as int) is Some {
                None
            } else {
                Some("union plan and P1 candidate sets differ"@)
            },
        }
    }
}

/// The P1 entries by candidate id, as plain texts.
pub open spec fn p1_view(p1: Seq<(String, Option<String>)>) -> Seq<(Seq<char>, Option<Seq<char>>)> {
    p1.map_values(
        |e: (String, Option<String>)|
            (
                e.0@,
                match e.1 {
                    Some(x) => Some(x@),
                    None => None,
                },
            ),
    )
}

/// The P1 entry of candidate `id` (see `p1_entry`).
fn p1_lookup(p1: &Vec<(String, Option<String>)>, id: &String) -> (r: Option<Option<String>>)
    ensures
        match p1_entry(p1_view(p1@), id@, p1@.len() as int) {
            None => r is None,
            Some(None) => r matches Some(x) && x is None,
            Some(Some(t)) => r matches Some(x) && x matches Some(y) && y@ == t,
        },
{
    let ghost pv = p1_view(p1@);
    let mut i: usize = p1.len();
    while i > 0
        invariant
            i <= p1@.len(),
            pv == p1_view(p1@),
            p1_entry(pv, id@, p1@.len() as int) == p1_entry(pv, id@, i as int),
        decreases i,
    {
        assert(pv[i - 1].0 == p1@[i - 1].0@);
        if same_string(&p1[i - 1].0, id) {
            return match &p1[i - 1].1 {
                Some(x) => Some(Some(copy_string(x))),
                None => Some(None),
            };
        }
        i = i - 1;
    }
    None
}

/// The checks a union portfolio build makes before ranking (see
/// `union_precheck_fault`), the unified representation required exactly
/// when its switch is on; `p1` lists the P1 rows by candidate id.
pub fn union_portfolio_precheck(
    limit: usize,
    rows: &Vec<PortfolioRow>,
    p1: &Vec<(String, Option<String>)>,
    switch: Option<&str>,
) -> (r: Result<(), String>)
    ensures
        match union_precheck_fault(limit, rows@, p1_view(p1@), flag_on(opt_text(switch))) {
            Some(m) => r matches Err(e) && e@ == m,
            None => r is Ok,
        },
{
    let ghost req = flag_on(opt_text(switch));
    let ghost pv = p1_view(p1@);
    if limit < 20 {
        return Err(string_of(crate::text::chars_of("union portfolio needs at least 20 slots").as_slice()));
    }
    match validate_extraction_portfolio(rows, switch) {
        Err(e) => {
            return Err(e);
        },
        Ok(()) => {},
    }
    let mut seen: Vec<String> = Vec::new();
    assert(seen@.map_values(|x: String| x@) =~= Seq::<Seq<char>>::empty());
    let mut k: usize = 0;
    while k < rows.len()
        invariant
            0 <= k <= rows@.len(),
            limit >= 20,
            req ==> portfolio_error(rows@, rows@.len()) is None,
            req == flag_on(opt_text(switch)),
            pv == p1_view(p1@),
            seen@.len() == k,
            forall|q: int| 0 <= q < k ==> (#[trigger] seen@[q])@ == rows@[q].row.candidate_id->0@,
            forall|q: int| 0 <= q < k ==> extraction_error(#[trigger] rows@[q].row, req) is None,
            union_row_fault(rows@, pv, req, 0, Seq::empty()) == union_row_fault(
                rows@,
                pv,
                req,
                k as int,
                seen@.map_values(|x: String| x@),
            ),
        decreases rows.len() - k,
    {
        let ghost sv = seen@.map_values(|x: String| x@);
        let c = match extraction_candidate(&rows[k].row, switch) {
            Err(e) => {
                return Err(e);
            },
            Ok(c) => c,
        };
        let known = {
            let sl = seen.as_slice();
            assert(sl.deep_view() =~= sv);
            contains_string(sl, &c.candidate_id)
        };
        if known {
            let mut v: Vec<char> = Vec::new();
            push_str(&mut v, "duplicate ");
            push_str(&mut v, c.candidate_id.as_str());
            return Err(string_of(v.as_slice()));
        }
        match p1_lookup(p1, &c.candidate_id) {
            Some(None) => {
                return Err(string_of(crate::text::chars_of("missing string field input").as_slice()));
            },
            Some(Some(input)) => {
                if !same_path(input.as_str(), c.implementation.as_str()) {
                    let mut v: Vec<char> = Vec::new();
                    push_str(&mut v, "candidate ");
                    push_str(&mut v, c.candidate_id.as_str());
                    push_str(&mut v, " implementation differs between unified extraction (");
                    push_str(&mut v, c.implementation.as_str());
                    push_str(&mut v, ") and P1 (");
                    push_str(&mut v, input.as_str());
                    push_str(&mut v, ")");
                    return Err(string_of(v.as_slice()));
                }
            },
            None => {},
        }
        seen.push(c.candidate_id);
        assert(seen@.map_values(|x: String| x@) =~= sv.push(rows@[k as int].row.candidate_id->0@));
        k = k + 1;
    }
    let mut all_known = rows.len() == p1.len();
    let mut q: usize = 0;
    while q < seen.len()
        invariant
            0 <= q <= seen@.len(),
            limit >= 20,
            req ==> portfolio_error(rows@, rows@.len()) is None,
            req == flag_on(opt_text(switch)),
            union_row_fault(rows@, pv, req, 0, Seq::empty()) is None,
            seen@.len() == rows@.len(),
            pv == p1_view(p1@),
            forall|t: int| 0 <= t < seen@.len() ==> (#[trigger] seen@[t])@ == rows@[t].row.candidate_id->0@,
            all_known == (rows@.len() == p1@.len() && forall|t: int|
                0 <= t < q ==> p1_entry(pv, #[trigger] rows@[t].row.candidate_id->0@, p1@.len() as int) is Some),
        decreases seen.len() - q,
    {
        if p1_lookup(p1, &seen[q]).is_none() {
            all_known = false;
        }
        q = q + 1;
    }
    if !all_known {
        return Err(string_of(crate::text::chars_of("union plan and P1 candidate sets differ").as_slice()));
    }
    Ok(())
}

/// Whether some plan row carries candidate id `id`.
pub open spec fn plan_has(rows: Seq<PortfolioRow>, id: Seq<char>) -> bool {
    exists|k: int| 0 <= k < rows.len() && ((#[trigger] rows[k]).row.candidate_id matches Some(x) && x@ == id)
}

/// The first reserved id of `reserved[k..]` that no plan row carries.
pub open spec fn missing_reserved(rows: Seq<PortfolioRow>, reserved: Seq<(String, String)>, k: int) -> Option<Seq<char>>
    decreases reserved.len() - k,
{
    if k < 0 || k >= reserved.len() {
        None
    } else if !plan_has(rows, reserved[k].0@) {
        Some(reserved[k].0@)
    } else {
        missing_reserved(rows, reserved, k + 1)
    }
}

/// `t` with `id` added at its end unless it holds it already.
pub open spec fn add_distinct(t: Seq<Seq<char>>, id: Seq<char>) -> Seq<Seq<char>> {
    if t.contains(id) {
        t
    } else {
        t.push(id)
    }
}

/// The ids of `ids[k..]` added in order to `acc`, each once.
pub open spec fn distinct_from(ids: Seq<Seq<char>>, k: int, acc: Seq<Seq<char>>) -> Seq<Seq<char>>
    decreases ids.len() - k,
{
    if k < 0 || k >= ids.len() {
        acc
    } else {
        distinct_from(ids, k + 1, add_distinct(acc, ids[k]))
    }
}

/// The P1 fill: the ids of `rank[k..]` are added in order to the selection
/// `t` while it holds fewer than `limit` ids.
pub open spec fn fill_from(rank: Seq<Seq<char>>, k: int, limit: nat, t: Seq<Seq<char>>) -> Seq<Seq<char>>
    decreases rank.len() - k,
{
    if k < 0 || k >= rank.len() || t.len() >= limit {
        t
    } else {
        fill_from(rank, k + 1, limit, add_distinct(t, rank[k]))
    }
}

/// The ids of `rank[k..]` that `t` holds, in rank order, after `acc`.
pub open spec fn ranked_from(rank: Seq<Seq<char>>, k: int, t: Seq<Seq<char>>, acc: Seq<Seq<char>>) -> Seq<Seq<char>>
    decreases rank.len() - k,
{
    if k < 0 || k >= rank.len() {
        acc
    } else if t.contains(rank[k]) {
        ranked_from(rank, k + 1, t, acc.push(rank[k]))
    } else {
        ranked_from(rank, k + 1, t, acc)
    }
}

/// Trims the ranked selection `c[k..]` (after `acc`): every reserved id
/// stays, and fill ids stay while `budget` lasts.
pub open spec fn trim_from(c: Seq<Seq<char>>, k: int, reserved: Seq<Seq<char>>, budget: nat, acc: Seq<Seq<char>>) -> Seq<Seq<char>>
    decreases c.len() - k,
{
    if k < 0 || k >= c.len() {
        acc
    } else if reserved.contains(c[k]) {
        trim_from(c, k + 1, reserved, budget, acc.push(c[k]))
    } else if budget > 0 {
        trim_from(c, k + 1, reserved, (budget - 1) as nat, acc.push(c[k]))
    } else {
        trim_from(c, k + 1, reserved, budget, acc)
    }
}

/// The portfolio that a union build chooses from the ids that its earlier
/// views picked (`picked`) and the extra reserved ids: a reserved id that
/// no plan row carries refuses it; otherwise the picked and reserved ids,
/// filled up to `limit` ids in P1 order (`rank`), listed in P1 order, and,
/// when there are more than `limit`, the picked and reserved ids with as
/// many fill ids as room is left.
pub open spec fn union_portfolio_spec(
    rows: Seq<PortfolioRow>,
    rank: Seq<Seq<char>>,
    limit: nat,
    picked: Seq<Seq<char>>,
    reserved: Seq<(String, String)>,
) -> Result<Seq<Seq<char>>, Seq<char>> {
    match missing_reserved(rows, reserved, 0) {
        Some(id) => Err("reserved candidate "@ + id + " missing from plan"@),
        None => {
            let held = distinct_from(
                picked + reserved.map_values(|e: (String, String)| e.0@),
                0,
                Seq::empty(),
            );
            let selected = fill_from(rank, 0, limit, held);
            let chosen = ranked_from(rank, 0, selected, Seq::empty());
            if chosen.len() > limit {
                let kept = ranked_from(chosen, 0, held, Seq::empty());
                let room: nat = if limit >= kept.len() {
                    (limit - kept.len()) as nat
                } else {
                    0
                };
                Ok(trim_from(chosen, 0, held, room, Seq::empty()))
            } else {
                Ok(chosen)
            }
        },
    }
}

/// `acc` with `id` added unless it holds it already.
fn push_distinct(acc: &mut Vec<String>, id: &String)
    ensures
        strings_view(final(acc)@) == add_distinct(strings_view(old(acc)@), id@),
{
    let known = {
        let sl = acc.as_slice();
        assert(sl.deep_view() =~= strings_view(acc@));
        contains_string(sl, id)
    };
    if !known {
        let ghost before = strings_view(acc@);
        acc.push(copy_string(id));
        assert(strings_view(acc@) =~= before.push(id@));
    }
}

/// Whether the strings hold `id`.
fn holds(v: &Vec<String>, id: &String) -> (r: bool)
    ensures
        r == strings_view(v@).contains(id@),
{
    let sl = v.as_slice();
    assert(sl.deep_view() =~= strings_view(v@));
    contains_string(sl, id)
}

/// The ids of `rank` that `t` holds, in rank order.
fn ranked_members(rank: &Vec<String>, t: &Vec<String>) -> (r: Vec<String>)
    ensures
        strings_view(r@) == ranked_from(strings_view(rank@), 0, strings_view(t@), Seq::empty()),
{
    let ghost rv = strings_view(rank@);
    let ghost tv = strings_view(t@);
    let mut out: Vec<String> = Vec::new();
    assert(strings_view(out@) =~= Seq::<Seq<char>>::empty());
    let mut k: usize = 0;
    while k < rank.len()
        invariant
            0 <= k <= rank@.len(),
            rv == strings_view(rank@),
            tv == strings_view(t@),
            ranked_from(rv, 0, tv, Seq::empty()) == ranked_from(rv, k as int, tv, strings_view(out@)),
        decreases rank.len() - k,
    {
        assert(rv[k as int] == rank@[k as int]@);
        if holds(t, &rank[k]) {
            let ghost before = strings_view(out@);
            out.push(copy_string(&rank[k]));
            assert(strings_view(out@) =~= before.push(rv[k as int]));
        }
        k = k + 1;
    }
    out
}

/// The portfolio of a union build (see `union_portfolio_spec`): `picked`
/// are the ids that the earlier views chose, `rank` the P1 order of the
/// candidates, and `extra_reserved` the (id, view) pairs that must be kept.
pub fn union_portfolio(
    rows: &Vec<PortfolioRow>,
    rank: &Vec<String>,
    limit: usize,
    picked: &Vec<String>,
    extra_reserved: &Vec<(String, String)>,
) -> (r: Result<Vec<String>, String>)
    ensures
        match union_portfolio_spec(rows@, strings_view(rank@), limit as nat, strings_view(picked@), extra_reserved@) {
            Ok(v) => r matches Ok(x) && strings_view(x@) == v,
            Err(e) => r matches Err(m) && m@ == e,
        },
{
    let ghost rv = strings_view(rank@);
    let mut j: usize = 0;
    while j < extra_reserved.len()
        invariant
            0 <= j <= extra_reserved@.len(),
            missing_reserved(rows@, extra_reserved@, 0) == missing_reserved(rows@, extra_reserved@, j as int),
        decreases extra_reserved.len() - j,
    {
        let id = &extra_reserved[j].0;
        let mut found = false;
        let mut k: usize = 0;
        while k < rows.len()
            invariant
                0 <= k <= rows@.len(),
                j < extra_reserved@.len(),
                id == extra_reserved@[j as int].0,
                found == exists|q: int| 0 <= q < k && ((#[trigger] rows@[q]).row.candidate_id matches Some(x) && x@ == id@),
            decreases rows.len() - k,
        {
            match &rows[k].row.candidate_id {
                Some(x) => {
                    if same_string(x, id) {
                        found = true;
                    }
                },
                None => {},
            }
            k = k + 1;
        }
        if !found {
            let mut v: Vec<char> = Vec::new();
            push_str(&mut v, "reserved candidate ");
            push_str(&mut v, id.as_str());
            push_str(&mut v, " missing from plan");
            return Err(string_of(v.as_slice()));
        }
        j = j + 1;
    }
    let ghost all = strings_view(picked@) + extra_reserved@.map_values(|e: (String, String)| e.0@);
    let mut held: Vec<String> = Vec::new();
    assert(strings_view(held@) =~= Seq::<Seq<char>>::empty());
    let mut i: usize = 0;
    while i < picked.len()
        invariant
            0 <= i <= picked@.len(),
            all == strings_view(picked@) + extra_reserved@.map_values(|e: (String, String)| e.0@),
            distinct_from(all, 0, Seq::empty()) == distinct_from(all, i as int, strings_view(held@)),
        decreases picked.len() - i,
    {
        assert(all[i as int] == picked@[i as int]@);
        push_distinct(&mut held, &picked[i]);
        i = i + 1;
    }
    let mut j: usize = 0;
    while j < extra_reserved.len()
        invariant
            0 <= j <= extra_reserved@.len(),
            all == strings_view(picked@) + extra_reserved@.map_values(|e: (String, String)| e.0@),
            distinct_from(all, 0, Seq::empty()) == distinct_from(all, picked@.len() + j, strings_view(held@)),
        decreases extra_reserved.len() - j,
    {
        assert(all[picked@.len() + j] == extra_reserved@[j as int].0@);
        push_distinct(&mut held, &extra_reserved[j].0);
        j = j + 1;
    }
    let ghost hv = strings_view(held@);
    let mut selected: Vec<String> = crate::text::copy_strings(&held);
    let mut k: usize = 0;
    while k < rank.len() && selected.len() < limit
        invariant
            0 <= k <= rank@.len(),
            rv == strings_view(rank@),
            fill_from(rv, 0, limit as nat, hv) == fill_from(rv, k as int, limit as nat, strings_view(selected@)),
        decreases rank.len() - k,
    {
        assert(rv[k as int] == rank@[k as int]@);
        push_distinct(&mut selected, &rank[k]);
        k = k + 1;
    }
    let chosen = ranked_members(rank, &selected);
    if chosen.len() <= limit {
        return Ok(chosen);
    }
    let kept = ranked_members(&chosen, &held);
    let mut room: usize = if limit >= kept.len() {
        limit - kept.len()
    } else {
        0
    };
    let ghost cv = strings_view(chosen@);
    let ghost room0 = room;
    let mut out: Vec<String> = Vec::new();
    assert(strings_view(out@) =~= Seq::<Seq<char>>::empty());
    let mut q: usize = 0;
    while q < chosen.len()
        invariant
            0 <= q <= chosen@.len(),
            cv == strings_view(chosen@),
            hv == strings_view(held@),
            trim_from(cv, 0, hv, room0 as nat, Seq::empty()) == trim_from(cv, q as int, hv, room as nat, strings_view(out@)),
        decreases chosen.len() - q,
    {
        assert(cv[q as int] == chosen@[q as int]@);
        let ghost before = strings_view(out@);
        if holds(&held, &chosen[q]) {
            out.push(copy_string(&chosen[q]));
            assert(strings_view(out@) =~= before.push(cv[q as int]));
        } else if room > 0 {
            out.push(copy_string(&chosen[q]));
            assert(strings_view(out@) =~= before.push(cv[q as int]));
            room = room - 1;
        }
        q = q + 1;
    }
    Ok(out)
}

} // verus!
