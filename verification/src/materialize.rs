//! The plan of structural macros to materialize: the per-anchor
//! expressions of each candidate, the realizations they become, and the
//! consistency of their proof manifest.
use vstd::prelude::*;

use crate::equivalence::{strictly_increasing, UnifiedEnode, UnifiedEquivalenceCandidate, UnifiedProofGroup};
use crate::realization::{
    anchor_list, boundary_anchors, expr_depth, expr_gates, expression_text, metrics, RuleFamily,
    StructuralRealization,
};
use crate::realization::expr_text;
use crate::text::{
    chars_le, chars_less_eq, chars_of, decimal, lemma_chars_le_antisym, lemma_chars_le_total,
    lemma_chars_le_trans, push_decimal, push_str, same_string, string_of, strings_view,
};
use crate::topology::{copy_expr, expr_model, expr_size, TopologyExpr};
use crate::phase_i::{class_index, RegionAssignment, RegionChoice, RegionClass, RegionEnode, RegionSpace};

verus! {

/// One macro root and the expression that replaces it.
#[derive(Debug)]
pub struct JsonChoice {
    pub root_anchor: usize,
    pub expression: TopologyExpr,
}

/// Choices proved together over one boundary.
#[derive(Debug)]
pub struct JsonProofGroup {
    pub choices: Vec<JsonChoice>,
    pub boundary: Vec<usize>,
    pub outputs: Vec<usize>,
}

/// A structural macro candidate of the plan.
#[derive(Debug)]
pub struct JsonCandidate {
    pub candidate_id: String,
    pub provenance: Vec<String>,
    pub choices: Vec<JsonChoice>,
    pub proof_boundary: Vec<usize>,
    pub proof_outputs: Vec<usize>,
    pub proof_groups: Vec<JsonProofGroup>,
}

/// The refusal of an enode that only names an e-class of some choice space.
pub open spec fn referenced_enode_text() -> Seq<char> {
    "referenced enodes require their resident choice space"@
}

/// The refusal of a record without its exact proof interface.
pub open spec fn missing_outputs_text() -> Seq<char> {
    "complete equivalence record lacks exact proof outputs"@
}

/// Every enode carries its own expression.
pub open spec fn all_generated(es: Seq<UnifiedEnode>) -> bool {
    forall|i: int| 0 <= i < es.len() ==> #[trigger] es[i] is VirtualGenerated
}

/// The choices of a list of generated enodes, one per enode and in order.
pub open spec fn are_json_choices(cs: Seq<JsonChoice>, es: Seq<UnifiedEnode>) -> bool {
    cs.len() == es.len() && forall|i: int|
        0 <= i < es.len() ==> (#[trigger] es[i] matches UnifiedEnode::VirtualGenerated {
            root_anchor,
            expression,
            ..
        } && cs[i].root_anchor == root_anchor && cs[i].expression == expression)
}

/// The plan group of a proof group.
pub open spec fn is_json_group(j: JsonProofGroup, g: UnifiedProofGroup) -> bool {
    &&& are_json_choices(j.choices@, g.enodes@)
    &&& j.boundary == g.boundary_anchors
    &&& j.outputs == g.output_anchors
}

/// Why a record cannot be a plan candidate, checked in the order of its
/// enodes, its proof outputs and its proof groups.
pub open spec fn plan_error(r: UnifiedEquivalenceCandidate) -> Option<Seq<char>> {
    if !all_generated(r.enodes@) {
        Some(referenced_enode_text())
    } else if r.proof_outputs is None {
        Some(missing_outputs_text())
    } else if exists|g: int|
        0 <= g < r.proof_groups@.len() && !all_generated((#[trigger] r.proof_groups@[g]).enodes@) {
        Some(referenced_enode_text())
    } else {
        None
    }
}

fn json_choices(enodes: Vec<UnifiedEnode>) -> (r: Result<Vec<JsonChoice>, String>)
    ensures
        all_generated(enodes@) ==> (r matches Ok(cs) && are_json_choices(cs@, enodes@)),
        !all_generated(enodes@) ==> (r matches Err(m) && m@ == referenced_enode_text()),
{
    let n = enodes.len();
    let ghost all = enodes@;
    let mut rest = enodes;
    let mut out: Vec<JsonChoice> = Vec::new();
    let mut i: usize = 0;
    while rest.len() > 0
        invariant
            i + rest@.len() == all.len(),
            all.len() == n,
            all == enodes@,
            rest@ == all.skip(i as int),
            out@.len() == i,
            forall|k: int|
                0 <= k < i ==> (#[trigger] all[k] matches UnifiedEnode::VirtualGenerated {
                    root_anchor,
                    expression,
                    ..
                } && out@[k].root_anchor == root_anchor && out@[k].expression == expression),
        decreases rest.len(),
    {
        let e = rest.remove(0);
        assert(e == all[i as int]);
        match e {
            UnifiedEnode::VirtualGenerated { root_anchor, expression, .. } => {
                out.push(JsonChoice { root_anchor, expression });
            },
            UnifiedEnode::Ordinary { .. } => {
                assert(!(all[i as int] is VirtualGenerated));
                return Err("referenced enodes require their resident choice space".to_string());
            },
        }
        i = i + 1;
        assert(rest@ =~= all.skip(i as int));
    }
    Ok(out)
}

impl JsonCandidate {
    /// The plan candidate of a complete equivalence record: every enode
    /// must carry its expression and the exact proof outputs must be known.
    pub fn from_equivalence(record: UnifiedEquivalenceCandidate) -> (r: Result<JsonCandidate, String>)
        ensures
            match plan_error(record) {
                Some(m) => r matches Err(e) && e@ == m,
                None => r matches Ok(c) && c.candidate_id == record.candidate_id && c.provenance
                    == record.provenance && are_json_choices(c.choices@, record.enodes@)
                    && c.proof_boundary == record.boundary_anchors && Some(c.proof_outputs)
                    == record.proof_outputs && c.proof_groups@.len()
                    == record.proof_groups@.len() && forall|g: int|
                    0 <= g < record.proof_groups@.len() ==> is_json_group(
                        #[trigger] c.proof_groups@[g],
                        record.proof_groups@[g],
                    ),
            },
    {
        let ghost rec = record;
        let UnifiedEquivalenceCandidate {
            candidate_id,
            enodes,
            boundary_anchors,
            proof_outputs,
            proof_groups,
            provenance,
            ..
        } = record;
        let choices = match json_choices(enodes) {
            Ok(cs) => cs,
            Err(m) => {
                return Err(m);
            },
        };
        let outputs = match proof_outputs {
            Some(o) => o,
            None => {
                return Err("complete equivalence record lacks exact proof outputs".to_string());
            },
        };
        let n = proof_groups.len();
        let ghost all = proof_groups@;
        let mut rest = proof_groups;
        let mut groups: Vec<JsonProofGroup> = Vec::new();
        let mut i: usize = 0;
        while rest.len() > 0
            invariant
                i + rest@.len() == all.len(),
                all.len() == n,
                rec == record,
                all_generated(rec.enodes@),
                rec.proof_outputs is Some,
                all == rec.proof_groups@,
                rest@ == all.skip(i as int),
                groups@.len() == i,
                forall|k: int| 0 <= k < i ==> all_generated((#[trigger] all[k]).enodes@),
                forall|k: int| 0 <= k < i ==> is_json_group(#[trigger] groups@[k], all[k]),
            decreases rest.len(),
        {
            let g = rest.remove(0);
            assert(g == all[i as int]);
            let UnifiedProofGroup { enodes, boundary_anchors, output_anchors } = g;
            match json_choices(enodes) {
                Ok(cs) => {
                    groups.push(JsonProofGroup { choices: cs, boundary: boundary_anchors, outputs: output_anchors });
                },
                Err(m) => {
                    assert(!all_generated(rec.proof_groups@[i as int].enodes@));
                    return Err(m);
                },
            }
            i = i + 1;
            assert(rest@ =~= all.skip(i as int));
        }
        assert(forall|g: int|
            0 <= g < rec.proof_groups@.len() ==> all_generated((#[trigger] rec.proof_groups@[g]).enodes@));
        Ok(
            JsonCandidate {
                candidate_id,
                provenance,
                choices,
                proof_boundary: boundary_anchors,
                proof_outputs: outputs,
                proof_groups: groups,
            },
        )
    }
}

/// The SHA-256 digest of a text's UTF-8 bytes, in lower-case hexadecimal.
pub uninterp spec fn sha256_hex(text: Seq<char>) -> Seq<char>;

/// Hashes a text with SHA-256 (`sha2::Sha256::digest` of its UTF-8 bytes,
/// printed with `{:x}`).  Trusted: the result is `sha256_hex` of the text,
/// 64 hexadecimal digits (32 bytes) long.
#[verifier::external_body]
pub(crate) fn sha256_hex_of(text: &str) -> (r: String)
    ensures
        r@ == sha256_hex(text@),
        r@.len() == 64,
{
    format!("{:x}", <sha2::Sha256 as sha2::Digest>::digest(text.as_bytes()))
}

/// The structural hash of a macro realization of `root` with text `text`.
pub open spec fn macro_hash_text(root: usize, text: Seq<char>) -> Seq<char> {
    "root="@ + decimal(root as nat) + "|resynth-macro:"@ + sha256_hex(text)
}

/// The structural hash of a macro realization: its root and the digest of
/// its expression text.
pub fn structural_hash(root: usize, text: &str) -> (r: String)
    ensures
        r@ == macro_hash_text(root, text@),
{
    let digest = sha256_hex_of(text);
    let mut v: Vec<char> = Vec::new();
    push_str(&mut v, "root=");
    push_decimal(&mut v, root);
    push_str(&mut v, "|resynth-macro:");
    push_str(&mut v, digest.as_str());
    assert(v@ =~= macro_hash_text(root, text@));
    string_of(v.as_slice())
}

/// Every choice of the plan, candidate after candidate.
pub open spec fn plan_choices(plan: Seq<JsonCandidate>) -> Seq<JsonChoice>
    decreases plan.len(),
{
    if plan.len() == 0 {
        Seq::empty()
    } else {
        plan_choices(plan.drop_last()) + plan.last().choices@
    }
}

/// The key of a choice: its root and expression text.
pub open spec fn choice_key(c: JsonChoice) -> (usize, Seq<char>) {
    (c.root_anchor, expr_text(c.expression))
}

/// The key of a realization: its root and expression text.
pub open spec fn realization_key(r: StructuralRealization) -> (usize, Seq<char>) {
    (r.root_anchor, r.expression_text@)
}

/// The order of keys: by root, then by text.
pub open spec fn pair_less(a: (usize, Seq<char>), b: (usize, Seq<char>)) -> bool {
    a.0 < b.0 || (a.0 == b.0 && chars_le(a.1, b.1) && a.1 != b.1)
}

/// The first choice with key `k` (-1 when none).
pub open spec fn first_with_key(cs: Seq<JsonChoice>, k: (usize, Seq<char>)) -> int
    decreases cs.len(),
{
    if cs.len() == 0 {
        -1
    } else {
        let f = first_with_key(cs.drop_last(), k);
        if f >= 0 {
            f
        } else if choice_key(cs.last()) == k {
            cs.len() - 1
        } else {
            -1
        }
    }
}

/// The realization that a plan choice becomes.
pub open spec fn is_plan_realization(r: StructuralRealization, c: JsonChoice) -> bool {
    &&& r.root_anchor == c.root_anchor
    &&& r.root_eclass@ == "occurrence:"@ + decimal(c.root_anchor as nat)
    &&& r.root_enode@ == macro_hash_text(c.root_anchor, expr_text(c.expression))
    &&& expr_model(r.expression) == expr_model(c.expression)
    &&& r.expression_text@ == expr_text(c.expression)
    &&& strictly_increasing(r.boundary_anchors@)
    &&& r.boundary_anchors@.to_set() == anchor_list(c.expression).to_set()
    &&& r.created_logical_nodes == expr_gates(c.expression)
    &&& r.logic_depth == expr_depth(c.expression)
    &&& r.structural_hash@ == macro_hash_text(c.root_anchor, expr_text(c.expression))
    &&& strings_view(r.provenance@) == seq!["multi-output-resynthesis"@]
    &&& r.first_seen_family == RuleFamily::Mixed
}

/// The realizations of the plan's first choices `done`: one per key, from
/// its first choice, in key order.
pub open spec fn plan_state(out: Seq<StructuralRealization>, done: Seq<JsonChoice>) -> bool {
    &&& forall|i: int, j: int|
        0 <= i < j < out.len() ==> pair_less(
            realization_key(#[trigger] out[i]),
            realization_key(#[trigger] out[j]),
        )
    &&& forall|k: int|
        0 <= k < out.len() ==> {
            let f = first_with_key(done, realization_key(#[trigger] out[k]));
            0 <= f < done.len() && is_plan_realization(out[k], done[f])
        }
    &&& forall|f: int|
        0 <= f < done.len() ==> exists|k: int|
            0 <= k < out.len() && realization_key(#[trigger] out[k]) == choice_key(#[trigger] done[f])
}

proof fn lemma_first_with_key(cs: Seq<JsonChoice>, k: (usize, Seq<char>))
    ensures
        -1 <= first_with_key(cs, k) < cs.len(),
        first_with_key(cs, k) >= 0 ==> choice_key(cs[first_with_key(cs, k)]) == k,
        first_with_key(cs, k) < 0 ==> forall|g: int| 0 <= g < cs.len() ==> choice_key(#[trigger] cs[g]) != k,
    decreases cs.len(),
{
    if cs.len() > 0 {
        lemma_first_with_key(cs.drop_last(), k);
        if first_with_key(cs, k) < 0 {
            assert forall|g: int| 0 <= g < cs.len() implies choice_key(#[trigger] cs[g]) != k by {
                if g < cs.len() - 1 {
                    assert(cs[g] == cs.drop_last()[g]);
                }
            }
        }
    }
}

proof fn lemma_pair_less_trans(a: (usize, Seq<char>), b: (usize, Seq<char>), c: (usize, Seq<char>))
    requires
        pair_less(a, b),
        pair_less(b, c),
    ensures
        pair_less(a, c),
{
    if a.0 == b.0 && b.0 == c.0 {
        lemma_chars_le_trans(a.1, b.1, c.1);
        if a.1 == c.1 {
            lemma_chars_le_antisym(a.1, b.1);
        }
    }
}

fn key_less_exec(a: &StructuralRealization, root: usize, text: &String) -> (r: bool)
    ensures
        r == pair_less(realization_key(*a), (root, text@)),
{
    if a.root_anchor != root {
        return a.root_anchor < root;
    }
    let x = chars_of(a.expression_text.as_str());
    let y = chars_of(text.as_str());
    chars_less_eq(x.as_slice(), y.as_slice()) && !same_string(&a.expression_text, text)
}

/// The realization of one plan choice.
fn plan_realization(c: &JsonChoice, text: String) -> (r: StructuralRealization)
    requires
        expr_size(c.expression) <= usize::MAX,
        text@ == expr_text(c.expression),
    ensures
        is_plan_realization(r, *c),
{
    let hash = structural_hash(c.root_anchor, text.as_str());
    let (gates, depth) = metrics(&c.expression);
    let mut eclass: Vec<char> = Vec::new();
    push_str(&mut eclass, "occurrence:");
    push_decimal(&mut eclass, c.root_anchor);
    let provenance = vec!["multi-output-resynthesis".to_string()];
    assert(strings_view(provenance@) =~= seq!["multi-output-resynthesis"@]);
    StructuralRealization {
        root_anchor: c.root_anchor,
        root_eclass: string_of(eclass.as_slice()),
        root_enode: hash.clone(),
        expression: copy_expr(&c.expression),
        expression_text: text,
        boundary_anchors: boundary_anchors(&c.expression),
        created_logical_nodes: gates,
        logic_depth: depth,
        structural_hash: hash,
        provenance,
        first_seen_family: RuleFamily::Mixed,
    }
}

/// Adds the realization of choice `c` unless one with its key exists.
fn absorb_choice(
    out: &mut Vec<StructuralRealization>,
    c: &JsonChoice,
    Ghost(done): Ghost<Seq<JsonChoice>>,
)
    requires
        plan_state(old(out)@, done),
        expr_size(c.expression) <= usize::MAX,
    ensures
        plan_state(final(out)@, done.push(*c)),
{
    let ghost d2 = done.push(*c);
    assert(d2.drop_last() =~= done);
    let ghost key = choice_key(*c);
    let ghost old_out = out@;
    proof {
        lemma_first_with_key(done, key);
    }
    let text = expression_text(&c.expression);
    let mut k: usize = 0;
    while k < out.len() && !(out[k].root_anchor == c.root_anchor && same_string(
        &out[k].expression_text,
        &text,
    ))
        invariant
            0 <= k <= out@.len(),
            text@ == key.1,
            key == choice_key(*c),
            forall|j: int| 0 <= j < k ==> realization_key(#[trigger] out@[j]) != key,
        decreases out.len() - k,
    {
        k = k + 1;
    }
    if k < out.len() {
        assert(realization_key(out@[k as int]) == key);
        assert forall|j: int| 0 <= j < out@.len() implies {
            let f = first_with_key(d2, realization_key(#[trigger] out@[j]));
            0 <= f < d2.len() && is_plan_realization(out@[j], d2[f])
        } by {
            let kj = realization_key(out@[j]);
            lemma_first_with_key(done, kj);
            assert(first_with_key(d2, kj) == first_with_key(done, kj));
            assert(d2[first_with_key(done, kj)] == done[first_with_key(done, kj)]);
        }
        assert forall|f: int| 0 <= f < d2.len() implies exists|q: int|
            0 <= q < out@.len() && realization_key(#[trigger] out@[q]) == choice_key(#[trigger] d2[f]) by {
            if f < done.len() {
                assert(d2[f] == done[f]);
            } else {
                assert(realization_key(out@[k as int]) == choice_key(d2[f]));
            }
        }
        return ;
    }
    assert(first_with_key(done, key) < 0) by {
        if first_with_key(done, key) >= 0 {
            let f = first_with_key(done, key);
            let q = choose|q: int|
                0 <= q < old_out.len() && realization_key(#[trigger] old_out[q]) == choice_key(
                    #[trigger] done[f],
                );
            assert(realization_key(old_out[q]) == key);
        }
    }
    let mut pos: usize = 0;
    while pos < out.len() && key_less_exec(&out[pos], c.root_anchor, &text)
        invariant
            0 <= pos <= out@.len(),
            out@ == old_out,
            text@ == key.1,
            key == choice_key(*c),
            forall|j: int| 0 <= j < pos ==> pair_less(realization_key(#[trigger] out@[j]), key),
        decreases out.len() - pos,
    {
        pos = pos + 1;
    }
    proof {
        if pos < out@.len() {
            lemma_chars_le_total(out@[pos as int].expression_text@, key.1);
        }
    }
    let x = plan_realization(c, text);
    assert(realization_key(x) == key);
    out.insert(pos, x);
    assert forall|a: int, b: int| 0 <= a < b < out@.len() implies pair_less(
        realization_key(#[trigger] out@[a]),
        realization_key(#[trigger] out@[b]),
    ) by {
        if b < pos {
            assert(pair_less(realization_key(old_out[a]), realization_key(old_out[b])));
        } else if b == pos {
            assert(out@[a] == old_out[a]);
        } else if a < pos {
            assert(out@[b] == old_out[b - 1]);
            if b - 1 > pos {
                assert(pair_less(realization_key(old_out[pos as int]), realization_key(old_out[b - 1])));
                lemma_pair_less_trans(key, realization_key(old_out[pos as int]), realization_key(old_out[b - 1]));
            }
            lemma_pair_less_trans(realization_key(old_out[a]), key, realization_key(old_out[b - 1]));
        } else if a == pos {
            assert(out@[b] == old_out[b - 1]);
            if b - 1 > pos {
                assert(pair_less(realization_key(old_out[pos as int]), realization_key(old_out[b - 1])));
                lemma_pair_less_trans(key, realization_key(old_out[pos as int]), realization_key(old_out[b - 1]));
            }
        } else {
            assert(pair_less(realization_key(old_out[a - 1]), realization_key(old_out[b - 1])));
        }
    }
    assert forall|j: int| 0 <= j < out@.len() implies {
        let f = first_with_key(d2, realization_key(#[trigger] out@[j]));
        0 <= f < d2.len() && is_plan_realization(out@[j], d2[f])
    } by {
        if j == pos {
            assert(first_with_key(d2, key) == done.len());
        } else {
            let j0 = if j < pos {
                j
            } else {
                j - 1
            };
            assert(out@[j] == old_out[j0]);
            let kj = realization_key(old_out[j0]);
            lemma_first_with_key(done, kj);
            assert(first_with_key(d2, kj) == first_with_key(done, kj));
            assert(d2[first_with_key(done, kj)] == done[first_with_key(done, kj)]);
        }
    }
    assert forall|f: int| 0 <= f < d2.len() implies exists|q: int|
        0 <= q < out@.len() && realization_key(#[trigger] out@[q]) == choice_key(#[trigger] d2[f]) by {
        if f < done.len() {
            assert(d2[f] == done[f]);
            let q = choose|q: int|
                0 <= q < old_out.len() && realization_key(#[trigger] old_out[q]) == choice_key(
                    #[trigger] done[f],
                );
            if q < pos {
                assert(out@[q] == old_out[q]);
            } else {
                assert(out@[q + 1] == old_out[q]);
            }
        } else {
            assert(realization_key(out@[pos as int]) == choice_key(d2[f]));
        }
    }
}

/// The structural realizations of a plan: one for each distinct root and
/// expression text (from its first choice), ordered by root and text.
pub fn plan_realizations(plan: &Vec<JsonCandidate>) -> (r: Vec<StructuralRealization>)
    requires
        forall|c: int, j: int|
            0 <= c < plan@.len() && 0 <= j < plan@[c].choices@.len() ==> expr_size(
                (#[trigger] plan@[c].choices@[j]).expression,
            ) <= usize::MAX,
    ensures
        plan_state(r@, plan_choices(plan@)),
{
    let mut out: Vec<StructuralRealization> = Vec::new();
    let mut ci: usize = 0;
    assert(plan@.take(0) =~= Seq::<JsonCandidate>::empty());
    while ci < plan.len()
        invariant
            0 <= ci <= plan@.len(),
            plan_state(out@, plan_choices(plan@.take(ci as int))),
            forall|c: int, j: int|
                0 <= c < plan@.len() && 0 <= j < plan@[c].choices@.len() ==> expr_size(
                    (#[trigger] plan@[c].choices@[j]).expression,
                ) <= usize::MAX,
        decreases plan.len() - ci,
    {
        let cand = &plan[ci];
        let ghost head = plan_choices(plan@.take(ci as int));
        let mut j: usize = 0;
        assert(head + cand.choices@.take(0) =~= head);
        while j < cand.choices.len()
            invariant
                0 <= j <= cand.choices@.len(),
                ci < plan@.len(),
                *cand == plan@[ci as int],
                plan_state(out@, head + cand.choices@.take(j as int)),
                forall|c: int, jj: int|
                    0 <= c < plan@.len() && 0 <= jj < plan@[c].choices@.len() ==> expr_size(
                        (#[trigger] plan@[c].choices@[jj]).expression,
                    ) <= usize::MAX,
            decreases cand.choices.len() - j,
        {
            let c = &cand.choices[j];
            assert(expr_size(plan@[ci as int].choices@[j as int].expression) <= usize::MAX);
            absorb_choice(&mut out, c, Ghost(head + cand.choices@.take(j as int)));
            assert((head + cand.choices@.take(j as int)).push(*c) =~= head + cand.choices@.take(j + 1));
            j = j + 1;
        }
        let ghost t = plan@.take(ci + 1);
        assert(t.drop_last() =~= plan@.take(ci as int));
        assert(cand.choices@.take(j as int) =~= cand.choices@);
        assert(plan_choices(t) == head + cand.choices@);
        ci = ci + 1;
    }
    assert(plan@.take(ci as int) =~= plan@);
    out
}

/// The choices of all proof groups, group after group.
pub open spec fn group_choices(gs: Seq<JsonProofGroup>) -> Seq<JsonChoice>
    decreases gs.len(),
{
    if gs.len() == 0 {
        Seq::empty()
    } else {
        group_choices(gs.drop_last()) + gs.last().choices@
    }
}

/// The keys of a list of choices.
pub open spec fn choice_keys(cs: Seq<JsonChoice>) -> Seq<(usize, Seq<char>)> {
    cs.map_values(|c: JsonChoice| choice_key(c))
}

/// No key occurs twice.
pub open spec fn keys_distinct(ks: Seq<(usize, Seq<char>)>) -> bool {
    forall|i: int, j: int| 0 <= i < j < ks.len() ==> #[trigger] ks[i] != #[trigger] ks[j]
}

/// The proof manifest of a candidate covers its choices exactly: no root
/// and expression is chosen twice, none is proved twice, and the proved
/// ones are the chosen ones.
pub open spec fn manifest_covers(c: JsonCandidate) -> bool {
    let chosen = choice_keys(c.choices@);
    let proved = choice_keys(group_choices(c.proof_groups@));
    &&& keys_distinct(chosen)
    &&& keys_distinct(proved)
    &&& chosen.to_set() == proved.to_set()
}

/// The view of a list of keys.
pub open spec fn key_list(v: Seq<(usize, String)>) -> Seq<(usize, Seq<char>)> {
    v.map_values(|p: (usize, String)| (p.0, p.1@))
}

fn push_choice_keys(out: &mut Vec<(usize, String)>, cs: &Vec<JsonChoice>)
    ensures
        key_list(final(out)@) == key_list(old(out)@) + choice_keys(cs@),
{
    let ghost head = key_list(out@);
    let mut i: usize = 0;
    while i < cs.len()
        invariant
            0 <= i <= cs@.len(),
            key_list(out@) == head + choice_keys(cs@.take(i as int)),
        decreases cs.len() - i,
    {
        let text = expression_text(&cs[i].expression);
        let ghost before = key_list(out@);
        out.push((cs[i].root_anchor, text));
        assert(key_list(out@) =~= before.push(choice_key(cs@[i as int])));
        assert(choice_keys(cs@.take(i + 1)) =~= choice_keys(cs@.take(i as int)).push(
            choice_key(cs@[i as int]),
        ));
        i = i + 1;
    }
    assert(cs@.take(i as int) =~= cs@);
}

fn same_key(a: &(usize, String), b: &(usize, String)) -> (r: bool)
    ensures
        r == ((a.0, a.1@) == (b.0, b.1@)),
{
    a.0 == b.0 && same_string(&a.1, &b.1)
}

fn has_key(v: &Vec<(usize, String)>, k: &(usize, String)) -> (r: bool)
    ensures
        r == key_list(v@).contains((k.0, k.1@)),
{
    let mut i: usize = 0;
    while i < v.len()
        invariant
            0 <= i <= v@.len(),
            forall|j: int| 0 <= j < i ==> key_list(v@)[j] != (k.0, k.1@),
        decreases v.len() - i,
    {
        if same_key(&v[i], k) {
            assert(key_list(v@)[i as int] == (k.0, k.1@));
            return true;
        }
        i = i + 1;
    }
    false
}

fn all_distinct(v: &Vec<(usize, String)>) -> (r: bool)
    ensures
        r == keys_distinct(key_list(v@)),
{
    let ghost kv = key_list(v@);
    let mut i: usize = 0;
    while i < v.len()
        invariant
            0 <= i <= v@.len(),
            kv == key_list(v@),
            forall|a: int, b: int| 0 <= a < b < v@.len() && a < i ==> #[trigger] kv[a] != #[trigger] kv[b],
        decreases v.len() - i,
    {
        let mut j: usize = i + 1;
        while j < v.len()
            invariant
                i < j <= v@.len(),
                kv == key_list(v@),
                forall|a: int, b: int| 0 <= a < b < v@.len() && a < i ==> #[trigger] kv[a] != #[trigger] kv[b],
                forall|b: int| i < b < j ==> kv[i as int] != #[trigger] kv[b],
            decreases v.len() - j,
        {
            if same_key(&v[i], &v[j]) {
                assert(kv[i as int] == kv[j as int]);
                return false;
            }
            j = j + 1;
        }
        i = i + 1;
    }
    true
}

fn all_contained(v: &Vec<(usize, String)>, w: &Vec<(usize, String)>) -> (r: bool)
    ensures
        r == (forall|i: int| 0 <= i < v@.len() ==> key_list(w@).contains(#[trigger] key_list(v@)[i])),
{
    let mut i: usize = 0;
    while i < v.len()
        invariant
            0 <= i <= v@.len(),
            forall|j: int| 0 <= j < i ==> key_list(w@).contains(#[trigger] key_list(v@)[j]),
        decreases v.len() - i,
    {
        if !has_key(w, &v[i]) {
            assert(!key_list(w@).contains(key_list(v@)[i as int]));
            return false;
        }
        i = i + 1;
    }
    true
}

/// Whether a candidate's proof manifest covers its choices exactly (the
/// part of its proof that needs no netlist).
pub fn proof_manifest_covers(candidate: &JsonCandidate) -> (r: bool)
    ensures
        r == manifest_covers(*candidate),
{
    let mut chosen: Vec<(usize, String)> = Vec::new();
    push_choice_keys(&mut chosen, &candidate.choices);
    assert(key_list(chosen@) =~= choice_keys(candidate.choices@));
    let mut proved: Vec<(usize, String)> = Vec::new();
    let mut g: usize = 0;
    assert(candidate.proof_groups@.take(0) =~= Seq::<JsonProofGroup>::empty());
    assert(key_list(proved@) =~= choice_keys(group_choices(candidate.proof_groups@.take(0))));
    while g < candidate.proof_groups.len()
        invariant
            0 <= g <= candidate.proof_groups@.len(),
            key_list(proved@) == choice_keys(group_choices(candidate.proof_groups@.take(g as int))),
        decreases candidate.proof_groups.len() - g,
    {
        push_choice_keys(&mut proved, &candidate.proof_groups[g].choices);
        let ghost t = candidate.proof_groups@.take(g + 1);
        assert(t.drop_last() =~= candidate.proof_groups@.take(g as int));
        assert(choice_keys(group_choices(t)) =~= choice_keys(
            group_choices(candidate.proof_groups@.take(g as int)),
        ) + choice_keys(candidate.proof_groups@[g as int].choices@));
        g = g + 1;
    }
    assert(candidate.proof_groups@.take(g as int) =~= candidate.proof_groups@);
    let ghost a = key_list(chosen@);
    let ghost b = key_list(proved@);
    let forward = all_contained(&chosen, &proved);
    let backward = all_contained(&proved, &chosen);
    proof {
        if forward && backward {
            assert forall|x| a.to_set().contains(x) <==> b.to_set().contains(x) by {
                if a.to_set().contains(x) {
                    let i = choose|i: int| 0 <= i < a.len() && a[i] == x;
                    assert(b.contains(a[i]));
                }
                if b.to_set().contains(x) {
                    let i = choose|i: int| 0 <= i < b.len() && b[i] == x;
                    assert(a.contains(b[i]));
                }
            }
            assert(a.to_set() =~= b.to_set());
        } else if !forward {
            let i = choose|i: int| 0 <= i < a.len() && !b.contains(#[trigger] a[i]);
            assert(a.to_set().contains(a[i]));
            assert(!b.to_set().contains(a[i]));
        } else {
            let i = choose|i: int| 0 <= i < b.len() && !a.contains(#[trigger] b[i]);
            assert(b.to_set().contains(b[i]));
            assert(!a.to_set().contains(b[i]));
        }
    }
    all_distinct(&chosen) && all_distinct(&proved) && forward && backward
}


/// The first e-node named `id` among `es[k..]`.
pub open spec fn enode_from(es: Seq<RegionEnode>, k: nat, id: Seq<char>) -> Option<RegionEnode>
    decreases es.len() - k,
{
    if k >= es.len() {
        None
    } else if es[k as int].enode_id@ == id {
        Some(es[k as int])
    } else {
        enode_from(es, k + 1, id)
    }
}

/// The first e-node named `id` in the classes `cs[i..]`, class by class.
pub open spec fn space_enode_from(cs: Seq<RegionClass>, i: nat, id: Seq<char>) -> Option<RegionEnode>
    decreases cs.len() - i,
{
    if i >= cs.len() {
        None
    } else {
        match enode_from(cs[i as int].enodes@, 0, id) {
            Some(e) => Some(e),
            None => space_enode_from(cs, i + 1, id),
        }
    }
}

/// The e-node of the space named `id`.
pub open spec fn space_enode(space: RegionSpace, id: Seq<char>) -> Option<RegionEnode> {
    space_enode_from(space.classes@, 0, id)
}

/// The e-node a macro choice selects: its own realization where the space
/// holds it, else the incumbent of its root's class (a drive-only alias
/// that the space left out).
pub open spec fn chosen_enode(space: RegionSpace, c: JsonChoice) -> Seq<char> {
    let proposed = macro_hash_text(c.root_anchor, expr_text(c.expression));
    if space_enode(space, proposed) is Some {
        proposed
    } else {
        space.classes@[class_index(space.classes@, c.root_anchor)].incumbent_enode@
    }
}

/// The e-class name `occurrence:<anchor>`.
pub open spec fn occurrence_text(anchor: usize) -> Seq<char> {
    "occurrence:"@ + decimal(anchor as nat)
}

/// Whether a selected e-node leaves its class's incumbent.
pub open spec fn leaves_incumbent(space: RegionSpace, id: Seq<char>) -> bool {
    space_enode(space, id) matches Some(e) && !e.incumbent
}

/// How many of `cs[k..]` leave their incumbent.
pub open spec fn changed_from(space: RegionSpace, cs: Seq<RegionChoice>, k: nat) -> nat
    decreases cs.len() - k,
{
    if k >= cs.len() {
        0
    } else {
        (if leaves_incumbent(space, cs[k as int].enode_id@) {
            1nat
        } else {
            0nat
        }) + changed_from(space, cs, k + 1)
    }
}

/// Whether the e-node named `id` is in the space, and then whether it is
/// an incumbent.
fn find_enode(space: &RegionSpace, id: &String) -> (r: Option<bool>)
    ensures
        match space_enode(*space, id@) {
            Some(e) => r == Some(e.incumbent),
            None => r is None,
        },
{
    let mut i: usize = 0;
    while i < space.classes.len()
        invariant
            0 <= i <= space.classes@.len(),
            space_enode_from(space.classes@, i as nat, id@) == space_enode(*space, id@),
        decreases space.classes.len() - i,
    {
        let es = &space.classes[i].enodes;
        let mut k: usize = 0;
        while k < es.len()
            invariant
                0 <= k <= es@.len(),
                i < space.classes@.len(),
                *es == space.classes@[i as int].enodes,
                enode_from(es@, k as nat, id@) == enode_from(es@, 0, id@),
                space_enode_from(space.classes@, i as nat, id@) == space_enode(*space, id@),
            decreases es.len() - k,
        {
            if same_string(&es[k].enode_id, id) {
                assert(enode_from(es@, k as nat, id@) == Some(es@[k as int]));
                assert(space_enode_from(space.classes@, i as nat, id@) == Some(es@[k as int]));
                return Some(es[k].incumbent);
            }
            k = k + 1;
        }
        assert(enode_from(space.classes@[i as int].enodes@, 0, id@) is None);
        i = i + 1;
    }
    None
}

/// The e-class name `occurrence:<anchor>`.
fn occurrence_eclass(anchor: usize) -> (r: String)
    ensures
        r@ == occurrence_text(anchor),
{
    let mut v: Vec<char> = Vec::new();
    push_str(&mut v, "occurrence:");
    push_decimal(&mut v, anchor);
    string_of(v.as_slice())
}

/// The complete assignment a macro candidate makes in the region space: for
/// each choice its occurrence class and the e-node it selects, and how many
/// of them leave their incumbent.
pub fn candidate_assignment(space: &RegionSpace, candidate: &JsonCandidate) -> (r: RegionAssignment)
    requires
        forall|k: int|
            0 <= k < candidate.choices@.len() ==> space_enode(
                *space,
                macro_hash_text(
                    (#[trigger] candidate.choices@[k]).root_anchor,
                    expr_text(candidate.choices@[k].expression),
                ),
            ) is Some || class_index(space.classes@, candidate.choices@[k].root_anchor) >= 0,
    ensures
        r.choices@.len() == candidate.choices@.len(),
        forall|k: int|
            0 <= k < r.choices@.len() ==> (#[trigger] r.choices@[k]).eclass_id@ == occurrence_text(
                candidate.choices@[k].root_anchor,
            ) && r.choices@[k].enode_id@ == chosen_enode(*space, candidate.choices@[k]),
        r.changed_eclasses == changed_from(*space, r.choices@, 0),
{
    let mut choices: Vec<RegionChoice> = Vec::new();
    let mut k: usize = 0;
    while k < candidate.choices.len()
        invariant
            0 <= k <= candidate.choices@.len(),
            choices@.len() == k,
            forall|j: int|
                0 <= j < k ==> (#[trigger] choices@[j]).eclass_id@ == occurrence_text(
                    candidate.choices@[j].root_anchor,
                ) && choices@[j].enode_id@ == chosen_enode(*space, candidate.choices@[j]),
            forall|j: int|
                0 <= j < candidate.choices@.len() ==> space_enode(
                    *space,
                    macro_hash_text(
                        (#[trigger] candidate.choices@[j]).root_anchor,
                        expr_text(candidate.choices@[j].expression),
                    ),
                ) is Some || class_index(space.classes@, candidate.choices@[j].root_anchor) >= 0,
        decreases candidate.choices.len() - k,
    {
        let c = &candidate.choices[k];
        let text = expression_text(&c.expression);
        let proposed = structural_hash(c.root_anchor, text.as_str());
        let enode_id = match find_enode(space, &proposed) {
            Some(_) => proposed,
            None => {
                let idx = match space.class_by_anchor(c.root_anchor) {
                    Some(i) => i,
                    None => {
                        assert(false);
                        0
                    },
                };
                copy_string_of(&space.classes[idx].incumbent_enode)
            },
        };
        choices.push(RegionChoice { eclass_id: occurrence_eclass(c.root_anchor), enode_id });
        k = k + 1;
    }
    let mut changed: usize = 0;
    let total = choices.len();
    let mut j: usize = total;
    while j > 0
        invariant
            0 <= j <= choices@.len(),
            choices@.len() == total,
            changed == changed_from(*space, choices@, j as nat),
            changed <= choices@.len() - j,
        decreases j,
    {
        j = j - 1;
        if let Some(incumbent) = find_enode(space, &choices[j].enode_id) {
            if !incumbent {
                changed = changed + 1;
            }
        }
    }
    RegionAssignment { choices, changed_eclasses: changed }
}

/// Whether macro choice `c` can be placed in the region space: the space
/// holds its realization, or its root has an occurrence class.
pub open spec fn choice_placeable(space: RegionSpace, c: JsonChoice) -> bool {
    space_enode(space, macro_hash_text(c.root_anchor, expr_text(c.expression))) is Some || class_index(
        space.classes@,
        c.root_anchor,
    ) >= 0
}

/// The assignment of a macro candidate when every choice can be placed
/// (see `candidate_assignment`), and nothing otherwise.
pub fn try_candidate_assignment(space: &RegionSpace, candidate: &JsonCandidate) -> (r: Option<RegionAssignment>)
    ensures
        r is Some <==> forall|k: int| 0 <= k < candidate.choices@.len() ==> choice_placeable(*space, #[trigger] candidate.choices@[k]),
        r matches Some(a) ==> {
            &&& a.choices@.len() == candidate.choices@.len()
            &&& forall|k: int|
                0 <= k < a.choices@.len() ==> (#[trigger] a.choices@[k]).eclass_id@ == occurrence_text(
                    candidate.choices@[k].root_anchor,
                ) && a.choices@[k].enode_id@ == chosen_enode(*space, candidate.choices@[k])
            &&& a.changed_eclasses == changed_from(*space, a.choices@, 0)
        },
{
    let mut k: usize = 0;
    while k < candidate.choices.len()
        invariant
            0 <= k <= candidate.choices@.len(),
            forall|j: int| 0 <= j < k ==> choice_placeable(*space, #[trigger] candidate.choices@[j]),
        decreases candidate.choices.len() - k,
    {
        let c = &candidate.choices[k];
        let text = expression_text(&c.expression);
        let proposed = structural_hash(c.root_anchor, text.as_str());
        if find_enode(space, &proposed).is_none() && space.class_by_anchor(c.root_anchor).is_none() {
            assert(!choice_placeable(*space, candidate.choices@[k as int]));
            return None;
        }
        k = k + 1;
    }
    Some(candidate_assignment(space, candidate))
}

/// A copy of a string.
fn copy_string_of(s: &String) -> (r: String)
    ensures
        r@ == s@,
{
    s.clone()
}

} // verus!
