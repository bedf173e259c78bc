//! The occurrence-preserving physical space of a mapped netlist: every
//! netlist instance becomes a distinct e-class `physical.<i>` holding exactly
//! one e-node `physical.<i>.0`, whose children are the original physical
//! child occurrences.  It is the incumbent state that the scale search
//! starts from; every node costs one unit.
use vstd::prelude::*;

use crate::equivalence::{physical_eclass, physical_eclass_text};
use crate::language::{cell_text, StdCellType};
use crate::netlist::{fanins_of, Netlist};
use crate::text::{decimal, push_decimal, push_str, string_of};

verus! {

/// The e-node name of alternative `alternative` of occurrence `anchor`.
pub open spec fn physical_node_text(anchor: usize, alternative: usize) -> Seq<char> {
    "physical."@ + decimal(anchor as nat) + "."@ + decimal(alternative as nat)
}

/// The e-node name `physical.<anchor>.<alternative>`.
pub fn physical_node(anchor: usize, alternative: usize) -> (r: String)
    ensures
        r@ == physical_node_text(anchor, alternative),
{
    let mut v: Vec<char> = Vec::new();
    push_str(&mut v, "physical.");
    push_decimal(&mut v, anchor);
    push_str(&mut v, ".");
    push_decimal(&mut v, alternative);
    string_of(v.as_slice())
}

/// A serialized e-node of unit cost.
#[derive(Debug)]
pub struct PhysicalNode {
    pub node_id: String,
    pub op: String,
    pub children: Vec<String>,
    pub eclass: String,
}

/// A serialized e-graph: its nodes in insertion order and its root classes.
#[derive(Debug)]
pub struct PhysicalEGraph {
    pub nodes: Vec<PhysicalNode>,
    pub root_eclasses: Vec<String>,
}

/// The physical space with the extraction that picks the original node of
/// every class, and the class of every netlist node (by index).
#[derive(Debug)]
pub struct OccurrencePreservingScaleSpace {
    pub egraph: PhysicalEGraph,
    pub original_extraction: Vec<(String, String)>,
    pub netlist_node_to_class: Vec<String>,
}

/// The names of the original e-nodes of the occurrences `anchors`.
pub open spec fn child_node_texts(anchors: Seq<usize>) -> Seq<Seq<char>> {
    anchors.map_values(|a: usize| physical_node_text(a, 0))
}

/// The texts of a list of strings.
pub open spec fn texts(v: Seq<String>) -> Seq<Seq<char>> {
    v.map_values(|s: String| s@)
}

/// Node `i` of the space is the one original e-node of occurrence `i`.
pub open spec fn is_occurrence_node(n: PhysicalNode, netlist: Netlist<StdCellType>, i: int) -> bool {
    &&& n.node_id@ == physical_node_text(i as usize, 0)
    &&& n.op@ == cell_text(netlist.nodes@[i]@)
    &&& texts(n.children@) == child_node_texts(fanins_of(netlist.edges@, i))
    &&& n.eclass@ == physical_eclass_text(i as usize)
}

/// The space is the occurrence-preserving space of `netlist`.
pub open spec fn is_original_space(s: OccurrencePreservingScaleSpace, netlist: Netlist<StdCellType>) -> bool {
    let n = netlist.nodes@.len();
    &&& s.egraph.nodes@.len() == n
    &&& forall|i: int| 0 <= i < n ==> is_occurrence_node(#[trigger] s.egraph.nodes@[i], netlist, i)
    &&& s.egraph.root_eclasses@.len() == netlist.roots@.len()
    &&& forall|k: int|
        0 <= k < netlist.roots@.len() ==> (#[trigger] s.egraph.root_eclasses@[k])@
            == physical_eclass_text(netlist.roots@[k])
    &&& s.original_extraction@.len() == n
    &&& forall|i: int|
        0 <= i < n ==> (#[trigger] s.original_extraction@[i]).0@ == physical_eclass_text(i as usize)
            && s.original_extraction@[i].1@ == physical_node_text(i as usize, 0)
    &&& s.netlist_node_to_class@.len() == n
    &&& forall|i: int|
        0 <= i < n ==> (#[trigger] s.netlist_node_to_class@[i])@ == physical_eclass_text(i as usize)
}

/// The original e-node names of the children `anchors`.
fn child_nodes(anchors: &Vec<usize>) -> (r: Vec<String>)
    ensures
        texts(r@) == child_node_texts(anchors@),
{
    let mut r: Vec<String> = Vec::new();
    let mut k: usize = 0;
    while k < anchors.len()
        invariant
            0 <= k <= anchors@.len(),
            texts(r@) == child_node_texts(anchors@.take(k as int)),
        decreases anchors.len() - k,
    {
        r.push(physical_node(anchors[k], 0));
        assert(child_node_texts(anchors@.take(k + 1)) =~= child_node_texts(anchors@.take(k as int)).push(
            physical_node_text(anchors@[k as int], 0),
        ));
        assert(texts(r@) =~= child_node_texts(anchors@.take(k + 1)));
        k = k + 1;
    }
    assert(anchors@.take(k as int) =~= anchors@);
    r
}

/// Builds the original-only occurrence space directly from the mapped
/// netlist: each occurrence carries its own cell and ordered fanins, so no
/// logical e-graph is needed.
pub fn build_occurrence_preserving_original_space_direct(netlist: &Netlist<StdCellType>) -> (r:
    OccurrencePreservingScaleSpace)
    ensures
        is_original_space(r, *netlist),
{
    let mut nodes: Vec<PhysicalNode> = Vec::new();
    let mut extraction: Vec<(String, String)> = Vec::new();
    let mut to_class: Vec<String> = Vec::new();
    let n = netlist.nodes.len();
    let mut i: usize = 0;
    while i < n
        invariant
            0 <= i <= n,
            n == netlist.nodes@.len(),
            nodes@.len() == i,
            extraction@.len() == i,
            to_class@.len() == i,
            forall|j: int| 0 <= j < i ==> is_occurrence_node(#[trigger] nodes@[j], *netlist, j),
            forall|j: int|
                0 <= j < i ==> (#[trigger] extraction@[j]).0@ == physical_eclass_text(j as usize)
                    && extraction@[j].1@ == physical_node_text(j as usize, 0),
            forall|j: int| 0 <= j < i ==> (#[trigger] to_class@[j])@ == physical_eclass_text(j as usize),
        decreases n - i,
    {
        let inputs = netlist.inputs(i);
        let node = PhysicalNode {
            node_id: physical_node(i, 0),
            op: netlist.nodes[i].to_string(),
            children: child_nodes(&inputs),
            eclass: physical_eclass(i),
        };
        nodes.push(node);
        extraction.push((physical_eclass(i), physical_node(i, 0)));
        to_class.push(physical_eclass(i));
        i = i + 1;
    }
    let mut roots: Vec<String> = Vec::new();
    let mut k: usize = 0;
    while k < netlist.roots.len()
        invariant
            0 <= k <= netlist.roots@.len(),
            roots@.len() == k,
            forall|j: int|
                0 <= j < k ==> (#[trigger] roots@[j])@ == physical_eclass_text(netlist.roots@[j]),
        decreases netlist.roots.len() - k,
    {
        roots.push(physical_eclass(netlist.roots[k]));
        k = k + 1;
    }
    OccurrencePreservingScaleSpace {
        egraph: PhysicalEGraph { nodes, root_eclasses: roots },
        original_extraction: extraction,
        netlist_node_to_class: to_class,
    }
}

} // verus!
