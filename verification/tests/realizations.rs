use mac_egg::materialize::{candidate_assignment, try_candidate_assignment};
use mac_egg::phase_i::{RegionClass, RegionEnode, RegionSpace};
use mac_egg::equivalence::{
    EquivalenceProofKind, EquivalenceSource, EquivalenceTarget, UnifiedEnode,
    UnifiedEquivalenceCandidate, UnifiedProofGroup,
};
use mac_egg::flow_args::append_suffix;
use mac_egg::language::StdCellType;
use mac_egg::materialize::{
    plan_realizations, proof_manifest_covers, structural_hash, JsonCandidate, JsonChoice,
    JsonProofGroup,
};
use mac_egg::netlist::Netlist;
use mac_egg::phase_i;
use mac_egg::realization::{
    boundary_anchors, dedup_realizations, inherit_preserved_root_size, metrics,
    realizations_from_cone, DedupStats, EnumeratedExpr, RuleFamily, StructuralRealization,
};
use mac_egg::text::parse_usize_checked;
use mac_egg::timing_state;
use mac_egg::topology::TopologyExpr;

fn cell(op: &str, children: Vec<TopologyExpr>) -> TopologyExpr {
    TopologyExpr::cell(op, children)
}

fn anchor(a: usize) -> TopologyExpr {
    TopologyExpr::Anchor(a)
}

fn nand_source() -> Netlist<StdCellType> {
    let mut n = Netlist::new();
    let a = n.add_node(StdCellType::from_op("a"));
    let b = n.add_node(StdCellType::from_op("b"));
    let g = n.add_node(StdCellType::from_op("NAND2x1_ASAP7_6t_L"));
    n.add_edge(g, a);
    n.add_edge(g, b);
    n.leaves.extend([a, b]);
    n
}

fn empty_stats() -> DedupStats {
    DedupStats {
        local_eclasses: 3,
        local_enodes: 4,
        raw_realizations: 0,
        unique_realizations: 0,
        duplicate_realizations: 0,
        cycle_pruned: 1,
        gate_bound_pruned: 2,
        excluded_phase1_drive_rewrites: 0,
        added_direct_structural_seed_rewrites: 0,
    }
}

fn realization(root: usize, hash: &str, provenance: &[&str]) -> StructuralRealization {
    StructuralRealization {
        root_anchor: root,
        root_eclass: "e".to_string(),
        root_enode: hash.to_string(),
        expression: anchor(root),
        expression_text: format!("@{root}"),
        boundary_anchors: vec![root],
        created_logical_nodes: 0,
        logic_depth: 0,
        structural_hash: hash.to_string(),
        provenance: provenance.iter().map(|s| s.to_string()).collect(),
        first_seen_family: RuleFamily::Inv,
    }
}

#[test]
fn boundaries_are_sorted_and_unique() {
    let e = cell("AND2", vec![anchor(7), cell("INV", vec![anchor(3)]), anchor(7)]);
    assert_eq!(boundary_anchors(&e), vec![3, 7]);
    assert_eq!(metrics(&e), (2, 2));
    assert_eq!(metrics(&anchor(4)), (0, 0));
}

#[test]
fn root_size_is_inherited_only_across_drives() {
    let mut e = cell("NAND2x2_ASAP7_6t_L", vec![anchor(0), anchor(1)]);
    inherit_preserved_root_size(&mut e, "NAND2x1_ASAP7_6t_L");
    assert!(matches!(&e, TopologyExpr::Cell { op, .. } if op == "NAND2x1_ASAP7_6t_L"));
    let mut f = cell("NOR2x2_ASAP7_6t_L", vec![anchor(0), anchor(1)]);
    inherit_preserved_root_size(&mut f, "NAND2x1_ASAP7_6t_L");
    assert!(matches!(&f, TopologyExpr::Cell { op, .. } if op == "NOR2x2_ASAP7_6t_L"));
}

#[test]
fn cone_drops_the_current_form() {
    let source = nand_source();
    let exprs = vec![
        // The current form, resized: dropped.
        EnumeratedExpr {
            expression: cell("NAND2x2_ASAP7_6t_L", vec![anchor(0), anchor(1)]),
            gates: 1,
            depth: 1,
            root_enode: "n0".to_string(),
        },
        // Commuted inputs: a structural alternative.
        EnumeratedExpr {
            expression: cell("NAND2x2_ASAP7_6t_L", vec![anchor(1), anchor(0)]),
            gates: 1,
            depth: 1,
            root_enode: "n1".to_string(),
        },
    ];
    let out = realizations_from_cone(
        &source,
        2,
        &"5".to_string(),
        exprs,
        &vec!["inv.json".to_string()],
        RuleFamily::Comm,
    );
    assert_eq!(out.len(), 1);
    let r = &out[0];
    assert_eq!(r.root_enode, "n1");
    assert_eq!(r.expression_text, "NAND2x1_ASAP7_6t_L(@1,@0)");
    assert_eq!(r.structural_hash, "root=2|NAND2_ASAP7_6t_L(@1,@0)");
    assert_eq!(r.boundary_anchors, vec![0, 1]);
    assert_eq!(r.provenance, vec!["inv.json".to_string()]);
    assert_eq!(r.first_seen_family, RuleFamily::Comm);
}

#[test]
fn duplicates_merge_their_provenance() {
    let raw = vec![
        realization(4, "root=4|b", &["x"]),
        realization(2, "root=2|a", &["x", "y"]),
        realization(4, "root=4|b", &["y", "x", "z"]),
        realization(2, "root=2|a", &["y"]),
    ];
    let (unique, stats) = dedup_realizations(raw, empty_stats());
    assert_eq!(unique.len(), 2);
    assert_eq!(unique[0].structural_hash, "root=2|a");
    assert_eq!(unique[0].provenance, vec!["x".to_string(), "y".to_string()]);
    assert_eq!(unique[1].structural_hash, "root=4|b");
    assert_eq!(
        unique[1].provenance,
        vec!["x".to_string(), "y".to_string(), "z".to_string()]
    );
    assert_eq!(stats.raw_realizations, 4);
    assert_eq!(stats.unique_realizations, 2);
    assert_eq!(stats.duplicate_realizations, 2);
    assert_eq!(stats.cycle_pruned, 1);
    assert_eq!(stats.local_enodes, 4);
}

fn virtual_enode(root: usize, e: TopologyExpr) -> UnifiedEnode {
    UnifiedEnode::VirtualGenerated {
        root_anchor: root,
        eclass_id: format!("physical.{root}"),
        expression: e,
    }
}

fn record(enodes: Vec<UnifiedEnode>, outputs: Option<Vec<usize>>) -> UnifiedEquivalenceCandidate {
    UnifiedEquivalenceCandidate {
        schema: "egg-unified-equivalence-candidate-v1".to_string(),
        candidate_id: "c1".to_string(),
        source: EquivalenceSource::CompiledContextualRewrite,
        target: EquivalenceTarget::WholeNetlist,
        enodes,
        boundary_anchors: vec![0, 1],
        output_anchors: vec![2],
        proof_kind: EquivalenceProofKind::BoundaryTruthTable,
        proof_outputs: outputs,
        proof_groups: vec![UnifiedProofGroup {
            enodes: vec![virtual_enode(2, anchor(0))],
            boundary_anchors: vec![0],
            output_anchors: vec![2],
        }],
        provenance: vec!["gen".to_string()],
    }
}

#[test]
fn plan_candidates_come_from_complete_records() {
    let ok = JsonCandidate::from_equivalence(record(
        vec![virtual_enode(2, cell("INV", vec![anchor(0)]))],
        Some(vec![2]),
    ))
    .unwrap();
    assert_eq!(ok.candidate_id, "c1");
    assert_eq!(ok.choices.len(), 1);
    assert_eq!(ok.choices[0].root_anchor, 2);
    assert_eq!(ok.proof_outputs, vec![2]);
    assert_eq!(ok.proof_groups.len(), 1);
    assert_eq!(ok.proof_groups[0].boundary, vec![0]);

    let missing = JsonCandidate::from_equivalence(record(
        vec![virtual_enode(2, anchor(0))],
        None,
    ));
    assert_eq!(
        missing.unwrap_err(),
        "complete equivalence record lacks exact proof outputs"
    );
    let referenced = JsonCandidate::from_equivalence(record(
        vec![UnifiedEnode::Ordinary {
            eclass_id: "e".to_string(),
            enode_id: "n".to_string(),
        }],
        None,
    ));
    assert_eq!(
        referenced.unwrap_err(),
        "referenced enodes require their resident choice space"
    );
}

#[test]
fn macro_hash_digests_the_text() {
    assert_eq!(
        structural_hash(3, "abc"),
        "root=3|resynth-macro:ba7816bf8f01cfea414140de5dae2223b00361a396177a9cb410ff61f20015ad"
    );
}

fn choice(root: usize, e: TopologyExpr) -> JsonChoice {
    JsonChoice {
        root_anchor: root,
        expression: e,
    }
}

#[test]
fn plan_realizations_are_keyed_by_root_and_text() {
    let plan = vec![
        JsonCandidate {
            candidate_id: "a".to_string(),
            provenance: vec![],
            choices: vec![
                choice(5, cell("INV", vec![anchor(1)])),
                choice(2, cell("AND2", vec![anchor(0), cell("INV", vec![anchor(1)])])),
            ],
            proof_boundary: vec![],
            proof_outputs: vec![],
            proof_groups: vec![],
        },
        JsonCandidate {
            candidate_id: "b".to_string(),
            provenance: vec![],
            choices: vec![choice(5, cell("INV", vec![anchor(1)]))],
            proof_boundary: vec![],
            proof_outputs: vec![],
            proof_groups: vec![],
        },
    ];
    let rs = plan_realizations(&plan);
    assert_eq!(rs.len(), 2);
    assert_eq!(rs[0].root_anchor, 2);
    assert_eq!(rs[0].expression_text, "AND2(@0,INV(@1))");
    assert_eq!(rs[0].created_logical_nodes, 2);
    assert_eq!(rs[0].logic_depth, 2);
    assert_eq!(rs[0].boundary_anchors, vec![0, 1]);
    assert_eq!(rs[0].root_eclass, "occurrence:2");
    assert_eq!(rs[0].root_enode, rs[0].structural_hash);
    assert!(rs[0].structural_hash.starts_with("root=2|resynth-macro:"));
    assert_eq!(rs[1].root_anchor, 5);
    assert_eq!(rs[1].provenance, vec!["multi-output-resynthesis".to_string()]);
    assert_eq!(rs[1].first_seen_family, RuleFamily::Mixed);
}

#[test]
fn proof_manifest_must_cover_choices_once() {
    let mut c = JsonCandidate {
        candidate_id: "m".to_string(),
        provenance: vec![],
        choices: vec![choice(1, anchor(0)), choice(2, anchor(0))],
        proof_boundary: vec![0],
        proof_outputs: vec![1, 2],
        proof_groups: vec![
            JsonProofGroup {
                choices: vec![choice(2, anchor(0))],
                boundary: vec![0],
                outputs: vec![2],
            },
            JsonProofGroup {
                choices: vec![choice(1, anchor(0))],
                boundary: vec![0],
                outputs: vec![1],
            },
        ],
    };
    assert!(proof_manifest_covers(&c));
    c.proof_groups[1].choices.push(choice(2, anchor(0)));
    assert!(!proof_manifest_covers(&c));
    c.proof_groups[1].choices.pop();
    c.proof_groups.pop();
    assert!(!proof_manifest_covers(&c));
}

#[test]
fn physical_class_names_give_anchors() {
    assert_eq!(timing_state::physical_anchor("physical.42"), Some(42));
    assert_eq!(timing_state::physical_anchor("occurrence:42"), None);
    assert_eq!(timing_state::physical_anchor("physical.x"), None);
    assert_eq!(phase_i::physical_anchor("physical.7"), Ok(7));
    assert_eq!(
        phase_i::physical_anchor("logical.7").unwrap_err(),
        "bad physical class"
    );
    assert_eq!(
        phase_i::physical_anchor("physical.").unwrap_err(),
        "cannot parse integer from empty string"
    );
    assert_eq!(
        phase_i::physical_anchor("physical.7a").unwrap_err(),
        "invalid digit found in string"
    );
    assert_eq!(
        phase_i::physical_anchor("physical.99999999999999999999").unwrap_err(),
        "number too large to fit in target type"
    );
}

#[test]
fn integer_faults_match_the_standard_parser() {
    for text in ["", "+", "-1", "12x", "99999999999999999999", "99999999999999999999x", "+5", "007"] {
        let ours = parse_usize_checked(text).map_err(|f| f.message());
        let std = text.parse::<usize>().map_err(|e| e.to_string());
        assert_eq!(ours, std, "{text:?}");
    }
}

#[test]
fn suffixes_go_on_the_file_name() {
    assert_eq!(append_suffix("out/run.v", ".bak"), "out/run.v.bak");
    assert_eq!(append_suffix("run.v", "_2"), "run.v_2");
    assert_eq!(append_suffix("/", ".x"), "output.x");
}

#[test]
fn cones_are_enumerated_for_inner_anchors_only() {
    let mut netlist: Netlist<StdCellType> = Netlist::new();
    for name in ["a", "b", "NAND2x1", "INVx1", "y"] {
        netlist.add_node(StdCellType::Symbol(name.to_string()));
    }
    netlist.leaves.push(0);
    netlist.leaves.push(1);
    netlist.roots.push(4);
    assert_eq!(mac_egg::realization::realization_roots(&netlist), vec![2, 3]);
}

#[test]
fn macro_candidates_select_their_realization_or_the_incumbent() {
    let nand = TopologyExpr::Cell {
        op: "NAND2x1".to_string(),
        children: vec![TopologyExpr::Anchor(1), TopologyExpr::Anchor(2)],
    };
    let inv = TopologyExpr::Cell {
        op: "INVx2".to_string(),
        children: vec![TopologyExpr::Anchor(3)],
    };
    let nand_hash = structural_hash(3, "NAND2x1(@1,@2)");
    let enode = |id: &str, incumbent: bool| RegionEnode {
        enode_id: id.to_string(),
        incumbent,
        boundary_anchors: vec![],
    };
    let space = RegionSpace {
        classes: vec![
            RegionClass {
                anchor: 3,
                eclass_id: "occurrence:3".to_string(),
                incumbent_enode: "inc3".to_string(),
                enodes: vec![enode("inc3", true), enode(&nand_hash, false)],
            },
            RegionClass {
                anchor: 4,
                eclass_id: "occurrence:4".to_string(),
                incumbent_enode: "inc4".to_string(),
                enodes: vec![enode("inc4", true)],
            },
        ],
    };
    let candidate = JsonCandidate {
        candidate_id: "c".to_string(),
        provenance: vec![],
        choices: vec![
            JsonChoice { root_anchor: 3, expression: nand },
            JsonChoice { root_anchor: 4, expression: inv },
        ],
        proof_boundary: vec![],
        proof_outputs: vec![],
        proof_groups: vec![],
    };
    let assignment = candidate_assignment(&space, &candidate);
    assert_eq!(assignment.changed_eclasses, 1);
    assert_eq!(assignment.choices[0].eclass_id, "occurrence:3");
    assert_eq!(assignment.choices[0].enode_id, nand_hash);
    assert_eq!(assignment.choices[1].eclass_id, "occurrence:4");
    assert_eq!(assignment.choices[1].enode_id, "inc4");
    let checked = try_candidate_assignment(&space, &candidate).expect("every choice is placeable");
    assert_eq!(checked.changed_eclasses, 1);
    assert_eq!(checked.choices[1].enode_id, "inc4");
    let stray = JsonCandidate {
        candidate_id: "d".to_string(),
        provenance: vec![],
        choices: vec![JsonChoice {
            root_anchor: 9,
            expression: TopologyExpr::Cell { op: "INVx1".to_string(), children: vec![TopologyExpr::Anchor(3)] },
        }],
        proof_boundary: vec![],
        proof_outputs: vec![],
        proof_groups: vec![],
    };
    assert!(try_candidate_assignment(&space, &stray).is_none());
}
