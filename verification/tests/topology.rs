use mac_egg::language::StdCellType;
use mac_egg::netlist::Netlist;
use mac_egg::topology::{physicalize_topology, TopologyExpr, TopologySelection};

fn add_node(netlist: &mut Netlist<StdCellType>, op: &str) -> usize {
    netlist.add_node(StdCellType::from_op(op))
}

fn connect(netlist: &mut Netlist<StdCellType>, parent: usize, children: &[usize]) {
    for child in children {
        netlist.add_edge(parent, *child);
    }
}

fn two_input_single_gate(op: &str) -> (Netlist<StdCellType>, usize, [usize; 2]) {
    let mut netlist = Netlist::new();
    let a = add_node(&mut netlist, "a");
    let b = add_node(&mut netlist, "b");
    netlist.leaves.extend([a, b]);
    let gate = add_node(&mut netlist, op);
    connect(&mut netlist, gate, &[a, b]);
    let output = add_node(&mut netlist, "y");
    connect(&mut netlist, output, &[gate]);
    netlist.roots.push(output);
    (netlist, gate, [a, b])
}

fn count_cells(netlist: &Netlist<StdCellType>, name: &str) -> usize {
    netlist
        .nodes
        .iter()
        .filter(|cell| cell.to_string() == name)
        .count()
}

#[test]
fn topology_t0_boolean_equivalence_nand_and_inv_and() {
    for a in [false, true] {
        for b in [false, true] {
            assert_eq!(!(a && b), !(a && b));
        }
    }
}

#[test]
fn topology_t0_case_a_one_gate_to_two_gates() {
    let (source, gate, [a, b]) = two_input_single_gate("NAND2x1_ASAP7_6t_L");
    let mut selection = TopologySelection::new();
    selection.set_choice(
        gate,
        TopologyExpr::cell(
            "INVx1_ASAP7_6t_L",
            vec![TopologyExpr::cell(
                "AND2x2_ASAP7_6t_L",
                vec![TopologyExpr::Anchor(a), TopologyExpr::Anchor(b)],
            )],
        ),
    );
    let physical = physicalize_topology(&source, &selection).unwrap();
    assert_eq!(physical.created.len(), 1);
    assert_eq!(physical.netlist.node_count(), source.node_count() + 1);
    assert_eq!(physical.netlist.roots.len(), 1);
    assert!(physical.netlist.toposort().is_ok());
}

#[test]
fn topology_t0_case_b_two_gates_to_one_removes_dead_gate() {
    // The AND gate drives an inverter that drives the output.
    let mut source = Netlist::new();
    let a = add_node(&mut source, "a");
    let b = add_node(&mut source, "b");
    source.leaves.extend([a, b]);
    let and_gate = add_node(&mut source, "AND2x2_ASAP7_6t_L");
    connect(&mut source, and_gate, &[a, b]);
    let output = add_node(&mut source, "y");
    source.roots.push(output);
    let inv = add_node(&mut source, "INVx1_ASAP7_6t_L");
    connect(&mut source, inv, &[and_gate]);
    connect(&mut source, output, &[inv]);
    let mut selection = TopologySelection::new();
    selection.set_choice(
        inv,
        TopologyExpr::cell(
            "NAND2x1_ASAP7_6t_L",
            vec![TopologyExpr::Anchor(a), TopologyExpr::Anchor(b)],
        ),
    );
    let physical = physicalize_topology(&source, &selection).unwrap();
    assert!(physical.deleted_originals.contains(&and_gate));
    assert_eq!(physical.netlist.node_count() + 1, source.node_count());
}

#[test]
fn topology_t0_case_c_equal_logic_anchors_never_merge() {
    let mut source = Netlist::new();
    let a = add_node(&mut source, "a");
    let b = add_node(&mut source, "b");
    source.leaves.extend([a, b]);
    let g0 = add_node(&mut source, "NAND2x1_ASAP7_6t_L");
    let g1 = add_node(&mut source, "NAND2x1_ASAP7_6t_L");
    connect(&mut source, g0, &[a, b]);
    connect(&mut source, g1, &[a, b]);
    for (name, gate) in [("y0", g0), ("y1", g1)] {
        let output = add_node(&mut source, name);
        connect(&mut source, output, &[gate]);
        source.roots.push(output);
    }
    let physical = physicalize_topology(&source, &TopologySelection::new()).unwrap();
    assert_ne!(
        physical.original_to_materialized[g0],
        physical.original_to_materialized[g1]
    );
    assert_eq!(count_cells(&physical.netlist, "NAND2x1_ASAP7_6t_L"), 2);
}

#[test]
fn topology_t0_case_d_shared_fanout_materializes_driver_once() {
    let mut source = Netlist::new();
    let a = add_node(&mut source, "a");
    let b = add_node(&mut source, "b");
    source.leaves.extend([a, b]);
    let driver = add_node(&mut source, "NAND2x1_ASAP7_6t_L");
    connect(&mut source, driver, &[a, b]);
    for name in ["y0", "y1"] {
        let consumer = add_node(&mut source, "INVx1_ASAP7_6t_L");
        connect(&mut source, consumer, &[driver]);
        let output = add_node(&mut source, name);
        connect(&mut source, output, &[consumer]);
        source.roots.push(output);
    }
    let physical = physicalize_topology(&source, &TopologySelection::new()).unwrap();
    let materialized_driver = physical.original_to_materialized[driver].unwrap();
    assert_eq!(physical.netlist.outputs(materialized_driver).len(), 2);
    assert_eq!(count_cells(&physical.netlist, "NAND2x1_ASAP7_6t_L"), 1);
}

#[test]
fn topology_t0_case_e_cycle_is_rejected() {
    let (source, gate, _) = two_input_single_gate("NAND2x1_ASAP7_6t_L");
    let mut selection = TopologySelection::new();
    selection.set_choice(
        gate,
        TopologyExpr::cell("INVx1_ASAP7_6t_L", vec![TopologyExpr::Anchor(gate)]),
    );
    let error = physicalize_topology(&source, &selection).unwrap_err();
    assert!(error.contains("dependency cycle"));
}

#[test]
fn base_selection_keeps_every_reachable_original() {
    let (source, _, _) = two_input_single_gate("NAND2x1_ASAP7_6t_L");
    let base = physicalize_topology(&source, &TopologySelection::new()).unwrap();
    assert_eq!(base.netlist.node_count(), source.node_count());
    assert!(base.deleted_originals.is_empty());
    assert!(base.created.is_empty());
}
