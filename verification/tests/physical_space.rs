use mac_egg::language::StdCellType;
use mac_egg::netlist::Netlist;
use mac_egg::physical_space::{build_occurrence_preserving_original_space_direct, physical_node};

fn sym(s: &str) -> StdCellType {
    StdCellType::Symbol(s.to_string())
}

#[test]
fn original_space_has_one_node_per_occurrence() {
    let mut netlist = Netlist::new();
    let a = netlist.add_node(sym("a"));
    let one = netlist.add_node(StdCellType::Bool(true));
    let gate = netlist.add_node(sym("NAND2x1"));
    let y = netlist.add_node(sym("y"));
    netlist.add_edge(gate, a);
    netlist.add_edge(gate, one);
    netlist.add_edge(y, gate);
    netlist.roots.push(y);
    netlist.leaves.push(a);

    let space = build_occurrence_preserving_original_space_direct(&netlist);
    assert_eq!(space.egraph.nodes.len(), 4);
    let g = &space.egraph.nodes[2];
    assert_eq!(g.node_id, "physical.2.0");
    assert_eq!(g.op, "NAND2x1");
    assert_eq!(g.eclass, "physical.2");
    assert_eq!(g.children, vec!["physical.0.0".to_string(), "physical.1.0".to_string()]);
    assert_eq!(space.egraph.nodes[1].op, "1");
    assert!(space.egraph.nodes[0].children.is_empty());
    assert_eq!(space.egraph.nodes[3].children, vec!["physical.2.0".to_string()]);
    assert_eq!(space.egraph.root_eclasses, vec!["physical.3".to_string()]);
    assert_eq!(
        space.original_extraction[2],
        ("physical.2".to_string(), "physical.2.0".to_string())
    );
    assert_eq!(space.netlist_node_to_class[0], "physical.0");
}

#[test]
fn physical_node_names() {
    assert_eq!(physical_node(12, 3), "physical.12.3");
    assert_eq!(physical_node(0, 0), "physical.0.0");
}
