use mac_egg::circuit::{circuit_structure, cone_consumers, cone_order, reachable_instances, OutputSource};
use mac_egg::delta_plan::probability_delta_plan;
use mac_egg::mapped_netlist::parse_mapped_netlist;

const SOURCE: &str = "module top(a, b, y, z);
  input wire a,
    b; // two primaries
  input a;
  output y, z;
  wire n1;
  assign z = a;
  NAND2xp33_ASAP7_75t_R g1 (.A(a), .B( b ), .Y(n1));
  INVx1_ASAP7_75t_R g2 (.A(n1), .Y(y));
endmodule
";

fn pair(a: &str, b: &str) -> (String, String) {
    (a.to_string(), b.to_string())
}

#[test]
fn mapped_netlist_reads_ports_aliases_and_instances() {
    let m = parse_mapped_netlist("top.v", SOURCE).expect("parses");
    assert_eq!(m.inputs, vec!["a".to_string(), "b".to_string()]);
    assert_eq!(m.outputs, vec!["y".to_string(), "z".to_string()]);
    assert_eq!(m.assigns, vec![pair("z", "a")]);
    assert_eq!(m.instances.len(), 2);
    assert_eq!(m.instances[0].name, "g1");
    assert_eq!(m.instances[0].cell, "NAND2xp33_ASAP7_75t_R");
    assert_eq!(m.instances[0].conns, vec![pair("A", "a"), pair("B", "b"), pair("Y", "n1")]);
    assert_eq!(m.instances[1].name, "g2");
    assert_eq!(m.instances[1].cell, "INVx1_ASAP7_75t_R");
    assert_eq!(m.instances[1].conns, vec![pair("A", "n1"), pair("Y", "y")]);
}

#[test]
fn mapped_netlist_digest_ignores_cell_choice() {
    let m = parse_mapped_netlist("top.v", SOURCE).expect("parses");
    assert_eq!(
        m.topology_sha256,
        "d6700ce87bc88159893943127f6f1bad6441daeb4f5188e6a23145a905eb3aff"
    );
    let resized = SOURCE.replace("INVx1_ASAP7_75t_R", "INVx2_ASAP7_75t_R");
    let other = parse_mapped_netlist("top.v", &resized).expect("parses");
    assert_eq!(other.topology_sha256, m.topology_sha256);
    assert_eq!(other.instances[1].cell, "INVx2_ASAP7_75t_R");
}

#[test]
fn mapped_netlist_without_instances_is_refused() {
    let text = "module top(a, y);\n  input a;\n  output y;\n  assign y = a;\nendmodule\n";
    let err = parse_mapped_netlist("empty.v", text).unwrap_err();
    assert_eq!(err, "no mapped instances in empty.v");
}

#[test]
fn mapped_netlist_commented_instances_do_not_count() {
    let text = "module top(a, y);\n  input a;\n  output y;\n  // INVx1_ASAP7_75t_R g1 (.A(a), .Y(y));\nendmodule\n";
    let err = parse_mapped_netlist("c.v", text).unwrap_err();
    assert_eq!(err, "no mapped instances in c.v");
}

fn pins(names: &[&str]) -> Vec<String> {
    names.iter().map(|s| s.to_string()).collect()
}

#[test]
fn circuit_structure_wires_instances_and_outputs() {
    let m = parse_mapped_netlist("top.v", SOURCE).expect("parses");
    let orders = vec![pins(&["Y", "A", "B"]), pins(&["Y", "A"])];
    let c = circuit_structure(&m, &orders).expect("wires");
    assert_eq!(c.instances[0].output, "n1");
    assert_eq!(c.instances[0].inputs, pins(&["a", "b"]));
    assert_eq!(c.instances[0].input_sources, vec![None, None]);
    assert_eq!(c.instances[0].input_primary_index, vec![Some(0), Some(1)]);
    assert_eq!(c.instances[1].output, "y");
    assert_eq!(c.instances[1].inputs, pins(&["n1"]));
    assert_eq!(c.instances[1].input_sources, vec![Some(0)]);
    assert_eq!(c.instances[1].input_primary_index, vec![None]);
    assert_eq!(c.output_sources, vec![OutputSource::Gate(1), OutputSource::Primary(0)]);
    assert_eq!(c.roots, vec![1]);
    assert_eq!(c.output_load_count, vec![0, 1]);
    assert_eq!(c.primary_output_load_count, vec![1, 0]);
}

#[test]
fn circuit_structure_refuses_a_missing_pin() {
    let m = parse_mapped_netlist("top.v", SOURCE).expect("parses");
    let orders = vec![pins(&["Y", "A", "B"]), pins(&["Y", "B"])];
    assert_eq!(circuit_structure(&m, &orders).unwrap_err(), "g2 missing B");
}

#[test]
fn circuit_structure_resolves_aliases_and_constants() {
    let text = SOURCE
        .replace("output y, z;", "output y, z, w, u;")
        .replace("assign z = a;", "assign z = a;\n  assign w = t;\n  assign t = 1'b0;\n  assign u = z;");
    let m = parse_mapped_netlist("top.v", &text).expect("parses");
    let orders = vec![pins(&["Y", "A", "B"]), pins(&["Y", "A"])];
    let c = circuit_structure(&m, &orders).expect("wires");
    assert_eq!(
        c.output_sources,
        vec![OutputSource::Gate(1), OutputSource::Primary(0), OutputSource::Constant, OutputSource::Primary(0)]
    );
    assert_eq!(c.primary_output_load_count, vec![2, 0]);
}

#[test]
fn circuit_structure_refuses_an_undriven_output() {
    let text = SOURCE.replace("output y, z;", "output y, z, w;");
    let m = parse_mapped_netlist("top.v", &text).expect("parses");
    let orders = vec![pins(&["Y", "A", "B"]), pins(&["Y", "A"])];
    assert_eq!(
        circuit_structure(&m, &orders).unwrap_err(),
        "output w has no mapped or primary driver"
    );
}

#[test]
fn cone_of_the_outputs_skips_dead_instances() {
    let text = SOURCE.replace(
        "endmodule",
        "  INVx1_ASAP7_75t_R g3 (.A(a), .Y(dead));\nendmodule",
    );
    let m = parse_mapped_netlist("top.v", &text).expect("parses");
    let orders = vec![pins(&["Y", "A", "B"]), pins(&["Y", "A"]), pins(&["Y", "A"])];
    let c = circuit_structure(&m, &orders).expect("wires");
    assert_eq!(reachable_instances(&c), vec![0, 1]);
    assert_eq!(cone_order(&c).unwrap(), vec![0, 1]);
    let (consumers, primary_consumers) = cone_consumers(&c, m.inputs.len());
    assert_eq!(consumers, vec![vec![(1, 0)], vec![], vec![]]);
    assert_eq!(primary_consumers, vec![vec![(0, 0)], vec![(0, 1)]]);
}

#[test]
fn cone_order_takes_the_least_name_among_ready_instances() {
    let text = SOURCE
        .replace("output y, z;", "output y, z, m;")
        .replace("endmodule", "  INVx1_ASAP7_75t_R a0 (.A(b), .Y(m));\nendmodule");
    let m = parse_mapped_netlist("top.v", &text).expect("parses");
    let orders = vec![pins(&["Y", "A", "B"]), pins(&["Y", "A"]), pins(&["Y", "A"])];
    let c = circuit_structure(&m, &orders).expect("wires");
    assert_eq!(c.roots, vec![1, 2]);
    assert_eq!(reachable_instances(&c), vec![0, 1, 2]);
    assert_eq!(cone_order(&c).unwrap(), vec![2, 0, 1]);
}

#[test]
fn cone_order_refuses_a_cycle_in_the_cone_only() {
    let looped = "module top(a, p);\n  input a;\n  output p;\n  INVx1_ASAP7_75t_R x1 (.A(q), .Y(p));\n  INVx1_ASAP7_75t_R x2 (.A(p), .Y(q));\nendmodule\n";
    let m = parse_mapped_netlist("loop.v", looped).expect("parses");
    let orders = vec![pins(&["Y", "A"]), pins(&["Y", "A"])];
    let c = circuit_structure(&m, &orders).expect("wires");
    assert_eq!(cone_order(&c).unwrap_err(), "cycle in mapped netlist");

    let dead_loop = "module top(a, p);\n  input a;\n  output p;\n  INVx1_ASAP7_75t_R x0 (.A(a), .Y(p));\n  INVx1_ASAP7_75t_R x1 (.A(q), .Y(r));\n  INVx1_ASAP7_75t_R x2 (.A(r), .Y(q));\nendmodule\n";
    let m = parse_mapped_netlist("dead.v", dead_loop).expect("parses");
    let orders = vec![pins(&["Y", "A"]), pins(&["Y", "A"]), pins(&["Y", "A"])];
    let c = circuit_structure(&m, &orders).expect("wires");
    assert_eq!(reachable_instances(&c), vec![0]);
    assert_eq!(cone_order(&c).unwrap(), vec![0]);
}

#[test]
fn delta_plan_follows_sources_primaries_and_consumers() {
    let m = parse_mapped_netlist("top.v", SOURCE).expect("parses");
    let orders = vec![pins(&["Y", "A", "B"]), pins(&["Y", "A"])];
    let c = circuit_structure(&m, &orders).expect("wires");
    let topo = cone_order(&c).unwrap();
    let (consumers, primary_consumers) = cone_consumers(&c, m.inputs.len());
    let inverter = probability_delta_plan(&c, &topo, &consumers, &primary_consumers, 1);
    assert_eq!(inverter.changed_sources, vec![0]);
    assert!(inverter.changed_primaries.is_empty());
    assert!(inverter.changed_primary_consumers.is_empty());
    assert!(!inverter.touches_primary);
    assert_eq!(inverter.affected_topo, vec![0, 1]);
    let nand = probability_delta_plan(&c, &topo, &consumers, &primary_consumers, 0);
    assert!(nand.changed_sources.is_empty());
    assert_eq!(nand.changed_primaries, vec![0, 1]);
    assert_eq!(nand.changed_primary_consumers, vec![0]);
    assert!(nand.touches_primary);
    assert_eq!(nand.affected_topo, vec![0, 1]);
}
