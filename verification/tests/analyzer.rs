use mac_egg::analyzer::{topo_sort_egragh, UniqueQueue};
use mac_egg::mining::{MiningGraph, MiningNode};

fn node(op: &str, class: usize, children: &[usize]) -> MiningNode {
    MiningNode {
        op: op.to_string(),
        class,
        children: children.to_vec(),
    }
}

/// Two inputs, an AND of both, and a class with an inverter and a NAND.
fn small_graph() -> MiningGraph {
    MiningGraph {
        nodes: vec![
            node("a", 0, &[]),
            node("b", 1, &[]),
            node("AND2", 2, &[0, 1]),
            node("INV", 3, &[2]),
            node("NAND2", 3, &[0, 1]),
        ],
        classes: vec![vec![0], vec![1], vec![2], vec![3, 4]],
    }
}

#[test]
fn topo_sort_yields_every_node_of_an_acyclic_egraph() {
    let g = small_graph();
    let mut it = topo_sort_egragh(&g);
    let mut order = Vec::new();
    while let Some(item) = it.next() {
        order.push(item.unwrap());
    }
    assert_eq!(order, vec![0, 1, 2, 4, 3]);
    assert!(it.next().is_none());
}

#[test]
fn topo_sort_reports_a_cycle_once() {
    let g = MiningGraph {
        nodes: vec![node("a", 0, &[]), node("X", 1, &[2]), node("Y", 2, &[1])],
        classes: vec![vec![0], vec![1], vec![2]],
    };
    let mut it = topo_sort_egragh(&g);
    assert_eq!(it.next(), Some(Ok(0)));
    assert_eq!(it.next(), Some(Err(vec![1, 2])));
    assert_eq!(it.next(), None);
}

#[test]
fn unique_queue_reports_emptiness() {
    let mut q = UniqueQueue::default();
    assert!(q.is_empty());
    q.extend(&vec![4, 4, 2]);
    assert!(!q.is_empty());
    assert_eq!(q.pop(), Some(4));
    assert_eq!(q.pop(), Some(2));
    assert!(q.is_empty());
    q.insert(4);
    assert_eq!(q.pop(), Some(4));
}
