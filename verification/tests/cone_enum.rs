use mac_egg::cone_enum::ConeEnumerator;
use mac_egg::language::StdCellLanguage;
use mac_egg::realization::{expression_text, EnumeratedExpr};

fn sym(s: &str) -> StdCellLanguage {
    StdCellLanguage::Symbol(s.to_string())
}

fn gate(op: &str, children: Vec<usize>) -> StdCellLanguage {
    StdCellLanguage::Gate(op.to_string(), children)
}

fn boundaries() -> Vec<(String, usize)> {
    vec![
        ("__egg_boundary_5".to_string(), 5),
        ("__egg_boundary_6".to_string(), 6),
    ]
}

fn texts(es: &[EnumeratedExpr]) -> Vec<String> {
    es.iter().map(|e| expression_text(&e.expression)).collect()
}

#[test]
fn alternatives_of_the_root_class_are_enumerated_in_order() {
    let classes = vec![
        vec![sym("__egg_boundary_5")],
        vec![sym("__egg_boundary_6")],
        vec![gate("NAND2x1", vec![0, 1]), gate("NAND2x2", vec![1, 0])],
    ];
    for memo in [false, true] {
        let mut e = ConeEnumerator::new(classes.clone(), 2, vec![None; 3], boundaries(), 4, memo, false);
        let r = e.enumerate_root();
        assert_eq!(texts(&r), vec!["NAND2x1(@5,@6)", "NAND2x2(@6,@5)"]);
        assert_eq!(r[0].root_enode, "NAND2x1:[0, 1]");
        assert_eq!(r[1].root_enode, "NAND2x2:[1, 0]");
        assert_eq!((r[0].gates, r[0].depth), (1, 1));
        assert_eq!(e.stats.cycle_pruned, 0);
        assert_eq!(e.stats.gate_bound_pruned, 0);
        assert_eq!(e.memo.len(), if memo { 3 } else { 0 });
    }
}

#[test]
fn classes_on_the_path_are_pruned_as_cycles() {
    let classes = vec![vec![gate("INVx1", vec![0]), sym("__egg_boundary_5")]];
    let mut e = ConeEnumerator::new(classes, 0, vec![None], boundaries(), 4, false, false);
    let r = e.enumerate_root();
    assert_eq!(texts(&r), vec!["@5"]);
    assert_eq!(r[0].root_enode, "__egg_boundary_5");
    assert_eq!(e.stats.cycle_pruned, 1);
}

#[test]
fn collapsed_classes_stand_for_their_anchor() {
    let classes = vec![
        vec![gate("INVx1", vec![1])],
        vec![sym("__egg_boundary_5")],
        vec![gate("INVx2", vec![0])],
    ];
    let mut e = ConeEnumerator::new(
        classes,
        2,
        vec![Some(9), None, None],
        boundaries(),
        4,
        true,
        false,
    );
    let r = e.enumerate_root();
    assert_eq!(texts(&r), vec!["INVx2(@9)"]);
    assert_eq!(r[0].root_enode, "INVx2:[0]");
}

#[test]
fn cones_beyond_the_gate_bound_are_pruned() {
    let classes = vec![
        vec![sym("__egg_boundary_5"), gate("INVx1", vec![1])],
        vec![sym("__egg_boundary_6")],
        vec![gate("BUFx2", vec![0])],
    ];
    let mut e = ConeEnumerator::new(classes.clone(), 2, vec![None; 3], boundaries(), 1, false, false);
    let r = e.enumerate_root();
    assert_eq!(texts(&r), vec!["BUFx2(@5)"]);
    assert_eq!(e.stats.gate_bound_pruned, 1);

    let mut wide = ConeEnumerator::new(classes, 2, vec![None; 3], boundaries(), 2, false, false);
    let r = wide.enumerate_root();
    assert_eq!(texts(&r), vec!["BUFx2(@5)", "BUFx2(INVx1(@6))"]);
    assert_eq!((r[1].gates, r[1].depth), (2, 2));
}

#[test]
fn depth_bound_stops_gates_on_long_paths() {
    let classes = vec![
        vec![gate("INVx1", vec![1])],
        vec![sym("__egg_boundary_5")],
        vec![gate("BUFx2", vec![0])],
    ];
    let mut e = ConeEnumerator::new(classes, 2, vec![None; 3], boundaries(), 1, false, true);
    let r = e.enumerate_root();
    assert!(r.is_empty());
    assert_eq!(e.stats.gate_bound_pruned, 1);
}

#[test]
fn constants_and_unknown_symbols() {
    let classes = vec![
        vec![StdCellLanguage::Bool(true), sym("unknown"), StdCellLanguage::Output("y".to_string(), 0)],
        vec![gate("AND2x2", vec![0, 0])],
    ];
    let mut e = ConeEnumerator::new(classes, 1, vec![None; 2], boundaries(), 4, true, false);
    let r = e.enumerate_root();
    assert_eq!(texts(&r), vec!["AND2x2(true(),true())"]);
    assert_eq!(r[0].root_enode, "AND2x2:[0, 0]");
}

#[test]
fn cache_gives_the_same_expressions_as_recomputing() {
    let classes = vec![
        vec![sym("__egg_boundary_5"), gate("BUFx1", vec![3])],
        vec![gate("INVx1", vec![0]), sym("__egg_boundary_6")],
        vec![gate("AND2x2", vec![1, 0]), gate("OR2x2", vec![0, 1])],
        vec![sym("__egg_boundary_6")],
    ];
    let mut with_cache = ConeEnumerator::new(classes.clone(), 2, vec![None; 4], boundaries(), 6, true, false);
    let mut without = ConeEnumerator::new(classes, 2, vec![None; 4], boundaries(), 6, false, false);
    let a = with_cache.enumerate_root();
    let b = without.enumerate_root();
    assert_eq!(texts(&a), texts(&b));
    assert_eq!(
        texts(&a),
        vec![
            "AND2x2(INVx1(@5),@5)",
            "AND2x2(INVx1(@5),BUFx1(@6))",
            "AND2x2(INVx1(BUFx1(@6)),@5)",
            "AND2x2(INVx1(BUFx1(@6)),BUFx1(@6))",
            "AND2x2(@6,@5)",
            "AND2x2(@6,BUFx1(@6))",
            "OR2x2(@5,INVx1(@5))",
            "OR2x2(@5,INVx1(BUFx1(@6)))",
            "OR2x2(@5,@6)",
            "OR2x2(BUFx1(@6),INVx1(@5))",
            "OR2x2(BUFx1(@6),INVx1(BUFx1(@6)))",
            "OR2x2(BUFx1(@6),@6)",
        ]
    );
    assert!(with_cache.memo.len() > 0);
}

#[test]
fn depth_bound_retains_short_realizations_and_prunes_impossible_long_paths() {
    let inv = "INVx1_ASAP7_75t_R";
    let classes = vec![
        vec![sym("__egg_boundary_0")],
        vec![gate(inv, vec![0]), gate(inv, vec![4])],
        vec![gate(inv, vec![1])],
        vec![gate(inv, vec![2])],
        vec![gate(inv, vec![3])],
    ];
    let boundaries = vec![("__egg_boundary_0".to_string(), 0)];
    let run = |depth_bound: bool| {
        let mut e = ConeEnumerator::new(classes.clone(), 1, vec![None; 5], boundaries.clone(), 3, true, depth_bound);
        e.enumerate_root()
            .iter()
            .map(|value| (expression_text(&value.expression), value.gates))
            .collect::<Vec<_>>()
    };
    let legacy = run(false);
    let bounded = run(true);
    assert!(!bounded.is_empty());
    assert!(bounded.iter().all(|(_, gates)| *gates <= 3));
    assert_eq!(bounded, legacy);
    assert_eq!(bounded, vec![("INVx1_ASAP7_75t_R(@0)".to_string(), 1)]);
}

#[test]
fn depth_bound_keeps_cheap_alternatives_that_the_cap_would_cut() {
    let mut middle: Vec<StdCellLanguage> = (0..512).map(|i| gate(&format!("G{i}"), vec![0])).collect();
    middle.push(sym("__egg_boundary_0"));
    let classes = vec![vec![sym("__egg_boundary_0")], middle, vec![gate("INVx1", vec![1])]];
    let boundaries = vec![("__egg_boundary_0".to_string(), 0)];
    let run = |depth_bound: bool| {
        let mut e = ConeEnumerator::new(classes.clone(), 2, vec![None; 3], boundaries.clone(), 1, true, depth_bound);
        texts(&e.enumerate_root())
    };
    assert_eq!(run(true), vec!["INVx1(@0)".to_string()]);
    assert!(run(false).is_empty());
}
