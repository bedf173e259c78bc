use mac_egg::phase_i::{
    assignment_signature, full_assignment_from_fragments, macro_variants, RegionAssignment,
    RegionChoice, RegionClass, RegionEnode, RegionSpace,
};

fn enode(id: &str, incumbent: bool) -> RegionEnode {
    RegionEnode {
        enode_id: id.to_string(),
        incumbent,
        boundary_anchors: vec![],
    }
}

fn class(anchor: usize, alts: &[&str]) -> RegionClass {
    let incumbent = format!("inc{anchor}");
    let mut enodes = vec![enode(&incumbent, true)];
    enodes.extend(alts.iter().map(|a| enode(a, false)));
    RegionClass {
        anchor,
        eclass_id: format!("occurrence:{anchor}"),
        incumbent_enode: incumbent,
        enodes,
    }
}

fn space() -> RegionSpace {
    RegionSpace {
        classes: vec![class(1, &["a1", "b1"]), class(2, &["a2"]), class(3, &["a3"])],
    }
}

fn names(v: &[RegionChoice]) -> String {
    v.iter().map(|c| c.enode_id.as_str()).collect::<Vec<_>>().join("|")
}

fn choice(eclass: &str, enode: &str) -> RegionChoice {
    RegionChoice {
        eclass_id: eclass.to_string(),
        enode_id: enode.to_string(),
    }
}

#[test]
fn macro_variants_fill_unary_then_pairs_then_triples() {
    let vs = macro_variants(&space(), &vec![1, 2, 3], 32).unwrap();
    let got: Vec<String> = vs.iter().map(|v| names(v)).collect();
    assert_eq!(
        got,
        vec![
            "inc1|inc2|inc3",
            "a1|inc2|inc3",
            "b1|inc2|inc3",
            "inc1|a2|inc3",
            "inc1|inc2|a3",
            "a1|a2|inc3",
            "b1|a2|inc3",
            "a1|inc2|a3",
            "b1|inc2|a3",
            "inc1|a2|a3",
            "a1|a2|a3",
        ]
    );
    assert_eq!(vs[1][0].eclass_id, "occurrence:1");
}

#[test]
fn macro_variants_respect_the_budgets() {
    // Half of 4 goes to the incumbent and one-change variants.
    let vs = macro_variants(&space(), &vec![1, 2, 3], 4).unwrap();
    let got: Vec<String> = vs.iter().map(|v| names(v)).collect();
    assert_eq!(got, vec!["inc1|inc2|inc3", "a1|inc2|inc3", "a1|a2|inc3", "b1|a2|inc3"]);
    assert!(macro_variants(&space(), &vec![1, 2, 3], 0).unwrap().is_empty());
    assert_eq!(
        macro_variants(&space(), &vec![1, 9], 4).unwrap_err(),
        "missing macro component eclass"
    );
}

#[test]
fn fragments_compose_into_region_assignments() {
    let s = space();
    let a = full_assignment_from_fragments(
        &s,
        &vec![1, 2, 3],
        &vec![
            vec![choice("occurrence:1", "a1")],
            vec![choice("occurrence:3", "inc3"), choice("occurrence:1", "a1")],
        ],
    )
    .unwrap();
    assert_eq!(names(&a.choices), "a1|inc2|inc3");
    assert_eq!(a.changed_eclasses, 1);
    assert_eq!(assignment_signature(&a), "a1|inc2|inc3");

    let conflict = full_assignment_from_fragments(
        &s,
        &vec![1, 2],
        &vec![vec![choice("occurrence:1", "a1")], vec![choice("occurrence:1", "b1")]],
    );
    assert_eq!(
        conflict.unwrap_err(),
        "conflicting macro fragments for occurrence:1: a1 vs b1"
    );
    let missing = full_assignment_from_fragments(&s, &vec![1, 7], &vec![]);
    assert_eq!(
        missing.unwrap_err(),
        "missing region class while composing macro fragments"
    );
}

#[test]
fn signature_joins_enode_names() {
    let a = RegionAssignment {
        choices: vec![choice("e1", "x"), choice("e2", "y")],
        changed_eclasses: 0,
    };
    assert_eq!(assignment_signature(&a), "x|y");
}

fn linked_class(anchor: usize, boundaries: &[usize]) -> RegionClass {
    RegionClass {
        anchor,
        eclass_id: format!("occurrence:{anchor}"),
        incumbent_enode: format!("inc{anchor}"),
        enodes: vec![
            enode(&format!("inc{anchor}"), true),
            RegionEnode {
                enode_id: format!("alt{anchor}"),
                incumbent: false,
                boundary_anchors: boundaries.to_vec(),
            },
        ],
    }
}

#[test]
fn macro_components_group_linked_occurrences() {
    let s = RegionSpace {
        classes: vec![
            linked_class(1, &[2]),
            linked_class(2, &[]),
            linked_class(3, &[9]),
            linked_class(4, &[3]),
        ],
    };
    let groups = mac_egg::phase_i::macro_components(&s, &vec![4, 2, 1, 3, 5, 2]);
    assert_eq!(groups, vec![vec![1, 2, 2], vec![3, 4], vec![5]]);
    assert!(mac_egg::phase_i::macro_components(&s, &vec![]).is_empty());
}
