use mac_egg::portfolio::choose_potential_portfolio;

fn ids(values: &[&str]) -> Vec<String> {
    values.iter().map(|value| value.to_string()).collect()
}

#[test]
fn preview_rescues_only_outsiders_that_reach_the_topk() {
    let decision = choose_potential_portfolio(
        &ids(&["a", "b", "c", "d"]),
        &ids(&["x", "a", "b", "c", "d", "y"]),
        1,
    )
    .unwrap();
    assert_eq!(decision.selected, ids(&["x", "a", "b", "c"]));
    assert_eq!(decision.rescued, ids(&["x"]));
    assert_eq!(decision.displaced_baseline, ids(&["d"]));
}

#[test]
fn rescue_cap_prevents_preview_pool_from_becoming_the_main_k() {
    let decision = choose_potential_portfolio(
        &ids(&["a", "b", "c", "d"]),
        &ids(&["x", "y", "z", "a", "b", "c", "d"]),
        1,
    )
    .unwrap();
    assert_eq!(decision.selected, ids(&["x", "a", "b", "c"]));
    assert_eq!(decision.rescued, ids(&["x"]));
}

#[test]
fn no_outsider_in_preview_topk_preserves_the_baseline_set() {
    let decision = choose_potential_portfolio(
        &ids(&["a", "b", "c", "d"]),
        &ids(&["a", "b", "c", "d", "x"]),
        2,
    )
    .unwrap();
    assert_eq!(decision.selected, ids(&["a", "b", "c", "d"]));
    assert!(decision.rescued.is_empty());
    assert!(decision.displaced_baseline.is_empty());
}

#[test]
fn empty_baseline_is_refused() {
    let error = choose_potential_portfolio(&ids(&[]), &ids(&["a"]), 1).unwrap_err();
    assert_eq!(error, "V8-potential baseline portfolio is empty");
}

#[test]
fn retained_and_displaced_split_the_baseline() {
    let decision = choose_potential_portfolio(
        &ids(&["a", "b", "c"]),
        &ids(&["x", "y", "c", "a", "b"]),
        2,
    )
    .unwrap();
    assert_eq!(decision.selected, ids(&["x", "y", "c"]));
    assert_eq!(decision.retained_baseline, ids(&["c"]));
    assert_eq!(decision.displaced_baseline, ids(&["a", "b"]));
    assert_eq!(decision.selected.len(), 3);
}

#[test]
fn every_rescue_displaces_one_baseline_member() {
    let decision = choose_potential_portfolio(
        &ids(&["a", "b", "c", "d", "e"]),
        &ids(&["x", "a", "y", "b", "z", "c", "d", "e"]),
        2,
    )
    .unwrap();
    assert_eq!(decision.selected, ids(&["x", "a", "y", "b", "c"]));
    assert_eq!(decision.rescued, ids(&["x", "y"]));
    assert_eq!(decision.retained_baseline, ids(&["a", "b", "c"]));
    assert_eq!(decision.displaced_baseline, ids(&["d", "e"]));
    assert_eq!(decision.displaced_baseline.len(), decision.rescued.len());
}
