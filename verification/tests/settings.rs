use mac_egg::equivalence::{
    extraction_candidate, extraction_candidate_id, unified_equivalence_enabled,
    union_portfolio, union_portfolio_precheck, validate_extraction_portfolio, PortfolioRow, RecordCheck, UnionRow,
};
use mac_egg::portfolio::V8PotentialConfig;

fn row(id: &str, unified: Option<Option<&str>>) -> UnionRow {
    UnionRow {
        candidate_id: Some(id.to_string()),
        output_netlist: Some(format!("{id}.v")),
        unified_id: unified.map(|inner| inner.map(|u| u.to_string())),
    }
}

#[test]
fn switch_values() {
    assert!(!unified_equivalence_enabled(None));
    assert!(!unified_equivalence_enabled(Some("0")));
    assert!(!unified_equivalence_enabled(Some("false")));
    assert!(!unified_equivalence_enabled(Some("FaLsE")));
    assert!(unified_equivalence_enabled(Some("1")));
    assert!(unified_equivalence_enabled(Some("")));
    assert!(unified_equivalence_enabled(Some("no")));
    assert!(unified_equivalence_enabled(Some("falsey")));
}

#[test]
fn extraction_identity_follows_the_switch() {
    let legacy_only = row("c1", None);
    assert_eq!(extraction_candidate_id(&legacy_only, None).unwrap(), "c1");
    assert_eq!(
        extraction_candidate_id(&legacy_only, Some("1")).unwrap_err(),
        "union candidate c1 missing unified representation"
    );
    let both = row("c1", Some(Some("c1")));
    let view = extraction_candidate(&both, Some("true")).unwrap();
    assert_eq!(view.candidate_id, "c1");
    assert_eq!(view.implementation, "c1.v");
    assert!(view.has_equivalence);
    let differing = row("c1", Some(Some("c2")));
    assert_eq!(
        extraction_candidate_id(&differing, Some("yes")).unwrap_err(),
        "legacy candidate id c1 differs from unified id c2"
    );
}

#[test]
fn portfolio_check_follows_the_switch() {
    let rows = vec![
        PortfolioRow {
            row: row("a", Some(Some("a"))),
            record: RecordCheck::Invalid("bad".to_string()),
        },
    ];
    assert!(validate_extraction_portfolio(&rows, None).is_ok());
    assert!(validate_extraction_portfolio(&rows, Some("FALSE")).is_ok());
    assert_eq!(
        validate_extraction_portfolio(&rows, Some("1")).unwrap_err(),
        "invalid unified candidate a: bad"
    );
}

#[test]
fn potential_preview_is_off_unless_switched_on() {
    assert_eq!(V8PotentialConfig::from_env(None, Some("5"), None, None), Ok(None));
    assert_eq!(V8PotentialConfig::from_env(Some("0"), None, None, None), Ok(None));
    assert_eq!(V8PotentialConfig::from_env(Some("False"), None, None, None), Ok(None));
}

#[test]
fn potential_preview_defaults_and_overrides() {
    assert_eq!(
        V8PotentialConfig::from_env(Some("1"), None, None, None),
        Ok(Some(V8PotentialConfig {
            preview_pool_limit: 64,
            preview_exact_budget: 1,
            rescued_candidate_cap: 8,
        }))
    );
    assert_eq!(
        V8PotentialConfig::from_env(Some("on"), Some("+12"), Some("3"), Some("2")),
        Ok(Some(V8PotentialConfig {
            preview_pool_limit: 12,
            preview_exact_budget: 3,
            rescued_candidate_cap: 2,
        }))
    );
}

#[test]
fn potential_preview_errors() {
    assert_eq!(
        V8PotentialConfig::from_env(Some("1"), Some("abc"), None, None),
        Err("invalid EGG_V8_POTENTIAL_PREVIEW_POOL=abc: invalid digit found in string".to_string())
    );
    assert_eq!(
        V8PotentialConfig::from_env(Some("1"), None, Some(""), Some("x")),
        Err("invalid EGG_V8_POTENTIAL_PREVIEW_EXACT=: cannot parse integer from empty string"
            .to_string())
    );
    assert_eq!(
        V8PotentialConfig::from_env(Some("1"), None, None, Some("99999999999999999999999")),
        Err("invalid EGG_V8_POTENTIAL_RESCUE_CAP=99999999999999999999999: number too large to fit in target type"
            .to_string())
    );
    assert_eq!(
        V8PotentialConfig::from_env(Some("1"), None, None, Some("0")),
        Err("V8-potential limits must be positive".to_string())
    );
}

fn plan_row(id: &str) -> PortfolioRow {
    PortfolioRow { row: row(id, None), record: RecordCheck::Invalid("unused".to_string()) }
}

fn p1_rows(entries: &[(&str, Option<&str>)]) -> Vec<(String, Option<String>)> {
    entries.iter().map(|(id, input)| (id.to_string(), input.map(|s| s.to_string()))).collect()
}

#[test]
fn union_portfolio_precheck_accepts_matching_sets() {
    let rows = vec![plan_row("a"), plan_row("b")];
    let p1 = p1_rows(&[("b", Some("b.v")), ("a", Some("a.v/"))]);
    assert!(union_portfolio_precheck(20, &rows, &p1, None).is_ok());
}

#[test]
fn union_portfolio_precheck_refusals() {
    let rows = vec![plan_row("a"), plan_row("b")];
    let p1 = p1_rows(&[("a", Some("a.v")), ("b", Some("b.v"))]);
    assert_eq!(
        union_portfolio_precheck(19, &rows, &p1, None).unwrap_err(),
        "union portfolio needs at least 20 slots"
    );
    let dup = vec![plan_row("a"), plan_row("a")];
    assert_eq!(union_portfolio_precheck(32, &dup, &p1, None).unwrap_err(), "duplicate a");
    let other = p1_rows(&[("a", Some("x.v")), ("b", Some("b.v"))]);
    assert_eq!(
        union_portfolio_precheck(32, &rows, &other, None).unwrap_err(),
        "candidate a implementation differs between unified extraction (a.v) and P1 (x.v)"
    );
    let no_input = p1_rows(&[("a", None), ("b", Some("b.v"))]);
    assert_eq!(
        union_portfolio_precheck(32, &rows, &no_input, None).unwrap_err(),
        "missing string field input"
    );
    let fewer = p1_rows(&[("a", Some("a.v"))]);
    assert_eq!(
        union_portfolio_precheck(32, &rows, &fewer, None).unwrap_err(),
        "union plan and P1 candidate sets differ"
    );
    assert_eq!(
        union_portfolio_precheck(32, &rows, &p1, Some("1")).unwrap_err(),
        "union candidate a missing unified representation"
    );
}

fn ids(values: &[&str]) -> Vec<String> {
    values.iter().map(|v| v.to_string()).collect()
}

#[test]
fn union_portfolio_fills_in_p1_order() {
    let rows = vec![plan_row("a"), plan_row("b"), plan_row("c"), plan_row("d")];
    let rank = ids(&["c", "a", "d", "b"]);
    let reserved = vec![("b".to_string(), "extra-view".to_string())];
    let chosen = union_portfolio(&rows, &rank, 3, &ids(&["a"]), &reserved).unwrap();
    assert_eq!(chosen, ids(&["c", "a", "b"]));
}

#[test]
fn union_portfolio_keeps_reserved_ids_past_the_limit() {
    let rows = vec![plan_row("a"), plan_row("b"), plan_row("c"), plan_row("d")];
    let rank = ids(&["c", "a", "d", "b"]);
    let reserved = vec![("b".to_string(), "extra-view".to_string())];
    let chosen = union_portfolio(&rows, &rank, 1, &ids(&["a"]), &reserved).unwrap();
    assert_eq!(chosen, ids(&["a", "b"]));
}

#[test]
fn union_portfolio_refuses_a_reserved_id_outside_the_plan() {
    let rows = vec![plan_row("a"), plan_row("b")];
    let rank = ids(&["a", "b"]);
    let reserved = vec![("z".to_string(), "extra-view".to_string())];
    assert_eq!(
        union_portfolio(&rows, &rank, 20, &ids(&[]), &reserved).unwrap_err(),
        "reserved candidate z missing from plan"
    );
}
