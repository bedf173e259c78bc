use mac_egg::cli::{
    default_true, early_commitment_total_budget, progressive_native, run_cli, BudgetError,
    ProgressiveError,
};

#[test]
fn early_commitment_reassigns_the_full_progressive_budget() {
    assert_eq!(
        early_commitment_total_budget(32, 8, 25, 50, 500, None).unwrap(),
        1450
    );
    assert_eq!(
        early_commitment_total_budget(32, 8, 25, 50, 500, Some(650)).unwrap(),
        1600
    );
    assert_eq!(
        early_commitment_total_budget(1, 1, 25, 50, 500, Some(650)).unwrap(),
        650
    );
}

#[test]
fn early_commitment_rejects_inconsistent_schedules() {
    assert_eq!(
        early_commitment_total_budget(0, 0, 25, 50, 500, None),
        Err(BudgetError::EmptyPortfolio)
    );
    assert_eq!(
        early_commitment_total_budget(4, 5, 25, 50, 500, None),
        Err(BudgetError::SurvivorCount)
    );
    assert_eq!(
        early_commitment_total_budget(4, 2, 60, 50, 500, None),
        Err(BudgetError::StageOrder)
    );
    assert_eq!(
        early_commitment_total_budget(4, 2, 25, 50, 500, Some(400)),
        Err(BudgetError::FollowupBelowFinalStage)
    );
    assert_eq!(
        BudgetError::EmptyPortfolio.message(),
        "empty early-commitment portfolio"
    );
}

#[test]
fn serde_flag_default_is_on() {
    assert!(default_true());
}

fn strings(values: &[&str]) -> Vec<String> {
    values.iter().map(|value| value.to_string()).collect()
}

#[test]
fn materialize_arguments_are_checked() {
    let error = run_cli(strings(&["in.v", "plan.json"])).unwrap_err();
    assert_eq!(
        error,
        "usage: materialize_structural_macro_plan INPUT PLAN.json OUT_DIR"
    );
    let args = run_cli(strings(&["in.v", "plan.json", "out"])).unwrap();
    assert_eq!(args.input, "in.v");
    assert_eq!(args.plan, "plan.json");
    assert_eq!(args.out, "out");
}

#[test]
fn progressive_arguments_are_checked() {
    assert_eq!(
        progressive_native(&strings(&["progressive", "p"])).unwrap_err(),
        ProgressiveError::Usage
    );
    let args = progressive_native(&strings(&[
        "progressive", "plan", "p1", "out", "lib", "rules", "0.5", "0",
    ]))
    .unwrap();
    assert_eq!(args.jobs, 1);
    assert_eq!(args.d1_score, "0.5");
    let args = progressive_native(&strings(&[
        "progressive", "plan", "p1", "out", "lib", "rules", "0.5", "+12",
    ]))
    .unwrap();
    assert_eq!(args.jobs, 12);
    assert_eq!(
        progressive_native(&strings(&[
            "progressive", "plan", "p1", "out", "lib", "rules", "0.5", "x",
        ]))
        .unwrap_err(),
        ProgressiveError::InvalidJobs("x".to_string())
    );
}

#[test]
fn progressive_refuses_a_d1_score_that_is_no_number() {
    let err = progressive_native(&strings(&[
        "progressive", "plan.json", "p1.json", "out", "lib", "rules", "abc", "4",
    ]))
    .unwrap_err();
    assert_eq!(err, ProgressiveError::InvalidD1Score("abc".to_string()));
    assert_eq!(err.message(), "invalid float literal");
    let args = progressive_native(&strings(&[
        "progressive", "plan.json", "p1.json", "out", "lib", "rules", "1e-3", "4",
    ]))
    .unwrap();
    assert_eq!(args.jobs, 4);
}

#[test]
fn progressive_usage_and_job_messages() {
    let err = progressive_native(&strings(&[
        "progressive", "plan.json", "p1.json", "out", "lib", "rules", "1.0", "4", "extra",
    ]))
    .unwrap_err();
    assert_eq!(
        err.message(),
        "usage: run_frozen_a2_fast progressive PLAN P1 OUT LIB SCALE_RULES D1_SCORE JOBS"
    );
    assert_eq!(
        ProgressiveError::InvalidJobs("x".to_string()).message(),
        "invalid digit found in string"
    );
}
