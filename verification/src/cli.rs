//! The decisions that the optimizer's command-line tools make before any
//! file is touched: argument checks and the evaluation budget of the
//! early-commitment sizing schedule.
use vstd::prelude::*;

use crate::flow_args::{is_real_text, real_syntax};
use crate::text::{
    copy_string, int_fault_text, int_parse, parse_usize, parse_usize_checked, parsed_usize,
};

verus! {

/// The default of configuration flags that are on unless a file turns them
/// off.
pub fn default_true() -> (r: bool)
    ensures
        r,
{
    true
}

/// Why an early-commitment budget cannot be computed.
#[derive(Debug, PartialEq, Eq, Structural)]
pub enum BudgetError {
    /// The portfolio holds no candidate.
    EmptyPortfolio,
    /// The number of survivors is zero or exceeds the portfolio.
    SurvivorCount,
    /// The 25-, 50- and 500-evaluation stages are not in increasing order.
    StageOrder,
    /// The follow-up budget is below the last stage's budget.
    FollowupBelowFinalStage,
}

/// The text of each budget error.
pub open spec fn budget_error_text(e: BudgetError) -> Seq<char> {
    match e {
        BudgetError::EmptyPortfolio => "empty early-commitment portfolio"@,
        BudgetError::SurvivorCount => "Condition failed: `survivor_count > 0 && survivor_count <= portfolio_count`"@,
        BudgetError::StageOrder => "Condition failed: `stage25_budget <= stage50_budget && stage50_budget <= stage500_budget`"@,
        BudgetError::FollowupBelowFinalStage => "Condition failed: `final_budget >= stage500_budget`"@,
    }
}

impl BudgetError {
    /// The error's message.
    pub fn message(&self) -> (r: String)
        ensures
            r@ == budget_error_text(*self),
    {
        match self {
            BudgetError::EmptyPortfolio => "empty early-commitment portfolio".to_string(),
            BudgetError::SurvivorCount => "Condition failed: `survivor_count > 0 && survivor_count <= portfolio_count`".to_string(),
            BudgetError::StageOrder => "Condition failed: `stage25_budget <= stage50_budget && stage50_budget <= stage500_budget`".to_string(),
            BudgetError::FollowupBelowFinalStage => "Condition failed: `final_budget >= stage500_budget`".to_string(),
        }
    }
}

/// The budget of the last stage: the follow-up budget where one is given.
pub open spec fn final_stage_budget(stage500: usize, followup: Option<usize>) -> int {
    match followup {
        Some(b) => b as int,
        None => stage500 as int,
    }
}

/// The evaluations that an early-commitment schedule spends: every portfolio
/// member runs the first stage, every survivor the rest of the second, and
/// one candidate the rest of the third and the follow-up.
pub open spec fn early_commitment_total(
    portfolio: usize,
    survivors: usize,
    stage25: usize,
    stage50: usize,
    stage500: usize,
    followup: Option<usize>,
) -> int {
    portfolio * stage25 + survivors * (stage50 - stage25) + (stage500 - stage50) + (
    final_stage_budget(stage500, followup) - stage500)
}

/// The error the schedule's arguments give, checked in this order.
pub open spec fn budget_error(
    portfolio: usize,
    survivors: usize,
    stage25: usize,
    stage50: usize,
    stage500: usize,
    followup: Option<usize>,
) -> Option<BudgetError> {
    if portfolio == 0 {
        Some(BudgetError::EmptyPortfolio)
    } else if !(survivors > 0 && survivors <= portfolio) {
        Some(BudgetError::SurvivorCount)
    } else if !(stage25 <= stage50 && stage50 <= stage500) {
        Some(BudgetError::StageOrder)
    } else if final_stage_budget(stage500, followup) < stage500 {
        Some(BudgetError::FollowupBelowFinalStage)
    } else {
        None
    }
}

/// The total counts each candidate's evaluations by how far it runs: the
/// candidates dropped after the first stage spend its budget, the
/// survivors dropped after the second stage spend the second stage's
/// budget, and the one committed candidate spends the final budget.
pub proof fn lemma_total_by_candidate(
    portfolio: usize,
    survivors: usize,
    stage25: usize,
    stage50: usize,
    stage500: usize,
    followup: Option<usize>,
)
    requires
        budget_error(portfolio, survivors, stage25, stage50, stage500, followup) is None,
    ensures
        early_commitment_total(portfolio, survivors, stage25, stage50, stage500, followup) == (portfolio
            - survivors) * stage25 + (survivors - 1) * stage50 + final_stage_budget(stage500, followup),
{
    let p = portfolio as int;
    let n = survivors as int;
    let a = stage25 as int;
    let b = stage50 as int;
    assert(p * a + n * (b - a) == (p - n) * a + (n - 1) * b + b) by (nonlinear_arith);
}

/// Raising the second stage's budget by one (the first fixed) costs one
/// evaluation per survivor and saves one of the committed candidate's
/// third stage.
pub proof fn lemma_total_grows_with_second_stage(
    portfolio: usize,
    survivors: usize,
    stage25: usize,
    stage50: usize,
    stage500: usize,
    followup: Option<usize>,
)
    requires
        stage50 < stage500,
    ensures
        early_commitment_total(portfolio, survivors, stage25, (stage50 + 1) as usize, stage500, followup)
            == early_commitment_total(portfolio, survivors, stage25, stage50, stage500, followup) + survivors
            - 1,
{
    let n = survivors as int;
    let a = stage25 as int;
    let b = stage50 as int;
    assert(n * (b + 1 - a) == n * (b - a) + n) by (nonlinear_arith);
}

/// One more survivor costs the rest of the second stage; one more
/// portfolio member costs the first stage.
pub proof fn lemma_total_per_member(
    portfolio: usize,
    survivors: usize,
    stage25: usize,
    stage50: usize,
    stage500: usize,
    followup: Option<usize>,
)
    requires
        portfolio < usize::MAX,
        survivors < usize::MAX,
    ensures
        early_commitment_total(portfolio, (survivors + 1) as usize, stage25, stage50, stage500, followup)
            == early_commitment_total(portfolio, survivors, stage25, stage50, stage500, followup) + (stage50
            - stage25),
        early_commitment_total((portfolio + 1) as usize, survivors, stage25, stage50, stage500, followup)
            == early_commitment_total(portfolio, survivors, stage25, stage50, stage500, followup) + stage25,
{
    let n = survivors as int;
    let p = portfolio as int;
    let a = stage25 as int;
    let b = stage50 as int;
    assert((n + 1) * (b - a) == n * (b - a) + (b - a)) by (nonlinear_arith);
    assert((p + 1) * a == p * a + a) by (nonlinear_arith);
}

/// The total number of evaluations of an early-commitment schedule, which
/// the progressive schedule reassigns in full.
pub fn early_commitment_total_budget(
    portfolio_count: usize,
    survivor_count: usize,
    stage25_budget: usize,
    stage50_budget: usize,
    stage500_budget: usize,
    followup_budget: Option<usize>,
) -> (r: Result<usize, BudgetError>)
    requires
        budget_error(
            portfolio_count,
            survivor_count,
            stage25_budget,
            stage50_budget,
            stage500_budget,
            followup_budget,
        ) is None ==> early_commitment_total(
            portfolio_count,
            survivor_count,
            stage25_budget,
            stage50_budget,
            stage500_budget,
            followup_budget,
        ) <= usize::MAX,
    ensures
        match budget_error(
            portfolio_count,
            survivor_count,
            stage25_budget,
            stage50_budget,
            stage500_budget,
            followup_budget,
        ) {
            Some(e) => r == Err::<usize, BudgetError>(e),
            None => r == Ok::<usize, BudgetError>(
                early_commitment_total(
                    portfolio_count,
                    survivor_count,
                    stage25_budget,
                    stage50_budget,
                    stage500_budget,
                    followup_budget,
                ) as usize,
            ),
        },
{
    if portfolio_count == 0 {
        return Err(BudgetError::EmptyPortfolio);
    }
    if !(survivor_count > 0 && survivor_count <= portfolio_count) {
        return Err(BudgetError::SurvivorCount);
    }
    if !(stage25_budget <= stage50_budget && stage50_budget <= stage500_budget) {
        return Err(BudgetError::StageOrder);
    }
    let final_budget = match followup_budget {
        Some(b) => b,
        None => stage500_budget,
    };
    if final_budget < stage500_budget {
        return Err(BudgetError::FollowupBelowFinalStage);
    }
    let first = portfolio_count * stage25_budget;
    let second = survivor_count * (stage50_budget - stage25_budget);
    assert(0 <= second) by (nonlinear_arith)
        requires
            stage25_budget <= stage50_budget,
    ;
    Ok(first + second + (stage500_budget - stage50_budget) + (final_budget - stage500_budget))
}

/// The usage line of the materialization tool.
pub open spec fn materialize_usage() -> Seq<char> {
    "usage: materialize_structural_macro_plan INPUT PLAN.json OUT_DIR"@
}

/// The three paths that the materialization tool takes.
#[derive(Debug)]
pub struct MaterializeArgs {
    pub input: String,
    pub plan: String,
    pub out: String,
}

/// Checks the materialization tool's arguments: exactly an input netlist, a
/// plan and an output directory.
pub fn run_cli(args: Vec<String>) -> (r: Result<MaterializeArgs, String>)
    ensures
        args@.len() != 3 ==> (r matches Err(m) && m@ == materialize_usage()),
        args@.len() == 3 ==> (r matches Ok(a) && a.input@ == args@[0]@ && a.plan@ == args@[1]@
            && a.out@ == args@[2]@),
{
    if args.len() != 3 {
        return Err("usage: materialize_structural_macro_plan INPUT PLAN.json OUT_DIR".to_string());
    }
    Ok(
        MaterializeArgs {
            input: copy_string(&args[0]),
            plan: copy_string(&args[1]),
            out: copy_string(&args[2]),
        },
    )
}

/// The usage line of the progressive sizing tool.
pub open spec fn progressive_usage() -> Seq<char> {
    "usage: run_frozen_a2_fast progressive PLAN P1 OUT LIB SCALE_RULES D1_SCORE JOBS"@
}

/// The arguments of a progressive sizing run.  The D1 score stays text: it
/// is a floating-point number.
#[derive(Debug)]
pub struct ProgressiveArgs {
    pub plan: String,
    pub p1: String,
    pub out: String,
    pub lib: String,
    pub rules: String,
    pub d1_score: String,
    pub jobs: usize,
}

/// Why the progressive sizing tool refuses its arguments.
#[derive(Debug, PartialEq, Eq)]
pub enum ProgressiveError {
    /// Not exactly the subcommand and seven operands.
    Usage,
    /// The D1 score is no real number.
    InvalidD1Score(String),
    /// The job count is no unsigned decimal number.
    InvalidJobs(String),
}

impl ProgressiveError {
    /// The message of the refusal: the usage line, or what the refused
    /// number's parser reports.
    pub fn message(&self) -> (m: String)
        ensures
            *self is Usage ==> m@ == progressive_usage(),
            *self is InvalidD1Score ==> m@ == "invalid float literal"@,
            self matches ProgressiveError::InvalidJobs(t) ==> match int_parse(t@, usize::MAX as nat) {
                Err(f) => m@ == int_fault_text(f),
                Ok(_) => m@ == Seq::<char>::empty(),
            },
    {
        match self {
            ProgressiveError::Usage => "usage: run_frozen_a2_fast progressive PLAN P1 OUT LIB SCALE_RULES D1_SCORE JOBS".to_string(),
            ProgressiveError::InvalidD1Score(_) => "invalid float literal".to_string(),
            ProgressiveError::InvalidJobs(t) => match parse_usize_checked(t.as_str()) {
                Err(f) => f.message(),
                Ok(_) => String::new(),
            },
        }
    }
}

/// Checks the progressive sizing tool's arguments (the subcommand and seven
/// operands) and reads its job count, of which at least one is used.
pub fn progressive_native(args: &Vec<String>) -> (r: Result<ProgressiveArgs, ProgressiveError>)
    ensures
        args@.len() != 8 ==> r == Err::<ProgressiveArgs, ProgressiveError>(
            ProgressiveError::Usage,
        ),
        args@.len() == 8 && !real_syntax(args@[6]@) ==> (r matches Err(
            ProgressiveError::InvalidD1Score(t),
        ) && t@ == args@[6]@),
        args@.len() == 8 && real_syntax(args@[6]@) ==> match parsed_usize(args@[7]@) {
            None => r matches Err(ProgressiveError::InvalidJobs(t)) && t@ == args@[7]@,
            Some(j) => r matches Ok(a) && a.plan@ == args@[1]@ && a.p1@ == args@[2]@ && a.out@
                == args@[3]@ && a.lib@ == args@[4]@ && a.rules@ == args@[5]@ && a.d1_score@
                == args@[6]@ && a.jobs == (if j == 0 {
                1
            } else {
                j
            }),
        },
{
    if args.len() != 8 {
        return Err(ProgressiveError::Usage);
    }
    if !is_real_text(args[6].as_str()) {
        return Err(ProgressiveError::InvalidD1Score(copy_string(&args[6])));
    }
    let jobs = match parse_usize(args[7].as_str()) {
        Some(j) => if j == 0 {
            1
        } else {
            j
        },
        None => {
            return Err(ProgressiveError::InvalidJobs(copy_string(&args[7])));
        },
    };
    Ok(
        ProgressiveArgs {
            plan: copy_string(&args[1]),
            p1: copy_string(&args[2]),
            out: copy_string(&args[3]),
            lib: copy_string(&args[4]),
            rules: copy_string(&args[5]),
            d1_score: copy_string(&args[6]),
            jobs,
        },
    )
}

} // verus!
