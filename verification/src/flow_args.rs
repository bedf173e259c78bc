//! The command line of the netlist optimization flow: which options exist,
//! their defaults, and how the argument list sets them.
use vstd::prelude::*;

use crate::paths::{file_name_of, join_path, parent_of, path_file_name, path_join, path_parent};
use crate::aiger_text::{solid_lines, trim_chars, trimmed};
use crate::text::{
    chars_of, copy_string, is_digit, parse_u64, parse_usize, parsed_u64, parsed_usize, split_chars,
    split_on, str_equals, string_of, strings_view, texts_view,
};

verus! {

/// The options of one optimization run.  Paths are kept as written; the
/// real-valued options keep their (checked) decimal text, which the caller
/// reads as a number.
#[derive(Debug)]
pub struct CliArgs {
    pub input: String,
    pub liberty: String,
    pub rules: Vec<String>,
    pub pipeline: String,
    pub extractor: String,
    pub json_out: String,
    pub verilog_out: String,
    pub iter_limit: usize,
    pub node_limit: usize,
    pub time_limit_sec: u64,
    pub stage1_time_limit_sec: u64,
    pub delay_slack_abs: String,
    pub delay_slack_rel: String,
    pub fallback_delay_improve_abs: String,
    pub seed: u64,
    pub sa_initial_temperature: String,
    pub sa_cooling_rate: String,
    pub sa_min_temperature: String,
    pub sa_iterations_per_temp: usize,
    pub sa_exact_eval_budget: Option<usize>,
    pub skip_roundtrip_check: bool,
    pub baseline_runs: usize,
    pub baseline_report_out: Option<String>,
    pub mine_top_k: usize,
    pub mine_min_support: usize,
    pub mine_max_pattern_size: usize,
    pub mine_output_dir: Option<String>,
}

/// The value of the options, with texts as character sequences.
#[verifier::ext_equal]
pub struct FlowOptions {
    pub input: Seq<char>,
    pub liberty: Seq<char>,
    pub rules: Seq<Seq<char>>,
    pub pipeline: Seq<char>,
    pub extractor: Seq<char>,
    pub json_out: Seq<char>,
    pub verilog_out: Seq<char>,
    pub iter_limit: usize,
    pub node_limit: usize,
    pub time_limit_sec: u64,
    pub stage1_time_limit_sec: u64,
    pub delay_slack_abs: Seq<char>,
    pub delay_slack_rel: Seq<char>,
    pub fallback_delay_improve_abs: Seq<char>,
    pub seed: u64,
    pub sa_initial_temperature: Seq<char>,
    pub sa_cooling_rate: Seq<char>,
    pub sa_min_temperature: Seq<char>,
    pub sa_iterations_per_temp: usize,
    pub sa_exact_eval_budget: Option<usize>,
    pub skip_roundtrip_check: bool,
    pub baseline_runs: usize,
    pub baseline_report_out: Option<Seq<char>>,
    pub mine_top_k: usize,
    pub mine_min_support: usize,
    pub mine_max_pattern_size: usize,
    pub mine_output_dir: Option<Seq<char>>,
}

/// The text of an optional string.
pub open spec fn optional_text(o: Option<String>) -> Option<Seq<char>> {
    match o {
        Some(s) => Some(s@),
        None => None,
    }
}

impl View for CliArgs {
    type V = FlowOptions;

    open spec fn view(&self) -> FlowOptions {
        FlowOptions {
            input: self.input@,
            liberty: self.liberty@,
            rules: strings_view(self.rules@),
            pipeline: self.pipeline@,
            extractor: self.extractor@,
            json_out: self.json_out@,
            verilog_out: self.verilog_out@,
            iter_limit: self.iter_limit,
            node_limit: self.node_limit,
            time_limit_sec: self.time_limit_sec,
            stage1_time_limit_sec: self.stage1_time_limit_sec,
            delay_slack_abs: self.delay_slack_abs@,
            delay_slack_rel: self.delay_slack_rel@,
            fallback_delay_improve_abs: self.fallback_delay_improve_abs@,
            seed: self.seed,
            sa_initial_temperature: self.sa_initial_temperature@,
            sa_cooling_rate: self.sa_cooling_rate@,
            sa_min_temperature: self.sa_min_temperature@,
            sa_iterations_per_temp: self.sa_iterations_per_temp,
            sa_exact_eval_budget: self.sa_exact_eval_budget,
            skip_roundtrip_check: self.skip_roundtrip_check,
            baseline_runs: self.baseline_runs,
            baseline_report_out: optional_text(self.baseline_report_out),
            mine_top_k: self.mine_top_k,
            mine_min_support: self.mine_min_support,
            mine_max_pattern_size: self.mine_max_pattern_size,
            mine_output_dir: optional_text(self.mine_output_dir),
        }
    }
}

/// The options of a run that sets none.
pub open spec fn default_options() -> FlowOptions {
    FlowOptions {
        input: "test/mul32_map_genus.v"@,
        liberty: "test/asap7sc6t_SELECT_LVT_TT_nldm.lib"@,
        rules: seq![
            "test/6t_empty_rules.json"@,
            "test/6t_inv_rules.json"@,
            "test/6t_dmg_rules.json"@,
            "test/6t_scale_rules.json"@,
        ],
        pipeline: "single"@,
        extractor: "iterative-greedy-dag-SA"@,
        json_out: "json/test_mul32_map_genus_inv_dmg_rules.json"@,
        verilog_out: "verilog/test_mul32_map_genus_inv_dmg_rules_extract.v"@,
        iter_limit: 200,
        node_limit: 1000000,
        time_limit_sec: 200,
        stage1_time_limit_sec: 60,
        delay_slack_abs: "0.0"@,
        delay_slack_rel: "0.0"@,
        fallback_delay_improve_abs: "3.0"@,
        seed: 0,
        sa_initial_temperature: "1000.0"@,
        sa_cooling_rate: "0.95"@,
        sa_min_temperature: "0.01"@,
        sa_iterations_per_temp: 100,
        sa_exact_eval_budget: None,
        skip_roundtrip_check: false,
        baseline_runs: 1,
        baseline_report_out: None,
        mine_top_k: 0,
        mine_min_support: 2,
        mine_max_pattern_size: 3,
        mine_output_dir: None,
    }
}

impl Default for CliArgs {
    /// The flow on the bundled 32-bit multiplier with every rule set.
    fn default() -> (r: Self)
        ensures
            r@ == default_options(),
    {
        let r = CliArgs {
            input: "test/mul32_map_genus.v".to_string(),
            liberty: "test/asap7sc6t_SELECT_LVT_TT_nldm.lib".to_string(),
            rules: vec![
                "test/6t_empty_rules.json".to_string(),
                "test/6t_inv_rules.json".to_string(),
                "test/6t_dmg_rules.json".to_string(),
                "test/6t_scale_rules.json".to_string(),
            ],
            pipeline: "single".to_string(),
            extractor: "iterative-greedy-dag-SA".to_string(),
            json_out: "json/test_mul32_map_genus_inv_dmg_rules.json".to_string(),
            verilog_out: "verilog/test_mul32_map_genus_inv_dmg_rules_extract.v".to_string(),
            iter_limit: 200,
            node_limit: 1000000,
            time_limit_sec: 200,
            stage1_time_limit_sec: 60,
            delay_slack_abs: "0.0".to_string(),
            delay_slack_rel: "0.0".to_string(),
            fallback_delay_improve_abs: "3.0".to_string(),
            seed: 0,
            sa_initial_temperature: "1000.0".to_string(),
            sa_cooling_rate: "0.95".to_string(),
            sa_min_temperature: "0.01".to_string(),
            sa_iterations_per_temp: 100,
            sa_exact_eval_budget: None,
            skip_roundtrip_check: false,
            baseline_runs: 1,
            baseline_report_out: None,
            mine_top_k: 0,
            mine_min_support: 2,
            mine_max_pattern_size: 3,
            mine_output_dir: None,
        };
        assert(r@.rules =~= default_options().rules);
        r
    }
}

/// The usage line of the flow.
pub open spec fn usage_text() -> Seq<char> {
    "Usage: cargo run -- [--input PATH] [--lib PATH] [--rules PATH[,PATH...]] [--pipeline NAME] [--extractor NAME] [--json-out PATH] [--verilog-out PATH] [--iter-limit N] [--node-limit N] [--time-limit-sec N] [--stage1-time-limit-sec N] [--delay-slack-abs X] [--delay-slack-rel X] [--fallback-delay-improve-abs X] [--seed N] [--sa-initial-temperature X] [--sa-cooling-rate X] [--sa-min-temperature X] [--sa-iterations-per-temp N] [--skip-roundtrip-check] [--baseline-runs N] [--baseline-report-out PATH] [--mine-top-k N] [--mine-min-support N] [--mine-max-pattern-size N] [--mine-output-dir PATH]"@
}

/// The usage line of the flow.
pub fn usage() -> (r: &'static str)
    ensures
        r@ == usage_text(),
{
    "Usage: cargo run -- [--input PATH] [--lib PATH] [--rules PATH[,PATH...]] [--pipeline NAME] [--extractor NAME] [--json-out PATH] [--verilog-out PATH] [--iter-limit N] [--node-limit N] [--time-limit-sec N] [--stage1-time-limit-sec N] [--delay-slack-abs X] [--delay-slack-rel X] [--fallback-delay-improve-abs X] [--seed N] [--sa-initial-temperature X] [--sa-cooling-rate X] [--sa-min-temperature X] [--sa-iterations-per-temp N] [--skip-roundtrip-check] [--baseline-runs N] [--baseline-report-out PATH] [--mine-top-k N] [--mine-min-support N] [--mine-max-pattern-size N] [--mine-output-dir PATH]"
}

// ----- real-number syntax -----

/// `c` is the ASCII letter `l` (given in lower case) in either case.
pub open spec fn same_letter(c: char, l: char) -> bool {
    c == l || c as u32 + 32 == l as u32
}

/// `s` spells the lower-case word `w`, ignoring ASCII case.
pub open spec fn spells(s: Seq<char>, w: Seq<char>) -> bool {
    s.len() == w.len() && forall|i: int| 0 <= i < s.len() ==> same_letter(#[trigger] s[i], w[i])
}

/// The text without one leading sign.
pub open spec fn unsigned_part(s: Seq<char>) -> Seq<char> {
    if s.len() > 0 && (s[0] == '+' || s[0] == '-') {
        s.drop_first()
    } else {
        s
    }
}

/// How often `c` occurs in `s`.
pub open spec fn count_char(s: Seq<char>, c: char) -> nat
    decreases s.len(),
{
    if s.len() == 0 {
        0
    } else {
        count_char(s.drop_last(), c) + if s.last() == c {
            1nat
        } else {
            0nat
        }
    }
}

/// The first position at or after `k` that holds an exponent mark (the
/// length when there is none).
pub open spec fn exponent_mark(s: Seq<char>, k: nat) -> nat
    decreases s.len() - k,
{
    if k >= s.len() {
        s.len()
    } else if s[k as int] == 'e' || s[k as int] == 'E' {
        k
    } else {
        exponent_mark(s, k + 1)
    }
}

/// Digits with at most one decimal point, and at least one digit.
pub open spec fn mantissa_syntax(m: Seq<char>) -> bool {
    &&& forall|i: int| 0 <= i < m.len() ==> is_digit(#[trigger] m[i]) || m[i] == '.'
    &&& count_char(m, '.') <= 1
    &&& m.len() > count_char(m, '.')
}

/// An optional sign and at least one digit.
pub open spec fn exponent_syntax(x: Seq<char>) -> bool {
    let d = unsigned_part(x);
    d.len() > 0 && forall|i: int| 0 <= i < d.len() ==> is_digit(#[trigger] d[i])
}

/// A decimal number with an optional exponent.
pub open spec fn number_syntax(b: Seq<char>) -> bool {
    let e = exponent_mark(b, 0);
    mantissa_syntax(b.take(e as int)) && (e == b.len() || exponent_syntax(b.skip(e + 1int)))
}

/// The texts that `str::parse::<f64>` accepts: an optional sign, then
/// `inf`, `infinity`, `nan` in any case, or a decimal number with an
/// optional exponent.
pub open spec fn real_syntax(s: Seq<char>) -> bool {
    let b = unsigned_part(s);
    spells(b, seq!['i', 'n', 'f']) || spells(b, seq!['i', 'n', 'f', 'i', 'n', 'i', 't', 'y'])
        || spells(b, seq!['n', 'a', 'n']) || number_syntax(b)
}

fn spells_exec(s: &[char], from: usize, w: &[char]) -> (r: bool)
    requires
        from <= s@.len(),
        forall|i: int| 0 <= i < w@.len() ==> 'a' <= #[trigger] w@[i] <= 'z',
    ensures
        r == spells(s@.skip(from as int), w@),
{
    let ghost b = s@.skip(from as int);
    let n = s.len();
    if n - from != w.len() {
        return false;
    }
    let mut i: usize = 0;
    while i < w.len()
        invariant
            0 <= i <= w@.len(),
            n == s@.len(),
            from <= s@.len(),
            b == s@.skip(from as int),
            b.len() == w@.len(),
            from + w@.len() == s@.len(),
            forall|j: int| 0 <= j < w@.len() ==> 'a' <= #[trigger] w@[j] <= 'z',
            forall|j: int| 0 <= j < i ==> same_letter(#[trigger] b[j], w@[j]),
        decreases w.len() - i,
    {
        let c = s[from + i];
        let l = w[i];
        assert(b[i as int] == c);
        assert('a' <= w@[i as int]);
        if !(c == l || c as u32 == l as u32 - 32) {
            return false;
        }
        i = i + 1;
    }
    true
}

/// The first exponent mark at or after `from`, as an index into `s`.
fn exponent_mark_exec(s: &Vec<char>, from: usize) -> (e: usize)
    requires
        from <= s@.len(),
    ensures
        from <= e <= s@.len(),
        e - from == exponent_mark(s@.skip(from as int), 0),
{
    let ghost b = s@.skip(from as int);
    let mut e: usize = from;
    while e < s.len() && s[e] != 'e' && s[e] != 'E'
        invariant
            from <= e <= s@.len(),
            b == s@.skip(from as int),
            exponent_mark(b, 0) == exponent_mark(b, (e - from) as nat),
        decreases s.len() - e,
    {
        assert(b[e - from] == s@[e as int]);
        e = e + 1;
    }
    if e < s.len() {
        assert(b[e - from] == s@[e as int]);
    }
    e
}

/// Decides `mantissa_syntax` of `s[from..end]`.
fn mantissa_exec(s: &Vec<char>, from: usize, end: usize) -> (r: bool)
    requires
        from <= end <= s@.len(),
    ensures
        r == mantissa_syntax(s@.subrange(from as int, end as int)),
{
    let ghost m = s@.subrange(from as int, end as int);
    let mut dots: usize = 0;
    let mut i: usize = from;
    while i < end
        invariant
            from <= i <= end <= s@.len(),
            m == s@.subrange(from as int, end as int),
            dots == count_char(m.take(i - from), '.'),
            dots <= 1,
            forall|j: int| 0 <= j < i - from ==> is_digit(#[trigger] m[j]) || m[j] == '.',
        decreases end - i,
    {
        let c = s[i];
        assert(m[i - from] == c);
        assert(m.take(i - from + 1).drop_last() =~= m.take(i - from));
        if c == '.' {
            if dots == 1 {
                proof {
                    lemma_count_prefix(m, i - from + 1);
                }
                return false;
            }
            dots = dots + 1;
        } else if !('0' <= c && c <= '9') {
            return false;
        }
        i = i + 1;
    }
    assert(m.take(end - from) =~= m);
    end - from > dots
}

/// Decides `exponent_syntax` of `s[start..]`.
fn exponent_exec(s: &Vec<char>, start: usize) -> (r: bool)
    requires
        start <= s@.len(),
    ensures
        r == exponent_syntax(s@.skip(start as int)),
{
    let ghost x = s@.skip(start as int);
    let mut k: usize = start;
    if k < s.len() && (s[k] == '+' || s[k] == '-') {
        k = k + 1;
    }
    let ghost d = unsigned_part(x);
    assert(d =~= s@.skip(k as int));
    if k == s.len() {
        return false;
    }
    let k0 = k;
    while k < s.len()
        invariant
            k0 <= k <= s@.len(),
            x == s@.skip(start as int),
            d == unsigned_part(x),
            d == s@.skip(k0 as int),
            forall|t: int| 0 <= t < k - k0 ==> is_digit(#[trigger] d[t]),
        decreases s.len() - k,
    {
        assert(d[k - k0] == s@[k as int]);
        if !('0' <= s[k] && s[k] <= '9') {
            return false;
        }
        k = k + 1;
    }
    true
}

/// Decides `real_syntax`.
pub fn is_real_text(text: &str) -> (r: bool)
    ensures
        r == real_syntax(text@),
{
    let s = chars_of(text);
    let mut from: usize = 0;
    if s.len() > 0 && (s[0] == '+' || s[0] == '-') {
        from = 1;
    }
    let ghost b = unsigned_part(text@);
    assert(b =~= s@.skip(from as int));
    let inf = ['i', 'n', 'f'];
    let infinity = ['i', 'n', 'f', 'i', 'n', 'i', 't', 'y'];
    let nan = ['n', 'a', 'n'];
    assert(inf@ =~= seq!['i', 'n', 'f']);
    assert(infinity@ =~= seq!['i', 'n', 'f', 'i', 'n', 'i', 't', 'y']);
    assert(nan@ =~= seq!['n', 'a', 'n']);
    if spells_exec(&s, from, &inf) || spells_exec(&s, from, &infinity) || spells_exec(
        &s,
        from,
        &nan,
    ) {
        return true;
    }
    let e = exponent_mark_exec(&s, from);
    assert(b.take(e - from) =~= s@.subrange(from as int, e as int));
    if !mantissa_exec(&s, from, e) {
        return false;
    }
    if e == s.len() {
        return true;
    }
    assert(b.skip(e - from + 1) =~= s@.skip(e + 1));
    exponent_exec(&s, e + 1)
}

proof fn lemma_count_prefix(m: Seq<char>, k: int)
    requires
        0 <= k <= m.len(),
    ensures
        count_char(m.take(k), '.') <= count_char(m, '.'),
    decreases m.len() - k,
{
    if k < m.len() {
        lemma_count_prefix(m, k + 1);
        assert(m.take(k + 1).drop_last() =~= m.take(k));
    } else {
        assert(m.take(k) =~= m);
    }
}

// ----- flags -----

/// The flags whose value is kept as text.
pub open spec fn is_text_flag(f: Seq<char>) -> bool {
    f == "--input"@ || f == "--lib"@ || f == "--pipeline"@ || f == "--extractor"@ || f
        == "--json-out"@ || f == "--verilog-out"@ || f == "--baseline-report-out"@ || f
        == "--mine-output-dir"@
}

/// The flags whose value is a real number.
pub open spec fn is_real_flag(f: Seq<char>) -> bool {
    f == "--delay-slack-abs"@ || f == "--delay-slack-rel"@ || f == "--fallback-delay-improve-abs"@
        || f == "--sa-initial-temperature"@ || f == "--sa-cooling-rate"@ || f
        == "--sa-min-temperature"@
}

/// The flags whose value is a `usize`.
pub open spec fn is_count_flag(f: Seq<char>) -> bool {
    f == "--iter-limit"@ || f == "--node-limit"@ || f == "--sa-iterations-per-temp"@ || f
        == "--sa-exact-eval-budget"@ || f == "--baseline-runs"@ || f == "--mine-top-k"@ || f
        == "--mine-min-support"@ || f == "--mine-max-pattern-size"@
}

/// The flags whose value is a `u64`.
pub open spec fn is_u64_flag(f: Seq<char>) -> bool {
    f == "--time-limit-sec"@ || f == "--stage1-time-limit-sec"@ || f == "--seed"@
}

/// The flags that take the next argument as their value.
pub open spec fn takes_value(f: Seq<char>) -> bool {
    is_text_flag(f) || is_real_flag(f) || is_count_flag(f) || is_u64_flag(f) || f == "--rules"@
}

/// The options after a text or real flag set its value.
pub open spec fn set_text(o: FlowOptions, f: Seq<char>, v: Seq<char>) -> FlowOptions {
    if f == "--input"@ {
        FlowOptions { input: v, ..o }
    } else if f == "--lib"@ {
        FlowOptions { liberty: v, ..o }
    } else if f == "--pipeline"@ {
        FlowOptions { pipeline: v, ..o }
    } else if f == "--extractor"@ {
        FlowOptions { extractor: v, ..o }
    } else if f == "--json-out"@ {
        FlowOptions { json_out: v, ..o }
    } else if f == "--verilog-out"@ {
        FlowOptions { verilog_out: v, ..o }
    } else if f == "--baseline-report-out"@ {
        FlowOptions { baseline_report_out: Some(v), ..o }
    } else if f == "--mine-output-dir"@ {
        FlowOptions { mine_output_dir: Some(v), ..o }
    } else if f == "--delay-slack-abs"@ {
        FlowOptions { delay_slack_abs: v, ..o }
    } else if f == "--delay-slack-rel"@ {
        FlowOptions { delay_slack_rel: v, ..o }
    } else if f == "--fallback-delay-improve-abs"@ {
        FlowOptions { fallback_delay_improve_abs: v, ..o }
    } else if f == "--sa-initial-temperature"@ {
        FlowOptions { sa_initial_temperature: v, ..o }
    } else if f == "--sa-cooling-rate"@ {
        FlowOptions { sa_cooling_rate: v, ..o }
    } else {
        FlowOptions { sa_min_temperature: v, ..o }
    }
}

/// The options after a `usize` flag set its value.
pub open spec fn set_count(o: FlowOptions, f: Seq<char>, n: usize) -> FlowOptions {
    if f == "--iter-limit"@ {
        FlowOptions { iter_limit: n, ..o }
    } else if f == "--node-limit"@ {
        FlowOptions { node_limit: n, ..o }
    } else if f == "--sa-iterations-per-temp"@ {
        FlowOptions { sa_iterations_per_temp: n, ..o }
    } else if f == "--sa-exact-eval-budget"@ {
        FlowOptions { sa_exact_eval_budget: Some(n), ..o }
    } else if f == "--baseline-runs"@ {
        FlowOptions { baseline_runs: n, ..o }
    } else if f == "--mine-top-k"@ {
        FlowOptions { mine_top_k: n, ..o }
    } else if f == "--mine-min-support"@ {
        FlowOptions { mine_min_support: n, ..o }
    } else {
        FlowOptions { mine_max_pattern_size: n, ..o }
    }
}

/// The options after a `u64` flag set its value.
pub open spec fn set_u64(o: FlowOptions, f: Seq<char>, n: u64) -> FlowOptions {
    if f == "--time-limit-sec"@ {
        FlowOptions { time_limit_sec: n, ..o }
    } else if f == "--stage1-time-limit-sec"@ {
        FlowOptions { stage1_time_limit_sec: n, ..o }
    } else {
        FlowOptions { seed: n, ..o }
    }
}

/// The rule files of a `--rules` value: its comma-separated pieces,
/// trimmed, without the empty ones.
pub open spec fn rule_paths(v: Seq<char>) -> Seq<Seq<char>> {
    solid_lines(split_on(v, ','))
}

/// What a flag that takes a value does with value `v`.
pub open spec fn apply_value(o: FlowOptions, f: Seq<char>, v: Seq<char>) -> Result<
    FlowOptions,
    Seq<char>,
> {
    if f == "--rules"@ {
        if rule_paths(v).len() == 0 {
            Err("--rules requires at least one path"@)
        } else {
            Ok(FlowOptions { rules: rule_paths(v), ..o })
        }
    } else if is_count_flag(f) {
        match parsed_usize(v) {
            Some(n) => Ok(set_count(o, f, n)),
            None => Err("invalid "@ + f),
        }
    } else if is_u64_flag(f) {
        match parsed_u64(v) {
            Some(n) => Ok(set_u64(o, f, n)),
            None => Err("invalid "@ + f),
        }
    } else if is_real_flag(f) && !real_syntax(v) {
        Err("invalid "@ + f)
    } else {
        Ok(set_text(o, f, v))
    }
}

/// What the command line asks for: the usage text, or a run.
pub enum FlowRequest {
    Help,
    Run(FlowOptions),
}

/// The request of the arguments from position `i` on, with options `o` set
/// so far; `Err` holds the message of the first bad argument.
pub open spec fn parse_from(o: FlowOptions, args: Seq<Seq<char>>, i: nat) -> Result<
    FlowRequest,
    Seq<char>,
>
    decreases args.len() - i,
{
    if i >= args.len() {
        Ok(FlowRequest::Run(o))
    } else {
        let a = args[i as int];
        if a == "--help"@ || a == "-h"@ {
            Ok(FlowRequest::Help)
        } else if a == "--skip-roundtrip-check"@ {
            parse_from(FlowOptions { skip_roundtrip_check: true, ..o }, args, i + 1)
        } else if takes_value(a) {
            if i + 1 >= args.len() {
                Err("missing value for "@ + a)
            } else {
                match apply_value(o, a, args[i + 1int]) {
                    Ok(o2) => parse_from(o2, args, i + 2),
                    Err(e) => Err(e),
                }
            }
        } else {
            Err("unknown argument: "@ + a + "\n"@ + usage_text())
        }
    }
}

/// What the command line asks for.
#[derive(Debug)]
pub enum CliRequest {
    /// Print the usage line and stop.
    Help,
    /// Run the flow with these options.
    Run(CliArgs),
}

/// The value of a parse result.
pub open spec fn request_view(r: Result<CliRequest, String>) -> Result<FlowRequest, Seq<char>> {
    match r {
        Ok(CliRequest::Help) => Ok(FlowRequest::Help),
        Ok(CliRequest::Run(a)) => Ok(FlowRequest::Run(a@)),
        Err(e) => Err(e@),
    }
}

fn is_text_flag_exec(f: &str) -> (r: bool)
    ensures
        r == is_text_flag(f@),
{
    str_equals(f, "--input") || str_equals(f, "--lib") || str_equals(f, "--pipeline")
        || str_equals(f, "--extractor") || str_equals(f, "--json-out") || str_equals(
        f,
        "--verilog-out",
    ) || str_equals(f, "--baseline-report-out") || str_equals(f, "--mine-output-dir")
}

fn is_real_flag_exec(f: &str) -> (r: bool)
    ensures
        r == is_real_flag(f@),
{
    str_equals(f, "--delay-slack-abs") || str_equals(f, "--delay-slack-rel") || str_equals(
        f,
        "--fallback-delay-improve-abs",
    ) || str_equals(f, "--sa-initial-temperature") || str_equals(f, "--sa-cooling-rate")
        || str_equals(f, "--sa-min-temperature")
}

fn is_count_flag_exec(f: &str) -> (r: bool)
    ensures
        r == is_count_flag(f@),
{
    str_equals(f, "--iter-limit") || str_equals(f, "--node-limit") || str_equals(
        f,
        "--sa-iterations-per-temp",
    ) || str_equals(f, "--sa-exact-eval-budget") || str_equals(f, "--baseline-runs")
        || str_equals(f, "--mine-top-k") || str_equals(f, "--mine-min-support") || str_equals(
        f,
        "--mine-max-pattern-size",
    )
}

fn is_u64_flag_exec(f: &str) -> (r: bool)
    ensures
        r == is_u64_flag(f@),
{
    str_equals(f, "--time-limit-sec") || str_equals(f, "--stage1-time-limit-sec") || str_equals(
        f,
        "--seed",
    )
}

fn set_text_exec(o: &mut CliArgs, f: &str, v: &String)
    ensures
        final(o)@ == set_text(old(o)@, f@, v@),
{
    let t = copy_string(v);
    if str_equals(f, "--input") {
        o.input = t;
    } else if str_equals(f, "--lib") {
        o.liberty = t;
    } else if str_equals(f, "--pipeline") {
        o.pipeline = t;
    } else if str_equals(f, "--extractor") {
        o.extractor = t;
    } else if str_equals(f, "--json-out") {
        o.json_out = t;
    } else if str_equals(f, "--verilog-out") {
        o.verilog_out = t;
    } else if str_equals(f, "--baseline-report-out") {
        o.baseline_report_out = Some(t);
    } else if str_equals(f, "--mine-output-dir") {
        o.mine_output_dir = Some(t);
    } else if str_equals(f, "--delay-slack-abs") {
        o.delay_slack_abs = t;
    } else if str_equals(f, "--delay-slack-rel") {
        o.delay_slack_rel = t;
    } else if str_equals(f, "--fallback-delay-improve-abs") {
        o.fallback_delay_improve_abs = t;
    } else if str_equals(f, "--sa-initial-temperature") {
        o.sa_initial_temperature = t;
    } else if str_equals(f, "--sa-cooling-rate") {
        o.sa_cooling_rate = t;
    } else {
        o.sa_min_temperature = t;
    }
}

fn set_count_exec(o: &mut CliArgs, f: &str, n: usize)
    ensures
        final(o)@ == set_count(old(o)@, f@, n),
{
    if str_equals(f, "--iter-limit") {
        o.iter_limit = n;
    } else if str_equals(f, "--node-limit") {
        o.node_limit = n;
    } else if str_equals(f, "--sa-iterations-per-temp") {
        o.sa_iterations_per_temp = n;
    } else if str_equals(f, "--sa-exact-eval-budget") {
        o.sa_exact_eval_budget = Some(n);
    } else if str_equals(f, "--baseline-runs") {
        o.baseline_runs = n;
    } else if str_equals(f, "--mine-top-k") {
        o.mine_top_k = n;
    } else if str_equals(f, "--mine-min-support") {
        o.mine_min_support = n;
    } else {
        o.mine_max_pattern_size = n;
    }
}

fn set_u64_exec(o: &mut CliArgs, f: &str, n: u64)
    ensures
        final(o)@ == set_u64(old(o)@, f@, n),
{
    if str_equals(f, "--time-limit-sec") {
        o.time_limit_sec = n;
    } else if str_equals(f, "--stage1-time-limit-sec") {
        o.stage1_time_limit_sec = n;
    } else {
        o.seed = n;
    }
}

/// The rule files of a `--rules` value.
fn rule_paths_exec(v: &String) -> (r: Vec<String>)
    ensures
        strings_view(r@) == rule_paths(v@),
{
    let cs = chars_of(v.as_str());
    let ps = split_chars(&cs, ',');
    let ghost pv = texts_view(ps@);
    let mut out: Vec<String> = Vec::new();
    let mut i: usize = 0;
    assert(pv.take(0) =~= Seq::<Seq<char>>::empty());
    while i < ps.len()
        invariant
            0 <= i <= ps@.len(),
            pv == texts_view(ps@),
            strings_view(out@) == solid_lines(pv.take(i as int)),
        decreases ps.len() - i,
    {
        let t = trim_chars(&ps[i]);
        assert(pv.take(i + 1).drop_last() =~= pv.take(i as int));
        assert(pv.take(i + 1).last() == ps@[i as int]@);
        if t.len() > 0 {
            let ghost before = strings_view(out@);
            out.push(string_of(t.as_slice()));
            assert(strings_view(out@) =~= before.push(t@));
        }
        i = i + 1;
    }
    assert(pv.take(i as int) =~= pv);
    out
}

fn concat_message(head: &str, tail: &str) -> (r: String)
    ensures
        r@ == head@ + tail@,
{
    let mut cs = chars_of(head);
    let t = chars_of(tail);
    let mut i: usize = 0;
    let ghost h = cs@;
    while i < t.len()
        invariant
            0 <= i <= t@.len(),
            cs@ == h + t@.take(i as int),
        decreases t.len() - i,
    {
        assert(t@.take(i + 1) =~= t@.take(i as int).push(t@[i as int]));
        cs.push(t[i]);
        i = i + 1;
    }
    assert(t@.take(i as int) =~= t@);
    string_of(cs.as_slice())
}

fn apply_value_exec(o: &mut CliArgs, f: &str, v: &String) -> (r: Result<(), String>)
    ensures
        match apply_value(old(o)@, f@, v@) {
            Ok(n) => r is Ok && final(o)@ == n,
            Err(m) => r matches Err(e) && e@ == m,
        },
{
    if str_equals(f, "--rules") {
        let paths = rule_paths_exec(v);
        if paths.len() == 0 {
            return Err("--rules requires at least one path".to_string());
        }
        o.rules = paths;
        return Ok(());
    }
    if is_count_flag_exec(f) {
        match parse_usize(v.as_str()) {
            Some(n) => {
                set_count_exec(o, f, n);
                return Ok(());
            },
            None => {
                return Err(concat_message("invalid ", f));
            },
        }
    }
    if is_u64_flag_exec(f) {
        match parse_u64(v.as_str()) {
            Some(n) => {
                set_u64_exec(o, f, n);
                return Ok(());
            },
            None => {
                return Err(concat_message("invalid ", f));
            },
        }
    }
    if is_real_flag_exec(f) && !is_real_text(v.as_str()) {
        return Err(concat_message("invalid ", f));
    }
    set_text_exec(o, f, v);
    Ok(())
}

/// Reads the flow's options from its arguments (the program name left
/// out), starting from the defaults; `--help` asks for the usage line.
pub fn parse_args(args: &Vec<String>) -> (r: Result<CliRequest, String>)
    ensures
        request_view(r) == parse_from(default_options(), strings_view(args@), 0),
{
    let ghost sv = strings_view(args@);
    let mut opts = CliArgs::default();
    let mut i: usize = 0;
    while i < args.len()
        invariant
            0 <= i <= args@.len(),
            sv == strings_view(args@),
            parse_from(opts@, sv, i as nat) == parse_from(default_options(), sv, 0),
        decreases args.len() - i,
    {
        let a = args[i].as_str();
        assert(sv[i as int] == a@);
        if str_equals(a, "--help") || str_equals(a, "-h") {
            return Ok(CliRequest::Help);
        }
        if str_equals(a, "--skip-roundtrip-check") {
            opts.skip_roundtrip_check = true;
            i = i + 1;
            continue;
        }
        if !(is_text_flag_exec(a) || is_real_flag_exec(a) || is_count_flag_exec(a)
            || is_u64_flag_exec(a) || str_equals(a, "--rules")) {
            let m = concat_message("unknown argument: ", a);
            let m = concat_message(m.as_str(), "\n");
            return Err(concat_message(m.as_str(), usage()));
        }
        if i + 1 >= args.len() {
            return Err(concat_message("missing value for ", a));
        }
        assert(sv[i + 1] == args@[i + 1]@);
        match apply_value_exec(&mut opts, a, &args[i + 1]) {
            Ok(()) => {},
            Err(e) => {
                return Err(e);
            },
        }
        i = i + 2;
    }
    Ok(CliRequest::Run(opts))
}

/// The path beside `path` whose file name has `suffix` appended (a path
/// without a file name gives `output` plus the suffix).
pub open spec fn suffixed_path(path: Seq<char>, suffix: Seq<char>) -> Seq<char> {
    let parent = match path_parent(path) {
        Some(p) => p,
        None => Seq::empty(),
    };
    let name = match path_file_name(path) {
        Some(n) => n,
        None => "output"@,
    };
    path_join(parent, name + suffix)
}

/// Appends `suffix` to the file name of `path`, in the same directory.
pub fn append_suffix(path: &str, suffix: &str) -> (r: String)
    ensures
        r@ == suffixed_path(path@, suffix@),
{
    let parent = match parent_of(path) {
        Some(p) => p,
        None => String::new(),
    };
    let name = match file_name_of(path) {
        Some(n) => n,
        None => "output".to_string(),
    };
    let file = concat_message(name.as_str(), suffix);
    join_path(parent.as_str(), &file)
}

} // verus!
