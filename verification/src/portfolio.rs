//! Sizing-potential preview for topology promotion.
//!
//! The Top-K topology portfolio is normally chosen from pre-sizing values.
//! The potential preview ranks a bounded superset and admits a capped number
//! of candidates that were outside the original portfolio.  The portfolio
//! size itself never changes.
use vstd::prelude::*;

use crate::text::{
    contains_string, copy_string, flag_enabled, flag_on, int_fault_text, int_parse, opt_text,
    parse_usize_checked, push_str, string_of,
};

verus! {

/// Limits of the opt-in sizing-potential preview.
#[derive(Clone, Debug, PartialEq, Eq)]
pub struct V8PotentialConfig {
    pub preview_pool_limit: usize,
    pub preview_exact_budget: usize,
    pub rescued_candidate_cap: usize,
}

impl V8PotentialConfig {
    /// Builds a configuration from already-read limits; every limit must be
    /// positive.
    pub fn from_limits(
        preview_pool_limit: usize,
        preview_exact_budget: usize,
        rescued_candidate_cap: usize,
    ) -> (r: Result<V8PotentialConfig, String>)
        ensures
            (preview_pool_limit > 0 && preview_exact_budget > 0 && rescued_candidate_cap > 0)
                <==> r is Ok,
            r matches Ok(c) ==> c == (V8PotentialConfig {
                preview_pool_limit,
                preview_exact_budget,
                rescued_candidate_cap,
            }),
            r matches Err(e) ==> e@ == "V8-potential limits must be positive"@,
    {
        if preview_pool_limit == 0 || preview_exact_budget == 0 || rescued_candidate_cap == 0 {
            return Err("V8-potential limits must be positive".to_owned());
        }
        Ok(V8PotentialConfig { preview_pool_limit, preview_exact_budget, rescued_candidate_cap })
    }
}

/// A positive limit read from the environment: its default when unset, else
/// its decimal value, or the message naming the variable and the fault.
pub open spec fn limit_setting(name: Seq<char>, value: Option<Seq<char>>, default: usize) -> Result<
    usize,
    Seq<char>,
> {
    match value {
        None => Ok(default),
        Some(s) => match int_parse(s, usize::MAX as nat) {
            Ok(n) => Ok(n as usize),
            Err(f) => Err("invalid "@ + name + "="@ + s + ": "@ + int_fault_text(f)),
        },
    }
}

/// The preview configuration given the values of its environment switch
/// and of its three limits: none while the switch is off; else the limits
/// (64, 1 and 8 when unset), the first refused one, or the positivity error.
pub open spec fn potential_settings(
    enabled: Option<Seq<char>>,
    pool: Option<Seq<char>>,
    exact: Option<Seq<char>>,
    cap: Option<Seq<char>>,
) -> Result<Option<V8PotentialConfig>, Seq<char>> {
    if !flag_on(enabled) {
        Ok(None)
    } else {
        match limit_setting("EGG_V8_POTENTIAL_PREVIEW_POOL"@, pool, 64) {
            Err(e) => Err(e),
            Ok(p) => match limit_setting("EGG_V8_POTENTIAL_PREVIEW_EXACT"@, exact, 1) {
                Err(e) => Err(e),
                Ok(x) => match limit_setting("EGG_V8_POTENTIAL_RESCUE_CAP"@, cap, 8) {
                    Err(e) => Err(e),
                    Ok(c) => if p == 0 || x == 0 || c == 0 {
                        Err("V8-potential limits must be positive"@)
                    } else {
                        Ok(
                            Some(
                                V8PotentialConfig {
                                    preview_pool_limit: p,
                                    preview_exact_budget: x,
                                    rescued_candidate_cap: c,
                                },
                            ),
                        )
                    },
                },
            },
        }
    }
}

/// Reads one limit from its value, as `limit_setting` states.
fn limit_from(name: &str, value: Option<&str>, default: usize) -> (r: Result<usize, String>)
    ensures
        match limit_setting(name@, opt_text(value), default) {
            Ok(n) => r == Ok::<usize, String>(n),
            Err(m) => r matches Err(e) && e@ == m,
        },
{
    match value {
        None => Ok(default),
        Some(s) => match parse_usize_checked(s) {
            Ok(n) => Ok(n),
            Err(f) => {
                let mut v: Vec<char> = Vec::new();
                push_str(&mut v, "invalid ");
                push_str(&mut v, name);
                push_str(&mut v, "=");
                push_str(&mut v, s);
                push_str(&mut v, ": ");
                let m = f.message();
                push_str(&mut v, m.as_str());
                Err(string_of(v.as_slice()))
            },
        },
    }
}

impl V8PotentialConfig {
    /// The configuration from the values of `EGG_V8_POTENTIAL` and of the
    /// three limit variables, each `None` where the variable is unset.
    pub fn from_env(
        enabled: Option<&str>,
        pool: Option<&str>,
        exact: Option<&str>,
        cap: Option<&str>,
    ) -> (r: Result<Option<V8PotentialConfig>, String>)
        ensures
            match potential_settings(
                opt_text(enabled),
                opt_text(pool),
                opt_text(exact),
                opt_text(cap),
            ) {
                Ok(c) => r == Ok::<Option<V8PotentialConfig>, String>(c),
                Err(m) => r matches Err(e) && e@ == m,
            },
    {
        if !flag_enabled(enabled) {
            return Ok(None);
        }
        let p = match limit_from("EGG_V8_POTENTIAL_PREVIEW_POOL", pool, 64) {
            Ok(n) => n,
            Err(e) => {
                return Err(e);
            },
        };
        let x = match limit_from("EGG_V8_POTENTIAL_PREVIEW_EXACT", exact, 1) {
            Ok(n) => n,
            Err(e) => {
                return Err(e);
            },
        };
        let c = match limit_from("EGG_V8_POTENTIAL_RESCUE_CAP", cap, 8) {
            Ok(n) => n,
            Err(e) => {
                return Err(e);
            },
        };
        match V8PotentialConfig::from_limits(p, x, c) {
            Ok(config) => Ok(Some(config)),
            Err(e) => Err(e),
        }
    }
}

/// The outcome of a potential-driven portfolio promotion.
#[derive(Clone, Debug, PartialEq, Eq)]
pub struct PotentialPromotionDecision {
    pub selected: Vec<String>,
    pub retained_baseline: Vec<String>,
    pub rescued: Vec<String>,
    pub displaced_baseline: Vec<String>,
}

/// One step of the preview walk: while the portfolio is not full, a baseline
/// member is always admitted and an outsider only while rescues remain.
pub open spec fn preview_step(
    base: Seq<Seq<char>>,
    cap: nat,
    state: (Seq<Seq<char>>, Seq<Seq<char>>),
    id: Seq<char>,
) -> (Seq<Seq<char>>, Seq<Seq<char>>) {
    if state.0.len() >= base.len() {
        state
    } else if base.contains(id) {
        (state.0.push(id), state.1)
    } else if state.1.len() < cap {
        (state.0.push(id), state.1.push(id))
    } else {
        state
    }
}

/// The (selected, rescued) pair after walking the whole preview ranking.
pub open spec fn preview_walk(base: Seq<Seq<char>>, ranking: Seq<Seq<char>>, cap: nat) -> (
    Seq<Seq<char>>,
    Seq<Seq<char>>,
)
    decreases ranking.len(),
{
    if ranking.len() == 0 {
        (Seq::empty(), Seq::empty())
    } else {
        preview_step(base, cap, preview_walk(base, ranking.drop_last(), cap), ranking.last())
    }
}

/// One step of topping up a short portfolio from the baseline, in baseline order.
pub open spec fn fill_step(n: nat, sel: Seq<Seq<char>>, id: Seq<char>) -> Seq<Seq<char>> {
    if sel.len() >= n || sel.contains(id) {
        sel
    } else {
        sel.push(id)
    }
}

/// Tops `sel` up with the members of `ids` it lacks, until it has `n` entries.
pub open spec fn fill(n: nat, ids: Seq<Seq<char>>, sel: Seq<Seq<char>>) -> Seq<Seq<char>>
    decreases ids.len(),
{
    if ids.len() == 0 {
        sel
    } else {
        fill_step(n, fill(n, ids.drop_last(), sel), ids.last())
    }
}

/// The members of `xs` that occur in `s`, in the order of `xs`.
pub open spec fn present_in(xs: Seq<Seq<char>>, s: Seq<Seq<char>>) -> Seq<Seq<char>>
    decreases xs.len(),
{
    if xs.len() == 0 {
        Seq::empty()
    } else if s.contains(xs.last()) {
        present_in(xs.drop_last(), s).push(xs.last())
    } else {
        present_in(xs.drop_last(), s)
    }
}

/// The members of `xs` that do not occur in `s`, in the order of `xs`.
pub open spec fn absent_from(xs: Seq<Seq<char>>, s: Seq<Seq<char>>) -> Seq<Seq<char>>
    decreases xs.len(),
{
    if xs.len() == 0 {
        Seq::empty()
    } else if s.contains(xs.last()) {
        absent_from(xs.drop_last(), s)
    } else {
        absent_from(xs.drop_last(), s).push(xs.last())
    }
}

/// The promoted portfolio: the preview walk, then the baseline top-up.
pub open spec fn portfolio_selected(
    base: Seq<Seq<char>>,
    ranking: Seq<Seq<char>>,
    cap: nat,
) -> Seq<Seq<char>> {
    fill(base.len(), base, preview_walk(base, ranking, cap).0)
}

/// The outsiders admitted by the preview walk.
pub open spec fn portfolio_rescued(
    base: Seq<Seq<char>>,
    ranking: Seq<Seq<char>>,
    cap: nat,
) -> Seq<Seq<char>> {
    preview_walk(base, ranking, cap).1
}

/// Every baseline member occurs in the preview ranking.
pub open spec fn ranking_covers(base: Seq<Seq<char>>, ranking: Seq<Seq<char>>) -> bool {
    forall|i: int| 0 <= i < base.len() ==> ranking.contains(#[trigger] base[i])
}

proof fn lemma_walk_grows(base: Seq<Seq<char>>, ranking: Seq<Seq<char>>, cap: nat)
    ensures
        preview_walk(base, ranking, cap).0.len() <= base.len(),
        preview_walk(base, ranking, cap).1.len() <= cap,
        forall|x: Seq<char>| #[trigger]
            preview_walk(base, ranking, cap).1.contains(x) ==> preview_walk(base, ranking, cap).0.contains(x)
                && !base.contains(x),
    decreases ranking.len(),
{
    if ranking.len() > 0 {
        lemma_walk_grows(base, ranking.drop_last(), cap);
        let prev = preview_walk(base, ranking.drop_last(), cap);
        let id = ranking.last();
        if prev.0.len() < base.len() && !base.contains(id) && prev.1.len() < cap {
            assert forall|x: Seq<char>| #[trigger]
                prev.1.push(id).contains(x) implies prev.0.push(id).contains(x) && !base.contains(
                x,
            ) by {
                if x != id {
                    let k = choose|k: int| 0 <= k < prev.1.push(id).len() && prev.1.push(id)[k] == x;
                    assert(prev.1[k] == x);
                    assert(prev.1.contains(x));
                    let m = choose|m: int| 0 <= m < prev.0.len() && prev.0[m] == x;
                    assert(prev.0.push(id)[m] == x);
                } else {
                    assert(prev.0.push(id)[prev.0.len() as int] == x);
                }
            }
        } else if prev.0.len() < base.len() && base.contains(id) {
            assert forall|x: Seq<char>| #[trigger] prev.1.contains(x) implies prev.0.push(
                id,
            ).contains(x) && !base.contains(x) by {
                let m = choose|m: int| 0 <= m < prev.0.len() && prev.0[m] == x;
                assert(prev.0.push(id)[m] == x);
            }
        }
    }
}

/// Once the portfolio is full, the remaining preview entries change nothing.
proof fn lemma_walk_saturated(base: Seq<Seq<char>>, ranking: Seq<Seq<char>>, cap: nat, i: int)
    requires
        0 <= i <= ranking.len(),
        preview_walk(base, ranking.take(i), cap).0.len() >= base.len(),
    ensures
        preview_walk(base, ranking, cap) == preview_walk(base, ranking.take(i), cap),
    decreases ranking.len() - i,
{
    if i < ranking.len() {
        let next = ranking.take(i + 1);
        assert(next.drop_last() =~= ranking.take(i));
        lemma_walk_saturated(base, ranking, cap, i + 1);
    } else {
        assert(ranking.take(i) =~= ranking);
    }
}

/// Once the portfolio is full, the remaining top-up entries change nothing.
proof fn lemma_fill_saturated(n: nat, ids: Seq<Seq<char>>, sel: Seq<Seq<char>>, j: int)
    requires
        0 <= j <= ids.len(),
        fill(n, ids.take(j), sel).len() >= n,
    ensures
        fill(n, ids, sel) == fill(n, ids.take(j), sel),
    decreases ids.len() - j,
{
    if j < ids.len() {
        assert(ids.take(j + 1).drop_last() =~= ids.take(j));
        lemma_fill_saturated(n, ids, sel, j + 1);
    } else {
        assert(ids.take(j) =~= ids);
    }
}

proof fn lemma_present_absent_len(xs: Seq<Seq<char>>, s: Seq<Seq<char>>)
    ensures
        present_in(xs, s).len() + absent_from(xs, s).len() == xs.len(),
    decreases xs.len(),
{
    if xs.len() > 0 {
        lemma_present_absent_len(xs.drop_last(), s);
    }
}

proof fn lemma_present_facts(xs: Seq<Seq<char>>, s: Seq<Seq<char>>)
    requires
        xs.no_duplicates(),
    ensures
        present_in(xs, s).no_duplicates(),
        forall|x: Seq<char>| #[trigger] present_in(xs, s).contains(x) ==> s.contains(x) && xs.contains(x),
    decreases xs.len(),
{
    if xs.len() > 0 {
        let rest = xs.drop_last();
        assert(rest.no_duplicates()) by {
            assert forall|a: int, b: int| 0 <= a < rest.len() && 0 <= b < rest.len() && a != b
                implies rest[a] != rest[b] by {
                assert(rest[a] == xs[a] && rest[b] == xs[b]);
            }
        }
        lemma_present_facts(rest, s);
        let p = present_in(rest, s);
        assert forall|x: Seq<char>| #[trigger] p.contains(x) implies xs.contains(x) by {
            let k = choose|k: int| 0 <= k < rest.len() && rest[k] == x;
            assert(xs[k] == x);
        }
        if s.contains(xs.last()) {
            assert(!p.contains(xs.last())) by {
                if p.contains(xs.last()) {
                    let k = choose|k: int| 0 <= k < rest.len() && rest[k] == xs.last();
                    assert(xs[k] == xs[xs.len() - 1]);
                }
            }
            assert forall|x: Seq<char>| #[trigger] p.push(xs.last()).contains(x) implies s.contains(x)
                && xs.contains(x) by {
                if x != xs.last() {
                    let k = choose|k: int| 0 <= k < p.push(xs.last()).len() && p.push(xs.last())[k]
                        == x;
                    assert(p[k] == x);
                    assert(p.contains(x));
                } else {
                    assert(xs[xs.len() - 1] == x);
                }
            }
            assert(p.push(xs.last()).no_duplicates()) by {
                let q = p.push(xs.last());
                assert forall|a: int, b: int| 0 <= a < q.len() && 0 <= b < q.len() && a != b
                    implies q[a] != q[b] by {
                    if a < p.len() && b < p.len() {
                        assert(q[a] == p[a] && q[b] == p[b]);
                    } else if a < p.len() {
                        assert(p.contains(q[a]));
                    } else {
                        assert(p.contains(q[b]));
                    }
                }
            }
        }
    }
}

/// A duplicate-free list has no more members inside `s` than `s` has entries.
proof fn lemma_present_len_bound(xs: Seq<Seq<char>>, s: Seq<Seq<char>>)
    requires
        xs.no_duplicates(),
    ensures
        present_in(xs, s).len() <= s.len(),
{
    let p = present_in(xs, s);
    lemma_present_facts(xs, s);
    p.unique_seq_to_set();
    s.lemma_cardinality_of_set();
    assert(p.to_set().subset_of(s.to_set()));
    vstd::seq_lib::seq_to_set_is_finite(s);
    vstd::set_lib::lemma_len_subset(p.to_set(), s.to_set());
}

/// Before it is full, the top-up holds `sel` followed by the members of the
/// visited prefix of a duplicate-free baseline that `sel` lacks.
proof fn lemma_fill_shape(n: nat, ids: Seq<Seq<char>>, sel: Seq<Seq<char>>)
    requires
        ids.no_duplicates(),
    ensures
        fill(n, ids, sel).len() >= n || fill(n, ids, sel) == sel + absent_from(ids, sel),
        fill(n, ids, sel).len() >= sel.len(),
    decreases ids.len(),
{
    if ids.len() > 0 {
        let rest = ids.drop_last();
        assert(rest.no_duplicates()) by {
            assert forall|a: int, b: int| 0 <= a < rest.len() && 0 <= b < rest.len() && a != b
                implies rest[a] != rest[b] by {
                assert(rest[a] == ids[a] && rest[b] == ids[b]);
            }
        }
        lemma_fill_shape(n, rest, sel);
        let prev = fill(n, rest, sel);
        let id = ids.last();
        if prev.len() < n {
            let a = absent_from(rest, sel);
            assert(prev == sel + a);
            lemma_absent_members(rest, sel);
            assert(!rest.contains(id)) by {
                if rest.contains(id) {
                    let k = choose|k: int| 0 <= k < rest.len() && rest[k] == id;
                    assert(ids[k] == ids[ids.len() - 1]);
                }
            }
            assert((sel + a).contains(id) == sel.contains(id)) by {
                if (sel + a).contains(id) {
                    let k = choose|k: int| 0 <= k < (sel + a).len() && (sel + a)[k] == id;
                    if k >= sel.len() {
                        assert(a[k - sel.len()] == id);
                        assert(a.contains(id));
                    } else {
                        assert(sel[k] == id);
                    }
                }
                if sel.contains(id) {
                    let k = choose|k: int| 0 <= k < sel.len() && sel[k] == id;
                    assert((sel + a)[k] == id);
                }
            }
            if !sel.contains(id) {
                assert((sel + a).push(id) =~= sel + a.push(id));
            }
        }
    }
}

proof fn lemma_absent_members(xs: Seq<Seq<char>>, s: Seq<Seq<char>>)
    ensures
        forall|x: Seq<char>| #[trigger] absent_from(xs, s).contains(x) ==> xs.contains(x),
    decreases xs.len(),
{
    if xs.len() > 0 {
        let rest = xs.drop_last();
        lemma_absent_members(rest, s);
        let a = absent_from(rest, s);
        assert forall|x: Seq<char>| #[trigger] absent_from(xs, s).contains(x) implies xs.contains(
            x,
        ) by {
            if a.contains(x) {
                let k = choose|k: int| 0 <= k < rest.len() && rest[k] == x;
                assert(xs[k] == x);
            } else {
                assert(xs[xs.len() - 1] == x);
            }
        }
    }
}

/// The promoted portfolio always has exactly as many entries as the
/// duplicate-free baseline portfolio: promotion never changes the Top-K size.
pub proof fn lemma_portfolio_keeps_size(
    base: Seq<Seq<char>>,
    ranking: Seq<Seq<char>>,
    cap: nat,
)
    requires
        base.no_duplicates(),
    ensures
        portfolio_selected(base, ranking, cap).len() == base.len(),
{
    let s = preview_walk(base, ranking, cap).0;
    lemma_walk_grows(base, ranking, cap);
    lemma_fill_shape(base.len(), base, s);
    lemma_fill_bounded(base.len(), base, s);
    if fill(base.len(), base, s).len() < base.len() {
        lemma_present_absent_len(base, s);
        lemma_present_len_bound(base, s);
    }
}

proof fn lemma_fill_bounded(n: nat, ids: Seq<Seq<char>>, sel: Seq<Seq<char>>)
    requires
        sel.len() <= n,
    ensures
        fill(n, ids, sel).len() <= n,
    decreases ids.len(),
{
    if ids.len() > 0 {
        lemma_fill_bounded(n, ids.drop_last(), sel);
    }
}

/// At most `cap` outsiders are rescued, each of them is in the promoted
/// portfolio, and none of them belongs to the baseline.
pub proof fn lemma_rescues_are_capped_outsiders(
    base: Seq<Seq<char>>,
    ranking: Seq<Seq<char>>,
    cap: nat,
)
    ensures
        portfolio_rescued(base, ranking, cap).len() <= cap,
        forall|x: Seq<char>| #[trigger]
            portfolio_rescued(base, ranking, cap).contains(x) ==> !base.contains(x)
                && portfolio_selected(base, ranking, cap).contains(x),
{
    lemma_walk_grows(base, ranking, cap);
    let s = preview_walk(base, ranking, cap).0;
    lemma_fill_prefix(base.len(), base, s);
    assert forall|x: Seq<char>| #[trigger]
        portfolio_rescued(base, ranking, cap).contains(x) implies portfolio_selected(
        base,
        ranking,
        cap,
    ).contains(x) by {
        let k = choose|k: int| 0 <= k < s.len() && s[k] == x;
        assert(portfolio_selected(base, ranking, cap)[k] == x);
    }
}

proof fn lemma_fill_prefix(n: nat, ids: Seq<Seq<char>>, sel: Seq<Seq<char>>)
    ensures
        fill(n, ids, sel).len() >= sel.len(),
        forall|k: int| 0 <= k < sel.len() ==> #[trigger] fill(n, ids, sel)[k] == sel[k],
    decreases ids.len(),
{
    if ids.len() > 0 {
        lemma_fill_prefix(n, ids.drop_last(), sel);
    }
}

/// The retained and displaced baseline members split the baseline: every
/// baseline member is in exactly one of them, in baseline order.
pub proof fn lemma_retained_and_displaced_split_baseline(
    base: Seq<Seq<char>>,
    selected: Seq<Seq<char>>,
)
    ensures
        present_in(base, selected).len() + absent_from(base, selected).len() == base.len(),
        forall|x: Seq<char>| #[trigger]
            base.contains(x) ==> (present_in(base, selected).contains(x) <==> selected.contains(x))
                && (absent_from(base, selected).contains(x) <==> !selected.contains(x)),
    decreases base.len(),
{
    lemma_present_absent_len(base, selected);
    if base.len() > 0 {
        let rest = base.drop_last();
        lemma_retained_and_displaced_split_baseline(rest, selected);
        lemma_absent_members(rest, selected);
        lemma_present_members(rest, selected);
        assert forall|x: Seq<char>| #[trigger] base.contains(x) implies (present_in(
            base,
            selected,
        ).contains(x) <==> selected.contains(x)) && (absent_from(base, selected).contains(x)
            <==> !selected.contains(x)) by {
            let p = present_in(rest, selected);
            let a = absent_from(rest, selected);
            if x == base.last() {
                if selected.contains(x) {
                    assert(present_in(base, selected)[p.len() as int] == x);
                    assert(!a.contains(x));
                } else {
                    assert(absent_from(base, selected)[a.len() as int] == x);
                    assert(!p.contains(x));
                }
            } else {
                let k = choose|k: int| 0 <= k < base.len() && base[k] == x;
                assert(rest[k] == x);
                assert(rest.contains(x));
                if p.contains(x) {
                    let m = choose|m: int| 0 <= m < p.len() && p[m] == x;
                    assert(present_in(base, selected)[m] == x);
                }
                if a.contains(x) {
                    let m = choose|m: int| 0 <= m < a.len() && a[m] == x;
                    assert(absent_from(base, selected)[m] == x);
                }
            }
        }
    }
}

proof fn lemma_present_members(xs: Seq<Seq<char>>, s: Seq<Seq<char>>)
    ensures
        forall|x: Seq<char>| #[trigger] present_in(xs, s).contains(x) ==> xs.contains(x) && s.contains(x),
    decreases xs.len(),
{
    if xs.len() > 0 {
        let rest = xs.drop_last();
        lemma_present_members(rest, s);
        let p = present_in(rest, s);
        assert forall|x: Seq<char>| #[trigger] present_in(xs, s).contains(x) implies xs.contains(x)
            && s.contains(x) by {
            if p.contains(x) {
                let k = choose|k: int| 0 <= k < rest.len() && rest[k] == x;
                assert(xs[k] == x);
            } else {
                assert(xs[xs.len() - 1] == x);
            }
        }
    }
}

proof fn lemma_walk_members(base: Seq<Seq<char>>, ranking: Seq<Seq<char>>, cap: nat)
    requires
        ranking.no_duplicates(),
    ensures
        preview_walk(base, ranking, cap).0.no_duplicates(),
        forall|x: Seq<char>| #[trigger]
            preview_walk(base, ranking, cap).0.contains(x) ==> ranking.contains(x) && (base.contains(x)
                || preview_walk(base, ranking, cap).1.contains(x)),
    decreases ranking.len(),
{
    if ranking.len() > 0 {
        let rest = ranking.drop_last();
        assert(rest.no_duplicates()) by {
            assert forall|a: int, b: int| 0 <= a < rest.len() && 0 <= b < rest.len() && a != b
                implies rest[a] != rest[b] by {
                assert(rest[a] == ranking[a] && rest[b] == ranking[b]);
            }
        }
        lemma_walk_members(base, rest, cap);
        let prev = preview_walk(base, rest, cap);
        let id = ranking.last();
        assert(!rest.contains(id)) by {
            if rest.contains(id) {
                let k = choose|k: int| 0 <= k < rest.len() && rest[k] == id;
                assert(ranking[k] == ranking[ranking.len() - 1]);
            }
        }
        assert(!prev.0.contains(id));
        assert forall|x: Seq<char>| #[trigger] rest.contains(x) implies ranking.contains(x) by {
            let k = choose|k: int| 0 <= k < rest.len() && rest[k] == x;
            assert(ranking[k] == x);
        }
        let now = preview_walk(base, ranking, cap);
        if now.0 != prev.0 {
            assert(now.0 == prev.0.push(id));
            assert(now.0.no_duplicates()) by {
                assert forall|a: int, b: int| 0 <= a < now.0.len() && 0 <= b < now.0.len() && a != b
                    implies now.0[a] != now.0[b] by {
                    if a < prev.0.len() && b < prev.0.len() {
                        assert(now.0[a] == prev.0[a] && now.0[b] == prev.0[b]);
                    } else if a < prev.0.len() {
                        assert(prev.0.contains(now.0[a]));
                    } else {
                        assert(prev.0.contains(now.0[b]));
                    }
                }
            }
            assert forall|x: Seq<char>| #[trigger] now.0.contains(x) implies ranking.contains(x) && (
            base.contains(x) || now.1.contains(x)) by {
                if x == id {
                    assert(ranking[ranking.len() - 1] == x);
                    if !base.contains(x) {
                        assert(now.1 == prev.1.push(id));
                        assert(now.1[prev.1.len() as int] == x);
                    }
                } else {
                    let k = choose|k: int| 0 <= k < now.0.len() && now.0[k] == x;
                    assert(prev.0[k] == x);
                    assert(prev.0.contains(x));
                    if prev.1.contains(x) {
                        let m = choose|m: int| 0 <= m < prev.1.len() && prev.1[m] == x;
                        if now.1 != prev.1 {
                            assert(now.1[m] == x);
                        }
                    }
                }
            }
        }
        assert forall|x: Seq<char>| #[trigger] prev.1.contains(x) implies now.1.contains(x) by {
            let m = choose|m: int| 0 <= m < prev.1.len() && prev.1[m] == x;
            if now.1 != prev.1 {
                assert(now.1[m] == x);
            }
        }
    }
}

proof fn lemma_fill_members(n: nat, ids: Seq<Seq<char>>, sel: Seq<Seq<char>>)
    requires
        sel.no_duplicates(),
    ensures
        fill(n, ids, sel).no_duplicates(),
        forall|x: Seq<char>| #[trigger] fill(n, ids, sel).contains(x) ==> sel.contains(x) || ids.contains(x),
    decreases ids.len(),
{
    if ids.len() > 0 {
        let rest = ids.drop_last();
        lemma_fill_members(n, rest, sel);
        let prev = fill(n, rest, sel);
        let id = ids.last();
        assert forall|x: Seq<char>| #[trigger] rest.contains(x) implies ids.contains(x) by {
            let k = choose|k: int| 0 <= k < rest.len() && rest[k] == x;
            assert(ids[k] == x);
        }
        if !(prev.len() >= n || prev.contains(id)) {
            let now = prev.push(id);
            assert(now.no_duplicates()) by {
                assert forall|a: int, b: int| 0 <= a < now.len() && 0 <= b < now.len() && a != b
                    implies now[a] != now[b] by {
                    if a < prev.len() && b < prev.len() {
                        assert(now[a] == prev[a] && now[b] == prev[b]);
                    } else if a < prev.len() {
                        assert(prev.contains(now[a]));
                    } else {
                        assert(prev.contains(now[b]));
                    }
                }
            }
            assert forall|x: Seq<char>| #[trigger] now.contains(x) implies sel.contains(x) || ids.contains(x) by {
                if x == id {
                    assert(ids[ids.len() - 1] == x);
                } else {
                    let k = choose|k: int| 0 <= k < now.len() && now[k] == x;
                    assert(prev[k] == x);
                    assert(prev.contains(x));
                }
            }
        }
    }
}

/// When no outsider is rescued (in particular when no outside candidate
/// reaches the preview Top-K, or rescues are capped at zero), the promoted
/// portfolio holds exactly the baseline set.
pub proof fn lemma_no_rescue_keeps_baseline_set(
    base: Seq<Seq<char>>,
    ranking: Seq<Seq<char>>,
    cap: nat,
)
    requires
        base.no_duplicates(),
        ranking.no_duplicates(),
        portfolio_rescued(base, ranking, cap).len() == 0,
    ensures
        portfolio_selected(base, ranking, cap).to_set() == base.to_set(),
        portfolio_selected(base, ranking, cap).no_duplicates(),
{
    let walk = preview_walk(base, ranking, cap);
    lemma_walk_members(base, ranking, cap);
    lemma_fill_members(base.len(), base, walk.0);
    lemma_portfolio_keeps_size(base, ranking, cap);
    let sel = portfolio_selected(base, ranking, cap);
    assert forall|x: Seq<char>| #[trigger] sel.contains(x) implies base.contains(x) by {
        if walk.0.contains(x) {
            if walk.1.contains(x) {
                let k = choose|k: int| 0 <= k < walk.1.len() && walk.1[k] == x;
            }
        }
    }
    assert(sel.to_set().subset_of(base.to_set()));
    sel.unique_seq_to_set();
    base.unique_seq_to_set();
    vstd::seq_lib::seq_to_set_is_finite(sel);
    vstd::seq_lib::seq_to_set_is_finite(base);
    vstd::set_lib::lemma_subset_equality(sel.to_set(), base.to_set());
}

proof fn lemma_rescued_distinct(base: Seq<Seq<char>>, ranking: Seq<Seq<char>>, cap: nat)
    requires
        ranking.no_duplicates(),
    ensures
        portfolio_rescued(base, ranking, cap).no_duplicates(),
    decreases ranking.len(),
{
    if ranking.len() > 0 {
        let rest = ranking.drop_last();
        assert(rest.no_duplicates()) by {
            assert forall|a: int, b: int| 0 <= a < rest.len() && 0 <= b < rest.len() && a != b
                implies rest[a] != rest[b] by {
                assert(rest[a] == ranking[a] && rest[b] == ranking[b]);
            }
        }
        lemma_rescued_distinct(base, rest, cap);
        lemma_walk_grows(base, rest, cap);
        lemma_walk_members(base, rest, cap);
        let prev = preview_walk(base, rest, cap);
        let now = preview_walk(base, ranking, cap);
        let id = ranking.last();
        assert(!rest.contains(id)) by {
            if rest.contains(id) {
                let k = choose|k: int| 0 <= k < rest.len() && rest[k] == id;
                assert(ranking[k] == ranking[ranking.len() - 1]);
            }
        }
        assert(!prev.1.contains(id));
        if now.1 != prev.1 {
            assert(now.1 == prev.1.push(id));
            assert forall|a: int, b: int| 0 <= a < now.1.len() && 0 <= b < now.1.len() && a != b
                implies now.1[a] != now.1[b] by {
                if a < prev.1.len() && b < prev.1.len() {
                    assert(now.1[a] == prev.1[a] && now.1[b] == prev.1[b]);
                } else if a < prev.1.len() {
                    assert(prev.1.contains(now.1[a]));
                } else {
                    assert(prev.1.contains(now.1[b]));
                }
            }
        }
    }
}

/// Every rescued outsider displaces exactly one baseline member: the
/// promoted portfolio drops as many baseline members as it rescues
/// outsiders.
pub proof fn lemma_displaced_count_equals_rescued_count(
    base: Seq<Seq<char>>,
    ranking: Seq<Seq<char>>,
    cap: nat,
)
    requires
        base.no_duplicates(),
        ranking.no_duplicates(),
    ensures
        absent_from(base, portfolio_selected(base, ranking, cap)).len() == portfolio_rescued(
            base,
            ranking,
            cap,
        ).len(),
{
    let walk = preview_walk(base, ranking, cap);
    let sel = portfolio_selected(base, ranking, cap);
    let res = walk.1;
    lemma_walk_members(base, ranking, cap);
    lemma_walk_grows(base, ranking, cap);
    lemma_fill_members(base.len(), base, walk.0);
    lemma_portfolio_keeps_size(base, ranking, cap);
    lemma_rescues_are_capped_outsiders(base, ranking, cap);
    lemma_rescued_distinct(base, ranking, cap);
    lemma_present_facts(base, sel);
    lemma_present_absent_len(base, sel);
    lemma_retained_and_displaced_split_baseline(base, sel);
    let pres = present_in(base, sel);
    let a = pres.to_set();
    let r = res.to_set();
    assert(a.disjoint(r)) by {
        assert forall|x: Seq<char>| a.contains(x) implies !r.contains(x) by {
            assert(pres.contains(x));
            assert(base.contains(x));
        }
    }
    assert(sel.to_set() =~= a.union(r)) by {
        assert forall|x: Seq<char>| sel.to_set().contains(x) implies a.union(r).contains(x) by {
            assert(sel.contains(x));
            if base.contains(x) {
                assert(pres.contains(x));
            } else {
                assert(walk.0.contains(x));
                assert(res.contains(x));
            }
        }
        assert forall|x: Seq<char>| a.union(r).contains(x) implies sel.to_set().contains(x) by {
            if a.contains(x) {
                assert(pres.contains(x));
            } else {
                assert(res.contains(x));
            }
        }
    }
    sel.unique_seq_to_set();
    pres.unique_seq_to_set();
    res.unique_seq_to_set();
    vstd::seq_lib::seq_to_set_is_finite(pres);
    vstd::seq_lib::seq_to_set_is_finite(res);
    vstd::set_lib::lemma_set_disjoint_lens(a, r);
}

fn has_duplicates(v: &[String]) -> (r: bool)
    ensures
        r == !v.deep_view().no_duplicates(),
{
    let ghost d = v.deep_view();
    let mut i: usize = 0;
    while i < v.len()
        invariant
            0 <= i <= v.len(),
            d == v.deep_view(),
            forall|a: int, b: int| 0 <= a < i && 0 <= b < v.len() && a != b ==> d[a] != d[b],
        decreases v.len() - i,
    {
        let mut j: usize = 0;
        while j < v.len()
            invariant
                0 <= i < v.len(),
                0 <= j <= v.len(),
                d == v.deep_view(),
                forall|a: int, b: int| 0 <= a < i && 0 <= b < v.len() && a != b ==> d[a] != d[b],
                forall|b: int| 0 <= b < j && i != b ==> d[i as int] != d[b],
            decreases v.len() - j,
        {
            if i != j && v[i] == v[j] {
                assert(d[i as int] == d[j as int]);
                return true;
            }
            j = j + 1;
        }
        i = i + 1;
    }
    false
}

/// Takes the best post-preview candidates while limiting how many candidates
/// may displace members of the original portfolio.  If no outside candidate
/// reaches the preview Top-K, the original set is retained.
pub fn choose_potential_portfolio(
    baseline: &[String],
    preview_ranking: &[String],
    rescued_candidate_cap: usize,
) -> (r: Result<PotentialPromotionDecision, String>)
    ensures
        ({
            let base = baseline.deep_view();
            let ranking = preview_ranking.deep_view();
            let cap = rescued_candidate_cap as nat;
            &&& base.len() == 0 ==> (r matches Err(e) && e@
                == "V8-potential baseline portfolio is empty"@)
            &&& (base.len() > 0 && !base.no_duplicates()) ==> (r matches Err(e) && e@
                == "V8-potential baseline portfolio contains duplicates"@)
            &&& (base.len() > 0 && base.no_duplicates() && !ranking_covers(base, ranking)) ==> (r matches Err(e) && e@
                == "V8-potential preview omitted a baseline candidate"@)
            &&& (base.len() > 0 && base.no_duplicates() && ranking_covers(base, ranking)) ==> (r matches Ok(d) && {
                &&& d.selected.deep_view() == portfolio_selected(base, ranking, cap)
                &&& d.rescued.deep_view() == portfolio_rescued(base, ranking, cap)
                &&& d.retained_baseline.deep_view() == present_in(base, d.selected.deep_view())
                &&& d.displaced_baseline.deep_view() == absent_from(base, d.selected.deep_view())
                &&& d.selected.len() == baseline.len()
            })
        }),
{
    let ghost base = baseline.deep_view();
    let ghost ranking = preview_ranking.deep_view();
    let ghost cap = rescued_candidate_cap as nat;
    let n = baseline.len();
    if n == 0 {
        return Err("V8-potential baseline portfolio is empty".to_owned());
    }
    if has_duplicates(baseline) {
        return Err("V8-potential baseline portfolio contains duplicates".to_owned());
    }
    let mut k: usize = 0;
    while k < n
        invariant
            0 <= k <= n,
            n == baseline.len(),
            base == baseline.deep_view(),
            ranking == preview_ranking.deep_view(),
            n > 0,
            base.no_duplicates(),
            forall|i: int| 0 <= i < k ==> ranking.contains(#[trigger] base[i]),
        decreases n - k,
    {
        if !contains_string(preview_ranking, &baseline[k]) {
            assert(base[k as int] == baseline[k as int]@);
            assert(!ranking.contains(base[k as int]));
            return Err("V8-potential preview omitted a baseline candidate".to_owned());
        }
        k = k + 1;
    }
    let mut selected: Vec<String> = Vec::new();
    let mut rescued: Vec<String> = Vec::new();
    let mut i: usize = 0;
    assert(ranking.take(0) =~= Seq::<Seq<char>>::empty());
    while i < preview_ranking.len() && selected.len() < n
        invariant
            0 <= i <= preview_ranking.len(),
            n == baseline.len(),
            base == baseline.deep_view(),
            ranking == preview_ranking.deep_view(),
            cap == rescued_candidate_cap as nat,
            (selected.deep_view(), rescued.deep_view()) == preview_walk(base, ranking.take(i as int), cap),
        decreases preview_ranking.len() - i,
    {
        let ghost prev_sel = selected.deep_view();
        let ghost prev_res = rescued.deep_view();
        assert(ranking.take(i + 1).drop_last() =~= ranking.take(i as int));
        assert(ranking.take(i + 1).last() == preview_ranking[i as int]@);
        let id = &preview_ranking[i];
        if contains_string(baseline, id) {
            selected.push(copy_string(id));
            assert(selected.deep_view() =~= prev_sel.push(id@));
        } else if rescued.len() < rescued_candidate_cap {
            selected.push(copy_string(id));
            rescued.push(copy_string(id));
            assert(selected.deep_view() =~= prev_sel.push(id@));
            assert(rescued.deep_view() =~= prev_res.push(id@));
        }
        i = i + 1;
    }
    proof {
        if i < preview_ranking.len() {
            lemma_walk_saturated(base, ranking, cap, i as int);
        } else {
            assert(ranking.take(i as int) =~= ranking);
        }
    }
    let ghost admitted = selected.deep_view();
    let mut j: usize = 0;
    assert(base.take(0) =~= Seq::<Seq<char>>::empty());
    while j < n && selected.len() < n
        invariant
            0 <= j <= n,
            n == baseline.len(),
            base == baseline.deep_view(),
            selected.deep_view() == fill(n as nat, base.take(j as int), admitted),
        decreases n - j,
    {
        let ghost prev_sel = selected.deep_view();
        assert(base.take(j + 1).drop_last() =~= base.take(j as int));
        assert(base.take(j + 1).last() == baseline[j as int]@);
        let id = &baseline[j];
        if !contains_string(&selected, id) {
            selected.push(copy_string(id));
            assert(selected.deep_view() =~= prev_sel.push(id@));
        }
        j = j + 1;
    }
    proof {
        if j < n {
            lemma_fill_saturated(n as nat, base, admitted, j as int);
        } else {
            assert(base.take(j as int) =~= base);
        }
        lemma_portfolio_keeps_size(base, ranking, cap);
    }
    let ghost sel = selected.deep_view();
    let mut retained_baseline: Vec<String> = Vec::new();
    let mut displaced_baseline: Vec<String> = Vec::new();
    let mut m: usize = 0;
    while m < n
        invariant
            0 <= m <= n,
            n == baseline.len(),
            base == baseline.deep_view(),
            sel == selected.deep_view(),
            retained_baseline.deep_view() == present_in(base.take(m as int), sel),
            displaced_baseline.deep_view() == absent_from(base.take(m as int), sel),
        decreases n - m,
    {
        let ghost prev_ret = retained_baseline.deep_view();
        let ghost prev_dis = displaced_baseline.deep_view();
        assert(base.take(m + 1).drop_last() =~= base.take(m as int));
        assert(base.take(m + 1).last() == baseline[m as int]@);
        let id = &baseline[m];
        if contains_string(&selected, id) {
            retained_baseline.push(copy_string(id));
            assert(retained_baseline.deep_view() =~= prev_ret.push(id@));
        } else {
            displaced_baseline.push(copy_string(id));
            assert(displaced_baseline.deep_view() =~= prev_dis.push(id@));
        }
        m = m + 1;
    }
    assert(base.take(n as int) =~= base);
    Ok(PotentialPromotionDecision { selected, retained_baseline, rescued, displaced_baseline })
}

} // verus!
