//! The e-graph extractors' entry points and the deterministic pieces of the
//! timing-guided Pareto beam search: its configuration, its random stream
//! and the canonical text of an extraction's choices.
use vstd::prelude::*;

use crate::text::{
    chars_of, joined, lemma_sorted_texts_unique, sort_texts, join_texts, string_of, texts_sorted,
    texts_view,
};

verus! {

/// Bottom-up extraction: each class takes the cheapest node whose children
/// are already costed.
pub struct BottomUpExtractor;

/// Greedy DAG extraction in which a shared class is costed once.
pub struct GreedyDagExtractor;

/// Greedy DAG extraction with shared costs and short-circuit pruning; it
/// holds no state.
pub struct FasterGreedyDagExtractor;

impl FasterGreedyDagExtractor {
    /// The (stateless) extractor.
    pub fn new() -> (r: Self) {
        FasterGreedyDagExtractor
    }
}

/// The search parameters of the timing-guided Pareto beam.
#[derive(Clone, Debug)]
pub struct TimingParetoBeamConfig {
    pub seed: u64,
    pub exact_eval_budget: usize,
    pub beam_size: usize,
    pub moves_per_solution: usize,
}

impl Default for TimingParetoBeamConfig {
    /// Seed 0, a thousand exact evaluations, a beam of 16 and 8 moves per
    /// solution.
    fn default() -> (r: Self)
        ensures
            r.seed == 0,
            r.exact_eval_budget == 1000,
            r.beam_size == 16,
            r.moves_per_solution == 8,
    {
        TimingParetoBeamConfig { seed: 0, exact_eval_budget: 1000, beam_size: 16, moves_per_solution: 8 }
    }
}

/// The timing-guided Pareto beam extractor.
pub struct TimingParetoBeamExtractor {
    pub config: TimingParetoBeamConfig,
}

impl Default for TimingParetoBeamExtractor {
    /// The extractor with the default configuration.
    fn default() -> (r: Self)
        ensures
            r.config.seed == 0,
            r.config.exact_eval_budget == 1000,
            r.config.beam_size == 16,
            r.config.moves_per_solution == 8,
    {
        TimingParetoBeamExtractor { config: TimingParetoBeamConfig::default() }
    }
}

/// The multiplier of the search's linear congruential generator.
pub open spec fn lcg_multiplier() -> nat {
    6364136223846793005
}

/// The increment of the search's linear congruential generator.
pub open spec fn lcg_increment() -> nat {
    1442695040888963407
}

/// The generator's next state: `state * a + c` modulo 2^64.
pub open spec fn lcg_next(state: u64) -> u64 {
    let m = (state as nat * lcg_multiplier()) % 0x1_0000_0000_0000_0000nat;
    ((m + lcg_increment()) % 0x1_0000_0000_0000_0000nat) as u64
}

/// The value that a draw below `n` yields in state `state`: the high half of
/// the state modulo `n` (modulo 1 when `n` is 0).
pub open spec fn lcg_draw(state: u64, n: usize) -> nat {
    let bound: nat = if n == 0 {
        1
    } else {
        n as nat
    };
    (state as nat / 0x1_0000_0000nat) % bound
}

/// The beam search's deterministic random stream.
pub struct Rng(pub u64);

impl Rng {
    /// A stream that starts from `seed`.
    pub fn new(seed: u64) -> (r: Self)
        ensures
            r.0 == seed,
    {
        Rng(seed)
    }

    /// Advances the stream and draws an index below `n` (0 when `n` is 0).
    pub fn pick(&mut self, n: usize) -> (r: usize)
        ensures
            final(self).0 == lcg_next(old(self).0),
            r == lcg_draw(final(self).0, n),
    {
        let m = self.0.wrapping_mul(6364136223846793005);
        let next = m.wrapping_add(1442695040888963407);
        proof {
            let mm = (old(self).0 as nat * lcg_multiplier()) % 0x1_0000_0000_0000_0000nat;
            assert(m == mm);
            assert(next as nat == (mm + lcg_increment()) % 0x1_0000_0000_0000_0000nat);
        }
        self.0 = next;
        let high = (next >> 32u64) as usize;
        assert(next >> 32u64 == next / 0x1_0000_0000u64) by (bit_vector);
        let bound = if n == 0 {
            1
        } else {
            n
        };
        high % bound
    }
}

/// The text `class=node` of one choice.
pub open spec fn choice_text(choice: (Seq<char>, Seq<char>)) -> Seq<char> {
    choice.0.push('=') + choice.1
}

/// The canonical text of an extraction's choices, as (class, node) pairs:
/// the texts `class=node` in lexicographic order, joined by `;`.
pub open spec fn is_choice_hash(choices: Seq<(Seq<char>, Seq<char>)>, h: Seq<char>) -> bool {
    exists|order: Seq<Seq<char>>|
        #![trigger joined(order, ';')]
        texts_sorted(order) && order.to_multiset() == choices.map_values(
            |c: (Seq<char>, Seq<char>)| choice_text(c),
        ).to_multiset() && h == joined(order, ';')
}

/// The hash does not depend on the order in which choices were made: two
/// choice lists with the same `class=node` texts, counted with multiplicity,
/// have the same hash.
pub proof fn lemma_hash_ignores_choice_order(
    c1: Seq<(Seq<char>, Seq<char>)>,
    c2: Seq<(Seq<char>, Seq<char>)>,
    h1: Seq<char>,
    h2: Seq<char>,
)
    requires
        is_choice_hash(c1, h1),
        is_choice_hash(c2, h2),
        c1.map_values(|c: (Seq<char>, Seq<char>)| choice_text(c)).to_multiset() == c2.map_values(
            |c: (Seq<char>, Seq<char>)| choice_text(c),
        ).to_multiset(),
    ensures
        h1 == h2,
{
    let o1 = choose|order: Seq<Seq<char>>|
        #![trigger joined(order, ';')]
        texts_sorted(order) && order.to_multiset() == c1.map_values(
            |c: (Seq<char>, Seq<char>)| choice_text(c),
        ).to_multiset() && h1 == joined(order, ';');
    let o2 = choose|order: Seq<Seq<char>>|
        #![trigger joined(order, ';')]
        texts_sorted(order) && order.to_multiset() == c2.map_values(
            |c: (Seq<char>, Seq<char>)| choice_text(c),
        ).to_multiset() && h2 == joined(order, ';');
    lemma_sorted_texts_unique(o1, o2);
}

/// The canonical text of an extraction's choices, which identifies it among
/// the beam's candidates whatever order the choices were made in.
pub fn hash(choices: &Vec<(String, String)>) -> (r: String)
    ensures
        is_choice_hash(
            choices@.map_values(|c: (String, String)| (c.0@, c.1@)),
            r@,
        ),
{
    let ghost pairs = choices@.map_values(|c: (String, String)| (c.0@, c.1@));
    let ghost texts = pairs.map_values(|c: (Seq<char>, Seq<char>)| choice_text(c));
    let mut entries: Vec<Vec<char>> = Vec::new();
    let mut i: usize = 0;
    while i < choices.len()
        invariant
            0 <= i <= choices@.len(),
            pairs == choices@.map_values(|c: (String, String)| (c.0@, c.1@)),
            texts == pairs.map_values(|c: (Seq<char>, Seq<char>)| choice_text(c)),
            texts_view(entries@) == texts.take(i as int),
        decreases choices.len() - i,
    {
        let mut entry = chars_of(choices[i].0.as_str());
        entry.push('=');
        let node = chars_of(choices[i].1.as_str());
        let mut k: usize = 0;
        let ghost head = entry@;
        while k < node.len()
            invariant
                0 <= k <= node@.len(),
                entry@ == head + node@.take(k as int),
            decreases node.len() - k,
        {
            entry.push(node[k]);
            assert(node@.take(k + 1) =~= node@.take(k as int).push(node@[k as int]));
            k = k + 1;
        }
        assert(node@.take(k as int) =~= node@);
        assert(pairs[i as int] == (choices@[i as int].0@, choices@[i as int].1@));
        assert(texts[i as int] == choice_text(pairs[i as int]));
        assert(entry@ == texts[i as int]);
        let ghost old_view = texts_view(entries@);
        let ghost e = entry@;
        entries.push(entry);
        assert(texts_view(entries@) =~= old_view.push(e));
        assert(texts.take(i + 1) =~= texts.take(i as int).push(texts[i as int]));
        i = i + 1;
    }
    assert(texts.take(i as int) =~= texts);
    let sorted = sort_texts(entries);
    let out = join_texts(&sorted, ';');
    assert(is_choice_hash(pairs, out@)) by {
        let order = texts_view(sorted@);
        assert(out@ == joined(order, ';'));
        assert(texts_sorted(order));
        assert(order.to_multiset() == texts.to_multiset());
        assert(texts =~= pairs.map_values(|c: (Seq<char>, Seq<char>)| choice_text(c)));
    }
    string_of(out.as_slice())
}

} // verus!
