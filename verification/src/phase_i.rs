//! Phase-I helpers: the reading of physical class names, the bounded
//! macro variants of a rewrite cone, and the composition of macro fragments
//! into complete region assignments.
use vstd::prelude::*;
use vstd::multiset::Multiset;

use crate::text::{
    after_prefix, chars_of, int_fault_text, int_parse, join_texts, joined, parse_usize_checked,
    same_string, string_of, strip_prefix_text, texts_view,
};

verus! {

/// The anchor of a class named `physical.<n>`, or why there is none: a
/// name without the prefix, or the integer error of the rest.
pub open spec fn class_anchor(class: Seq<char>) -> Result<usize, Seq<char>> {
    match after_prefix(class, "physical."@) {
        Some(rest) => match int_parse(rest, usize::MAX as nat) {
            Ok(n) => Ok(n as usize),
            Err(f) => Err(int_fault_text(f)),
        },
        None => Err("bad physical class"@),
    }
}

/// The physical anchor of an e-class given by its name.
pub fn physical_anchor(class: &str) -> (r: Result<usize, String>)
    ensures
        match class_anchor(class@) {
            Ok(n) => r == Ok::<usize, String>(n),
            Err(m) => r matches Err(e) && e@ == m,
        },
{
    match strip_prefix_text(class, "physical.") {
        Some(rest) => match parse_usize_checked(rest.as_str()) {
            Ok(n) => Ok(n),
            Err(f) => Err(f.message()),
        },
        None => Err("bad physical class".to_string()),
    }
}

/// The choice of one e-node for one e-class.
#[derive(Debug)]
pub struct RegionChoice {
    pub eclass_id: String,
    pub enode_id: String,
}

/// A complete choice for a region, with the number of e-classes that
/// leave their incumbent.
#[derive(Debug)]
pub struct RegionAssignment {
    pub choices: Vec<RegionChoice>,
    pub changed_eclasses: usize,
}

/// An e-node of a region class: the incumbent or a rewrite alternative,
/// with the occurrences it references.
#[derive(Debug)]
pub struct RegionEnode {
    pub enode_id: String,
    pub incumbent: bool,
    pub boundary_anchors: Vec<usize>,
}

/// The e-class of one physical occurrence, with its e-nodes.
#[derive(Debug)]
pub struct RegionClass {
    pub anchor: usize,
    pub eclass_id: String,
    pub incumbent_enode: String,
    pub enodes: Vec<RegionEnode>,
}

/// The choice space of a region: one class per occurrence.
#[derive(Debug)]
pub struct RegionSpace {
    pub classes: Vec<RegionClass>,
}

/// The value of a choice: e-class and e-node names.
pub open spec fn choice_view(c: RegionChoice) -> (Seq<char>, Seq<char>) {
    (c.eclass_id@, c.enode_id@)
}

/// The value of a list of choices.
pub open spec fn choices_view(v: Seq<RegionChoice>) -> Seq<(Seq<char>, Seq<char>)> {
    v.map_values(|c: RegionChoice| choice_view(c))
}

/// The position of the first class of occurrence `anchor` (-1 when none).
pub open spec fn class_index(cs: Seq<RegionClass>, anchor: usize) -> int
    decreases cs.len(),
{
    if cs.len() == 0 {
        -1
    } else {
        let f = class_index(cs.drop_last(), anchor);
        if f >= 0 {
            f
        } else if cs.last().anchor == anchor {
            cs.len() - 1
        } else {
            -1
        }
    }
}

proof fn lemma_class_index(cs: Seq<RegionClass>, anchor: usize)
    ensures
        -1 <= class_index(cs, anchor) < cs.len(),
        class_index(cs, anchor) >= 0 ==> cs[class_index(cs, anchor)].anchor == anchor,
        class_index(cs, anchor) >= 0 ==> forall|g: int| 0 <= g < class_index(cs, anchor) ==> (#[trigger] cs[g]).anchor != anchor,
        class_index(cs, anchor) < 0 ==> forall|g: int| 0 <= g < cs.len() ==> (#[trigger] cs[g]).anchor != anchor,
    decreases cs.len(),
{
    if cs.len() > 0 {
        let d = cs.drop_last();
        lemma_class_index(d, anchor);
        let f = class_index(d, anchor);
        if f >= 0 {
            assert(cs[f] == d[f]);
            assert forall|g: int| 0 <= g < f implies (#[trigger] cs[g]).anchor != anchor by {
                assert(cs[g] == d[g]);
            }
        } else {
            assert forall|g: int| 0 <= g < cs.len() - 1 implies (#[trigger] cs[g]).anchor != anchor by {
                assert(cs[g] == d[g]);
            }
        }
    }
}

impl RegionSpace {
    /// The position of the class of occurrence `anchor`, if it has one.
    pub fn class_by_anchor(&self, anchor: usize) -> (r: Option<usize>)
        ensures
            match r {
                Some(i) => i as int == class_index(self.classes@, anchor) && i < self.classes@.len(),
                None => class_index(self.classes@, anchor) < 0,
            },
    {
        proof {
            lemma_class_index(self.classes@, anchor);
        }
        let mut i: usize = 0;
        while i < self.classes.len()
            invariant
                0 <= i <= self.classes@.len(),
                forall|g: int| 0 <= g < i ==> (#[trigger] self.classes@[g]).anchor != anchor,
                -1 <= class_index(self.classes@, anchor) < self.classes@.len(),
                class_index(self.classes@, anchor) >= 0 ==> self.classes@[class_index(self.classes@, anchor)].anchor
                    == anchor,
                class_index(self.classes@, anchor) >= 0 ==> forall|g: int|
                    0 <= g < class_index(self.classes@, anchor) ==> (#[trigger] self.classes@[g]).anchor != anchor,
                class_index(self.classes@, anchor) < 0 ==> forall|g: int|
                    0 <= g < self.classes@.len() ==> (#[trigger] self.classes@[g]).anchor != anchor,
            decreases self.classes.len() - i,
        {
            if self.classes[i].anchor == anchor {
                return Some(i);
            }
            i = i + 1;
        }
        None
    }
}

/// The alternatives of a class: its non-incumbent e-nodes, in order.
pub open spec fn alternatives(es: Seq<RegionEnode>) -> Seq<Seq<char>>
    decreases es.len(),
{
    if es.len() == 0 {
        Seq::empty()
    } else if es.last().incumbent {
        alternatives(es.drop_last())
    } else {
        alternatives(es.drop_last()).push(es.last().enode_id@)
    }
}

fn alternatives_exec(es: &Vec<RegionEnode>) -> (r: Vec<String>)
    ensures
        r@.map_values(|s: String| s@) == alternatives(es@),
{
    let mut out: Vec<String> = Vec::new();
    let mut i: usize = 0;
    assert(es@.take(0) =~= Seq::<RegionEnode>::empty());
    while i < es.len()
        invariant
            0 <= i <= es@.len(),
            out@.map_values(|s: String| s@) == alternatives(es@.take(i as int)),
        decreases es.len() - i,
    {
        let ghost t = es@.take(i + 1);
        assert(t.drop_last() =~= es@.take(i as int));
        assert(t.last() == es@[i as int]);
        if !es[i].incumbent {
            let ghost before = out@.map_values(|s: String| s@);
            out.push(es[i].enode_id.clone());
            assert(out@.map_values(|s: String| s@) =~= before.push(es@[i as int].enode_id@));
        }
        i = i + 1;
    }
    assert(es@.take(i as int) =~= es@);
    out
}

/// A variant of a cone: one (e-class, e-node) pair per class.
pub open spec fn incumbent_variant(cs: Seq<RegionClass>) -> Seq<(Seq<char>, Seq<char>)> {
    Seq::new(cs.len(), |i: int| (cs[i].eclass_id@, cs[i].incumbent_enode@))
}

/// `v` with e-node `e` chosen at position `i`.
pub open spec fn with_enode(v: Seq<(Seq<char>, Seq<char>)>, i: int, e: Seq<char>) -> Seq<(Seq<char>, Seq<char>)> {
    v.update(i, (v[i].0, e))
}

/// The name of a variant: its e-nodes joined by `|`.
pub open spec fn variant_key(v: Seq<(Seq<char>, Seq<char>)>) -> Seq<char> {
    joined(v.map_values(|p: (Seq<char>, Seq<char>)| p.1), '|')
}

/// The one-change variants of classes `0..k`: each alternative of each
/// class in turn, the others at their incumbents.
pub open spec fn unary_stream(cs: Seq<RegionClass>, k: nat) -> Seq<Seq<(Seq<char>, Seq<char>)>>
    decreases k,
{
    if k == 0 || k > cs.len() {
        Seq::empty()
    } else {
        unary_stream(cs, (k - 1) as nat) + alternatives(cs[k - 1].enodes@).map_values(
            |e: Seq<char>| with_enode(incumbent_variant(cs), k - 1, e),
        )
    }
}

/// The two-change variants at classes `f < s`, for the first `k`
/// alternatives of `f`.
pub open spec fn pair_block(cs: Seq<RegionClass>, f: int, s: int, k: nat) -> Seq<Seq<(Seq<char>, Seq<char>)>>
    decreases k,
{
    let a = alternatives(cs[f].enodes@);
    if k == 0 || k > a.len() {
        Seq::empty()
    } else {
        pair_block(cs, f, s, (k - 1) as nat) + alternatives(cs[s].enodes@).map_values(
            |e: Seq<char>| with_enode(with_enode(incumbent_variant(cs), f, a[k - 1]), s, e),
        )
    }
}

/// The two-change variants with first class `f` and second below `s`.
pub open spec fn pairs_with(cs: Seq<RegionClass>, f: int, s: nat) -> Seq<Seq<(Seq<char>, Seq<char>)>>
    decreases s,
{
    if s == 0 || s <= f + 1 || s > cs.len() {
        Seq::empty()
    } else {
        pairs_with(cs, f, (s - 1) as nat) + pair_block(
            cs,
            f,
            s - 1,
            alternatives(cs[f].enodes@).len(),
        )
    }
}

/// The two-change variants whose first class is below `f`.
pub open spec fn pair_stream(cs: Seq<RegionClass>, f: nat) -> Seq<Seq<(Seq<char>, Seq<char>)>>
    decreases f,
{
    if f == 0 || f > cs.len() {
        Seq::empty()
    } else {
        pair_stream(cs, (f - 1) as nat) + pairs_with(cs, f - 1, cs.len())
    }
}

/// The three-change variant at classes `f < s < t` with each class's first
/// alternative, if all three have one.
pub open spec fn triple(cs: Seq<RegionClass>, f: int, s: int, t: int) -> Seq<Seq<(Seq<char>, Seq<char>)>> {
    let af = alternatives(cs[f].enodes@);
    let a_s = alternatives(cs[s].enodes@);
    let at = alternatives(cs[t].enodes@);
    if af.len() > 0 && a_s.len() > 0 && at.len() > 0 {
        seq![with_enode(with_enode(with_enode(incumbent_variant(cs), f, af[0]), s, a_s[0]), t, at[0])]
    } else {
        Seq::empty()
    }
}

/// The three-change variants at `f < s` and a third class below `t`.
pub open spec fn triples_at(cs: Seq<RegionClass>, f: int, s: int, t: nat) -> Seq<Seq<(Seq<char>, Seq<char>)>>
    decreases t,
{
    if t == 0 || t <= s + 1 || t > cs.len() {
        Seq::empty()
    } else {
        triples_at(cs, f, s, (t - 1) as nat) + triple(cs, f, s, t - 1)
    }
}

/// The three-change variants with first class `f` and second below `s`.
pub open spec fn triples_with(cs: Seq<RegionClass>, f: int, s: nat) -> Seq<Seq<(Seq<char>, Seq<char>)>>
    decreases s,
{
    if s == 0 || s <= f + 1 || s > cs.len() {
        Seq::empty()
    } else {
        triples_with(cs, f, (s - 1) as nat) + triples_at(cs, f, s - 1, cs.len())
    }
}

/// The three-change variants whose first class is below `f`.
pub open spec fn triple_stream(cs: Seq<RegionClass>, f: nat) -> Seq<Seq<(Seq<char>, Seq<char>)>>
    decreases f,
{
    if f == 0 || f > cs.len() {
        Seq::empty()
    } else {
        triple_stream(cs, (f - 1) as nat) + triples_with(cs, f - 1, cs.len())
    }
}

/// The variants after offering `v`: it is kept while there is room and no
/// kept variant has its name.
pub open spec fn offer(
    vs: Seq<Seq<(Seq<char>, Seq<char>)>>,
    v: Seq<(Seq<char>, Seq<char>)>,
    cap: nat,
) -> Seq<Seq<(Seq<char>, Seq<char>)>> {
    if vs.len() < cap && forall|j: int| 0 <= j < vs.len() ==> variant_key(#[trigger] vs[j]) != variant_key(v) {
        vs.push(v)
    } else {
        vs
    }
}

/// Offers the candidates in order, stopping once `limit` variants are kept.
pub open spec fn run_phase(
    vs: Seq<Seq<(Seq<char>, Seq<char>)>>,
    cands: Seq<Seq<(Seq<char>, Seq<char>)>>,
    limit: nat,
    cap: nat,
) -> Seq<Seq<(Seq<char>, Seq<char>)>>
    decreases cands.len(),
{
    if cands.len() == 0 {
        vs
    } else {
        let v1 = offer(vs, cands[0], cap);
        if v1.len() >= limit {
            v1
        } else {
            run_phase(v1, cands.drop_first(), limit, cap)
        }
    }
}

/// The bounded macro variants of a cone with classes `cs`: the incumbent,
/// one-change variants up to half the budget, then two-change and
/// three-change variants up to the budget, without repeated names.
pub open spec fn cone_variants(cs: Seq<RegionClass>, cap: nat) -> Seq<Seq<(Seq<char>, Seq<char>)>> {
    let v0 = offer(Seq::empty(), incumbent_variant(cs), cap);
    let unary_cap: nat = if cap / 2 > 1 {
        cap / 2
    } else {
        1
    };
    let v1 = run_phase(v0, unary_stream(cs, cs.len()), unary_cap, cap);
    let v2 = run_phase(v1, pair_stream(cs, cs.len()), cap, cap);
    run_phase(v2, triple_stream(cs, cs.len()), cap, cap)
}

/// The values of a list of variants.
pub open spec fn variants_view(vs: Seq<Vec<RegionChoice>>) -> Seq<Seq<(Seq<char>, Seq<char>)>> {
    vs.map_values(|v: Vec<RegionChoice>| choices_view(v@))
}

/// The classes of a cone, by position in the space.
pub open spec fn classes_at(space: RegionSpace, idx: Seq<usize>) -> Seq<RegionClass> {
    idx.map_values(|i: usize| space.classes@[i as int])
}

fn copy_choice(c: &RegionChoice) -> (r: RegionChoice)
    ensures
        choice_view(r) == choice_view(*c),
{
    RegionChoice { eclass_id: c.eclass_id.clone(), enode_id: c.enode_id.clone() }
}

fn incumbent_exec(space: &RegionSpace, idx: &Vec<usize>) -> (r: Vec<RegionChoice>)
    requires
        forall|k: int| 0 <= k < idx@.len() ==> #[trigger] idx@[k] < space.classes@.len(),
    ensures
        choices_view(r@) == incumbent_variant(classes_at(*space, idx@)),
{
    let ghost cs = classes_at(*space, idx@);
    let mut out: Vec<RegionChoice> = Vec::new();
    let mut k: usize = 0;
    while k < idx.len()
        invariant
            0 <= k <= idx@.len(),
            cs == classes_at(*space, idx@),
            forall|j: int| 0 <= j < idx@.len() ==> #[trigger] idx@[j] < space.classes@.len(),
            choices_view(out@) == incumbent_variant(cs).take(k as int),
        decreases idx.len() - k,
    {
        let c = &space.classes[idx[k]];
        let ghost before = choices_view(out@);
        out.push(RegionChoice { eclass_id: c.eclass_id.clone(), enode_id: c.incumbent_enode.clone() });
        assert(cs[k as int] == space.classes@[idx@[k as int] as int]);
        assert(choices_view(out@) =~= before.push(incumbent_variant(cs)[k as int]));
        assert(choices_view(out@) =~= incumbent_variant(cs).take(k + 1));
        k = k + 1;
    }
    assert(incumbent_variant(cs).take(k as int) =~= incumbent_variant(cs));
    out
}

fn with_enode_exec(v: &Vec<RegionChoice>, i: usize, e: &String) -> (r: Vec<RegionChoice>)
    requires
        i < v@.len(),
    ensures
        choices_view(r@) == with_enode(choices_view(v@), i as int, e@),
{
    let mut out: Vec<RegionChoice> = Vec::new();
    let mut k: usize = 0;
    let ghost target = with_enode(choices_view(v@), i as int, e@);
    while k < v.len()
        invariant
            0 <= k <= v@.len(),
            i < v@.len(),
            target == with_enode(choices_view(v@), i as int, e@),
            choices_view(out@) == target.take(k as int),
        decreases v.len() - k,
    {
        let ghost before = choices_view(out@);
        if k == i {
            out.push(RegionChoice { eclass_id: v[k].eclass_id.clone(), enode_id: e.clone() });
        } else {
            out.push(copy_choice(&v[k]));
        }
        assert(choices_view(out@) =~= before.push(target[k as int]));
        assert(choices_view(out@) =~= target.take(k + 1));
        k = k + 1;
    }
    assert(target.take(k as int) =~= target);
    out
}

fn unary_exec(space: &RegionSpace, idx: &Vec<usize>, inc: &Vec<RegionChoice>) -> (r: Vec<Vec<RegionChoice>>)
    requires
        forall|k: int| 0 <= k < idx@.len() ==> #[trigger] idx@[k] < space.classes@.len(),
        choices_view(inc@) == incumbent_variant(classes_at(*space, idx@)),
    ensures
        variants_view(r@) == unary_stream(classes_at(*space, idx@), idx@.len()),
{
    let ghost cs = classes_at(*space, idx@);
    assert(choices_view(inc@).len() == inc@.len());
    assert(incumbent_variant(cs).len() == cs.len());
    let mut out: Vec<Vec<RegionChoice>> = Vec::new();
    let mut k: usize = 0;
    while k < idx.len()
        invariant
            0 <= k <= idx@.len(),
            cs == classes_at(*space, idx@),
            cs.len() == idx@.len(),
            inc@.len() == idx@.len(),
            forall|j: int| 0 <= j < idx@.len() ==> #[trigger] idx@[j] < space.classes@.len(),
            choices_view(inc@) == incumbent_variant(cs),
            variants_view(out@) == unary_stream(cs, k as nat),
        decreases idx.len() - k,
    {
        let alts = alternatives_exec(&space.classes[idx[k]].enodes);
        let ghost a = alternatives(cs[k as int].enodes@);
        let ghost head = variants_view(out@);
        let mut j: usize = 0;
        while j < alts.len()
            invariant
                0 <= j <= alts@.len(),
                k < inc@.len(),
                alts@.map_values(|s: String| s@) == a,
                choices_view(inc@) == incumbent_variant(cs),
                variants_view(out@) == head + a.take(j as int).map_values(
                    |e: Seq<char>| with_enode(incumbent_variant(cs), k as int, e),
                ),
            decreases alts.len() - j,
        {
            let v = with_enode_exec(inc, k, &alts[j]);
            let ghost before = variants_view(out@);
            out.push(v);
            assert(a[j as int] == alts@[j as int]@);
            assert(variants_view(out@) =~= before.push(with_enode(incumbent_variant(cs), k as int, a[j as int])));
            assert(a.take(j + 1).map_values(|e: Seq<char>| with_enode(incumbent_variant(cs), k as int, e))
                =~= a.take(j as int).map_values(|e: Seq<char>| with_enode(incumbent_variant(cs), k as int, e)).push(
                with_enode(incumbent_variant(cs), k as int, a[j as int]),
            ));
            assert(variants_view(out@) =~= head + a.take(j + 1).map_values(
                |e: Seq<char>| with_enode(incumbent_variant(cs), k as int, e),
            ));
            j = j + 1;
        }
        assert(a.take(j as int) =~= a);
        assert(unary_stream(cs, (k + 1) as nat) == unary_stream(cs, k as nat) + a.map_values(
            |e: Seq<char>| with_enode(incumbent_variant(cs), k as int, e),
        ));
        k = k + 1;
    }
    out
}

fn pair_exec(space: &RegionSpace, idx: &Vec<usize>, inc: &Vec<RegionChoice>) -> (r: Vec<Vec<RegionChoice>>)
    requires
        forall|k: int| 0 <= k < idx@.len() ==> #[trigger] idx@[k] < space.classes@.len(),
        choices_view(inc@) == incumbent_variant(classes_at(*space, idx@)),
    ensures
        variants_view(r@) == pair_stream(classes_at(*space, idx@), idx@.len()),
{
    let ghost cs = classes_at(*space, idx@);
    assert(choices_view(inc@).len() == inc@.len());
    assert(incumbent_variant(cs).len() == cs.len());
    let n = idx.len();
    let mut out: Vec<Vec<RegionChoice>> = Vec::new();
    let mut f: usize = 0;
    while f < n
        invariant
            0 <= f <= n,
            n == idx@.len(),
            cs == classes_at(*space, idx@),
            cs.len() == n,
            inc@.len() == n,
            forall|j: int| 0 <= j < idx@.len() ==> #[trigger] idx@[j] < space.classes@.len(),
            choices_view(inc@) == incumbent_variant(cs),
            variants_view(out@) == pair_stream(cs, f as nat),
        decreases n - f,
    {
        let af = alternatives_exec(&space.classes[idx[f]].enodes);
        let ghost fa = alternatives(cs[f as int].enodes@);
        let ghost head_f = variants_view(out@);
        let mut s: usize = f + 1;
        assert(pairs_with(cs, f as int, s as nat) == Seq::<Seq<(Seq<char>, Seq<char>)>>::empty());
        while s < n
            invariant
                f + 1 <= s <= n,
                n == idx@.len(),
                cs.len() == n,
                inc@.len() == n,
                forall|j: int| 0 <= j < idx@.len() ==> #[trigger] idx@[j] < space.classes@.len(),
                cs == classes_at(*space, idx@),
                af@.map_values(|t: String| t@) == fa,
                fa == alternatives(cs[f as int].enodes@),
                choices_view(inc@) == incumbent_variant(cs),
                variants_view(out@) == head_f + pairs_with(cs, f as int, s as nat),
            decreases n - s,
        {
            let a_s = alternatives_exec(&space.classes[idx[s]].enodes);
            let ghost sa = alternatives(cs[s as int].enodes@);
            let ghost head_s = variants_view(out@);
            let mut k: usize = 0;
            while k < af.len()
                invariant
                    0 <= k <= af@.len(),
                    f < s < n,
                    inc@.len() == n,
                    af@.map_values(|t: String| t@) == fa,
                    a_s@.map_values(|t: String| t@) == sa,
                    fa == alternatives(cs[f as int].enodes@),
                    sa == alternatives(cs[s as int].enodes@),
                    choices_view(inc@) == incumbent_variant(cs),
                    variants_view(out@) == head_s + pair_block(cs, f as int, s as int, k as nat),
                decreases af.len() - k,
            {
                let v1 = with_enode_exec(inc, f, &af[k]);
                assert(fa[k as int] == af@[k as int]@);
                assert(choices_view(v1@).len() == v1@.len());
                let ghost head_k = variants_view(out@);
                let mut j: usize = 0;
                while j < a_s.len()
                    invariant
                        0 <= j <= a_s@.len(),
                        f < s < n,
                        v1@.len() == n,
                        a_s@.map_values(|t: String| t@) == sa,
                        choices_view(v1@) == with_enode(incumbent_variant(cs), f as int, fa[k as int]),
                        variants_view(out@) == head_k + sa.take(j as int).map_values(
                            |e: Seq<char>| with_enode(with_enode(incumbent_variant(cs), f as int, fa[k as int]), s as int, e),
                        ),
                    decreases a_s.len() - j,
                {
                    let v = with_enode_exec(&v1, s, &a_s[j]);
                    assert(sa[j as int] == a_s@[j as int]@);
                    let ghost before = variants_view(out@);
                    out.push(v);
                    assert(variants_view(out@) =~= before.push(
                        with_enode(with_enode(incumbent_variant(cs), f as int, fa[k as int]), s as int, sa[j as int]),
                    ));
                    assert(sa.take(j + 1).map_values(
                        |e: Seq<char>| with_enode(with_enode(incumbent_variant(cs), f as int, fa[k as int]), s as int, e),
                    ) =~= sa.take(j as int).map_values(
                        |e: Seq<char>| with_enode(with_enode(incumbent_variant(cs), f as int, fa[k as int]), s as int, e),
                    ).push(with_enode(with_enode(incumbent_variant(cs), f as int, fa[k as int]), s as int, sa[j as int])));
                    assert(variants_view(out@) =~= head_k + sa.take(j + 1).map_values(
                        |e: Seq<char>| with_enode(with_enode(incumbent_variant(cs), f as int, fa[k as int]), s as int, e),
                    ));
                    j = j + 1;
                }
                assert(sa.take(j as int) =~= sa);
                assert(pair_block(cs, f as int, s as int, (k + 1) as nat) == pair_block(cs, f as int, s as int, k as nat)
                    + sa.map_values(
                    |e: Seq<char>| with_enode(with_enode(incumbent_variant(cs), f as int, fa[k as int]), s as int, e),
                ));
                k = k + 1;
            }
            assert(pairs_with(cs, f as int, (s + 1) as nat) == pairs_with(cs, f as int, s as nat) + pair_block(
                cs,
                f as int,
                s as int,
                fa.len(),
            ));
            s = s + 1;
        }
        f = f + 1;
    }
    out
}

fn triple_exec(space: &RegionSpace, idx: &Vec<usize>, inc: &Vec<RegionChoice>) -> (r: Vec<Vec<RegionChoice>>)
    requires
        forall|k: int| 0 <= k < idx@.len() ==> #[trigger] idx@[k] < space.classes@.len(),
        choices_view(inc@) == incumbent_variant(classes_at(*space, idx@)),
    ensures
        variants_view(r@) == triple_stream(classes_at(*space, idx@), idx@.len()),
{
    let ghost cs = classes_at(*space, idx@);
    assert(choices_view(inc@).len() == inc@.len());
    assert(incumbent_variant(cs).len() == cs.len());
    let n = idx.len();
    let mut out: Vec<Vec<RegionChoice>> = Vec::new();
    let mut f: usize = 0;
    while f < n
        invariant
            0 <= f <= n,
            n == idx@.len(),
            cs == classes_at(*space, idx@),
            cs.len() == n,
            inc@.len() == n,
            forall|j: int| 0 <= j < idx@.len() ==> #[trigger] idx@[j] < space.classes@.len(),
            choices_view(inc@) == incumbent_variant(cs),
            variants_view(out@) == triple_stream(cs, f as nat),
        decreases n - f,
    {
        let ghost head_f = variants_view(out@);
        let mut s: usize = f + 1;
        while s < n
            invariant
                f + 1 <= s <= n,
                f < n,
                n == idx@.len(),
                cs.len() == n,
                inc@.len() == n,
                forall|j: int| 0 <= j < idx@.len() ==> #[trigger] idx@[j] < space.classes@.len(),
                cs == classes_at(*space, idx@),
                choices_view(inc@) == incumbent_variant(cs),
                variants_view(out@) == head_f + triples_with(cs, f as int, s as nat),
            decreases n - s,
        {
            let ghost head_s = variants_view(out@);
            let mut t: usize = s + 1;
            while t < n
                invariant
                    s + 1 <= t <= n,
                    f < s < n,
                    n == idx@.len(),
                    cs.len() == n,
                    inc@.len() == n,
                    forall|j: int| 0 <= j < idx@.len() ==> #[trigger] idx@[j] < space.classes@.len(),
                    cs == classes_at(*space, idx@),
                    choices_view(inc@) == incumbent_variant(cs),
                    variants_view(out@) == head_s + triples_at(cs, f as int, s as int, t as nat),
                decreases n - t,
            {
                let af = alternatives_exec(&space.classes[idx[f]].enodes);
                let a_s = alternatives_exec(&space.classes[idx[s]].enodes);
                let at = alternatives_exec(&space.classes[idx[t]].enodes);
                let ghost before = variants_view(out@);
                if af.len() > 0 && a_s.len() > 0 && at.len() > 0 {
                    let v1 = with_enode_exec(inc, f, &af[0]);
                    assert(choices_view(v1@).len() == v1@.len());
                    let v2 = with_enode_exec(&v1, s, &a_s[0]);
                    assert(choices_view(v2@).len() == v2@.len());
                    let v3 = with_enode_exec(&v2, t, &at[0]);
                    out.push(v3);
                    assert(variants_view(out@) =~= before + triple(cs, f as int, s as int, t as int));
                } else {
                    assert(triple(cs, f as int, s as int, t as int) =~= Seq::<Seq<(Seq<char>, Seq<char>)>>::empty());
                    assert(variants_view(out@) =~= before + triple(cs, f as int, s as int, t as int));
                }
                t = t + 1;
            }
            s = s + 1;
        }
        f = f + 1;
    }
    out
}

/// The names of a list of variants.
pub open spec fn keys_of(vs: Seq<Seq<(Seq<char>, Seq<char>)>>) -> Seq<Seq<char>> {
    vs.map_values(|v: Seq<(Seq<char>, Seq<char>)>| variant_key(v))
}

fn variant_key_exec(v: &Vec<RegionChoice>) -> (r: Vec<char>)
    ensures
        r@ == variant_key(choices_view(v@)),
{
    let mut parts: Vec<Vec<char>> = Vec::new();
    let mut k: usize = 0;
    let ghost ids = choices_view(v@).map_values(|p: (Seq<char>, Seq<char>)| p.1);
    while k < v.len()
        invariant
            0 <= k <= v@.len(),
            ids == choices_view(v@).map_values(|p: (Seq<char>, Seq<char>)| p.1),
            texts_view(parts@) == ids.take(k as int),
        decreases v.len() - k,
    {
        let ghost before = texts_view(parts@);
        parts.push(chars_of(v[k].enode_id.as_str()));
        assert(texts_view(parts@) =~= before.push(ids[k as int]));
        assert(ids.take(k + 1) =~= ids.take(k as int).push(ids[k as int]));
        k = k + 1;
    }
    assert(ids.take(k as int) =~= ids);
    join_texts(&parts, '|')
}

fn has_text(keys: &Vec<Vec<char>>, key: &Vec<char>) -> (r: bool)
    ensures
        r == exists|j: int| 0 <= j < keys@.len() && (#[trigger] keys@[j])@ == key@,
{
    let mut j: usize = 0;
    while j < keys.len()
        invariant
            0 <= j <= keys@.len(),
            forall|t: int| 0 <= t < j ==> (#[trigger] keys@[t])@ != key@,
        decreases keys.len() - j,
    {
        if crate::text::chars_equal(keys[j].as_slice(), key.as_slice()) {
            return true;
        }
        j = j + 1;
    }
    false
}

fn offer_exec(vs: &mut Vec<Vec<RegionChoice>>, keys: &mut Vec<Vec<char>>, v: Vec<RegionChoice>, cap: usize)
    requires
        texts_view(old(keys)@) == keys_of(variants_view(old(vs)@)),
    ensures
        variants_view(final(vs)@) == offer(variants_view(old(vs)@), choices_view(v@), cap as nat),
        texts_view(final(keys)@) == keys_of(variants_view(final(vs)@)),
{
    let key = variant_key_exec(&v);
    let ghost vv = variants_view(vs@);
    let ghost kk = texts_view(keys@);
    let found = has_text(keys, &key);
    assert(found == !(forall|j: int| 0 <= j < vv.len() ==> variant_key(#[trigger] vv[j]) != variant_key(choices_view(v@)))) by {
        if found {
            let j = choose|j: int| 0 <= j < keys@.len() && (#[trigger] keys@[j])@ == key@;
            assert(kk[j] == keys@[j]@);
            assert(kk.len() == vv.len());
            assert(keys_of(vv)[j] == variant_key(vv[j]));
            assert(variant_key(vv[j]) == kk[j]);
        } else {
            assert(kk.len() == vv.len());
            assert forall|j: int| 0 <= j < vv.len() implies variant_key(#[trigger] vv[j]) != variant_key(choices_view(v@)) by {
                assert(kk[j] == keys@[j]@);
                assert(keys_of(vv)[j] == variant_key(vv[j]));
            }
        }
    }
    if vs.len() < cap && !found {
        let ghost cv = choices_view(v@);
        vs.push(v);
        keys.push(key);
        assert(variants_view(vs@) =~= vv.push(cv));
        assert(texts_view(keys@) =~= kk.push(variant_key(cv)));
        assert(keys_of(variants_view(vs@)) =~= keys_of(vv).push(variant_key(cv)));
    }
}

fn run_phase_exec(
    vs: &mut Vec<Vec<RegionChoice>>,
    keys: &mut Vec<Vec<char>>,
    cands: Vec<Vec<RegionChoice>>,
    limit: usize,
    cap: usize,
)
    requires
        texts_view(old(keys)@) == keys_of(variants_view(old(vs)@)),
    ensures
        variants_view(final(vs)@) == run_phase(variants_view(old(vs)@), variants_view(cands@), limit as nat, cap as nat),
        texts_view(final(keys)@) == keys_of(variants_view(final(vs)@)),
{
    let ghost target = run_phase(variants_view(vs@), variants_view(cands@), limit as nat, cap as nat);
    let mut rest = cands;
    while rest.len() > 0
        invariant
            texts_view(keys@) == keys_of(variants_view(vs@)),
            run_phase(variants_view(vs@), variants_view(rest@), limit as nat, cap as nat) == target,
            target == run_phase(variants_view(old(vs)@), variants_view(cands@), limit as nat, cap as nat),
        decreases rest.len(),
    {
        let ghost rv = variants_view(rest@);
        let x = rest.remove(0);
        assert(rv[0] == choices_view(x@));
        assert(variants_view(rest@) =~= rv.drop_first());
        offer_exec(vs, keys, x, cap);
        if vs.len() >= limit {
            return ;
        }
    }
}

/// The classes of a cone's occurrences.
pub open spec fn component_classes(space: RegionSpace, component: Seq<usize>) -> Seq<RegionClass> {
    component.map_values(|a: usize| space.classes@[class_index(space.classes@, a)])
}

/// Every occurrence of the cone has a class.
pub open spec fn component_resolved(space: RegionSpace, component: Seq<usize>) -> bool {
    forall|k: int| 0 <= k < component.len() ==> class_index(space.classes@, #[trigger] component[k]) >= 0
}

/// A bounded set of complete macro assignments for one connected rewrite
/// cone: the incumbent first, then one-change variants up to half of
/// `cap`, then two- and three-change variants up to `cap`, never two with
/// the same e-nodes.
pub fn macro_variants(space: &RegionSpace, component: &Vec<usize>, cap: usize) -> (r: Result<
    Vec<Vec<RegionChoice>>,
    String,
>)
    ensures
        component_resolved(*space, component@) ==> (r matches Ok(vs) && variants_view(vs@)
            == cone_variants(component_classes(*space, component@), cap as nat)),
        !component_resolved(*space, component@) ==> (r matches Err(m) && m@
            == "missing macro component eclass"@),
{
    let mut idx: Vec<usize> = Vec::new();
    let mut k: usize = 0;
    while k < component.len()
        invariant
            0 <= k <= component@.len(),
            idx@.len() == k,
            forall|j: int| 0 <= j < k ==> class_index(space.classes@, #[trigger] component@[j]) >= 0,
            forall|j: int| 0 <= j < k ==> #[trigger] idx@[j] as int == class_index(space.classes@, component@[j]),
            forall|j: int| 0 <= j < k ==> #[trigger] idx@[j] < space.classes@.len(),
        decreases component.len() - k,
    {
        match space.class_by_anchor(component[k]) {
            Some(i) => {
                proof {
                    lemma_class_index(space.classes@, component@[k as int]);
                }
                idx.push(i);
            },
            None => {
                return Err("missing macro component eclass".to_string());
            },
        }
        k = k + 1;
    }
    let ghost cs = classes_at(*space, idx@);
    assert(cs =~= component_classes(*space, component@));
    let inc = incumbent_exec(space, &idx);
    let unary = unary_exec(space, &idx, &inc);
    let pairs = pair_exec(space, &idx, &inc);
    let triples = triple_exec(space, &idx, &inc);
    let mut variants: Vec<Vec<RegionChoice>> = Vec::new();
    let mut keys: Vec<Vec<char>> = Vec::new();
    assert(texts_view(keys@) =~= keys_of(variants_view(variants@)));
    assert(variants_view(variants@) =~= Seq::<Seq<(Seq<char>, Seq<char>)>>::empty());
    offer_exec(&mut variants, &mut keys, inc, cap);
    let unary_cap = if cap / 2 > 1 {
        cap / 2
    } else {
        1
    };
    run_phase_exec(&mut variants, &mut keys, unary, unary_cap, cap);
    run_phase_exec(&mut variants, &mut keys, pairs, cap, cap);
    run_phase_exec(&mut variants, &mut keys, triples, cap, cap);
    Ok(variants)
}

/// The name of an assignment: its e-nodes joined by `|`.
pub fn assignment_signature(assignment: &RegionAssignment) -> (r: String)
    ensures
        r@ == variant_key(choices_view(assignment.choices@)),
{
    let key = variant_key_exec(&assignment.choices);
    string_of(key.as_slice())
}

/// The e-node chosen for e-class `ec` in a selection (its first entry).
pub open spec fn selected_for(sel: Seq<(Seq<char>, Seq<char>)>, ec: Seq<char>) -> Option<Seq<char>>
    decreases sel.len(),
{
    if sel.len() == 0 {
        None
    } else {
        match selected_for(sel.drop_last(), ec) {
            Some(e) => Some(e),
            None => if sel.last().0 == ec {
                Some(sel.last().1)
            } else {
                None
            },
        }
    }
}

/// Every choice of every fragment, fragment after fragment.
pub open spec fn fragment_choices(fs: Seq<Vec<RegionChoice>>) -> Seq<(Seq<char>, Seq<char>)>
    decreases fs.len(),
{
    if fs.len() == 0 {
        Seq::empty()
    } else {
        fragment_choices(fs.drop_last()) + choices_view(fs.last()@)
    }
}

/// The e-node selected for each e-class by a list of choices, or the first
/// e-class that two choices disagree on, with both e-nodes.
pub open spec fn select_choices(cs: Seq<(Seq<char>, Seq<char>)>) -> Result<
    Seq<(Seq<char>, Seq<char>)>,
    (Seq<char>, Seq<char>, Seq<char>),
>
    decreases cs.len(),
{
    if cs.len() == 0 {
        Ok(Seq::empty())
    } else {
        match select_choices(cs.drop_last()) {
            Err(e) => Err(e),
            Ok(sel) => match selected_for(sel, cs.last().0) {
                Some(existing) => if existing != cs.last().1 {
                    Err((cs.last().0, existing, cs.last().1))
                } else {
                    Ok(sel)
                },
                None => Ok(sel.push(cs.last())),
            },
        }
    }
}

/// The incumbent flag of the first e-node named `id`, over all classes.
pub open spec fn enode_incumbent(classes: Seq<RegionClass>, id: Seq<char>) -> Option<bool>
    decreases classes.len(),
{
    if classes.len() == 0 {
        None
    } else {
        match enode_incumbent(classes.drop_last(), id) {
            Some(b) => Some(b),
            None => enode_flag(classes.last().enodes@, id),
        }
    }
}

/// The incumbent flag of the first e-node named `id` in a list.
pub open spec fn enode_flag(es: Seq<RegionEnode>, id: Seq<char>) -> Option<bool>
    decreases es.len(),
{
    if es.len() == 0 {
        None
    } else {
        match enode_flag(es.drop_last(), id) {
            Some(b) => Some(b),
            None => if es.last().enode_id@ == id {
                Some(es.last().incumbent)
            } else {
                None
            },
        }
    }
}

/// How many choices name a known e-node that is not an incumbent.
pub open spec fn changed_count(classes: Seq<RegionClass>, cs: Seq<(Seq<char>, Seq<char>)>) -> nat
    decreases cs.len(),
{
    if cs.len() == 0 {
        0
    } else {
        changed_count(classes, cs.drop_last()) + if enode_incumbent(classes, cs.last().1) == Some(false) {
            1nat
        } else {
            0nat
        }
    }
}

/// The choices of a region under a selection: each occurrence's class with
/// its selected e-node, or its incumbent.
pub open spec fn region_choices(
    classes: Seq<RegionClass>,
    region: Seq<usize>,
    sel: Seq<(Seq<char>, Seq<char>)>,
) -> Seq<(Seq<char>, Seq<char>)> {
    region.map_values(
        |a: usize|
            {
                let c = classes[class_index(classes, a)];
                (c.eclass_id@, match selected_for(sel, c.eclass_id@) {
                    Some(e) => e,
                    None => c.incumbent_enode@,
                })
            },
    )
}

/// What composing fragments into a region assignment gives: a conflict
/// between fragments, an occurrence without a class, or the assignment's
/// choices.
pub open spec fn composed(space: RegionSpace, region: Seq<usize>, fs: Seq<Vec<RegionChoice>>) -> Result<
    Seq<(Seq<char>, Seq<char>)>,
    Seq<char>,
> {
    match select_choices(fragment_choices(fs)) {
        Err((ec, a, b)) => Err("conflicting macro fragments for "@ + ec + ": "@ + a + " vs "@ + b),
        Ok(sel) => if forall|k: int| 0 <= k < region.len() ==> class_index(space.classes@, #[trigger] region[k]) >= 0 {
            Ok(region_choices(space.classes@, region, sel))
        } else {
            Err("missing region class while composing macro fragments"@)
        },
    }
}

fn selected_exec(sel: &Vec<(String, String)>, ec: &String) -> (r: Option<String>)
    ensures
        match selected_for(sel@.map_values(|p: (String, String)| (p.0@, p.1@)), ec@) {
            Some(e) => r matches Some(x) && x@ == e,
            None => r is None,
        },
{
    let ghost sv = sel@.map_values(|p: (String, String)| (p.0@, p.1@));
    let mut i: usize = 0;
    assert(sv.take(0) =~= Seq::<(Seq<char>, Seq<char>)>::empty());
    while i < sel.len()
        invariant
            0 <= i <= sel@.len(),
            sv == sel@.map_values(|p: (String, String)| (p.0@, p.1@)),
            selected_for(sv.take(i as int), ec@) is None,
        decreases sel.len() - i,
    {
        let ghost t = sv.take(i + 1);
        assert(t.drop_last() =~= sv.take(i as int));
        if same_string(&sel[i].0, ec) {
            proof {
                lemma_selected_prefix(sv, i + 1, ec@);
            }
            return Some(sel[i].1.clone());
        }
        i = i + 1;
    }
    assert(sv.take(i as int) =~= sv);
    None
}

proof fn lemma_selected_prefix(sv: Seq<(Seq<char>, Seq<char>)>, k: int, ec: Seq<char>)
    requires
        0 <= k <= sv.len(),
        selected_for(sv.take(k), ec) is Some,
    ensures
        selected_for(sv, ec) == selected_for(sv.take(k), ec),
    decreases sv.len() - k,
{
    if k < sv.len() {
        assert(sv.take(k + 1).drop_last() =~= sv.take(k));
        lemma_selected_prefix(sv, k + 1, ec);
    } else {
        assert(sv.take(k) =~= sv);
    }
}

fn enode_flag_exec(space: &RegionSpace, id: &String) -> (r: Option<bool>)
    ensures
        r == enode_incumbent(space.classes@, id@),
{
    let mut c: usize = 0;
    assert(space.classes@.take(0) =~= Seq::<RegionClass>::empty());
    while c < space.classes.len()
        invariant
            0 <= c <= space.classes@.len(),
            enode_incumbent(space.classes@.take(c as int), id@) is None,
        decreases space.classes.len() - c,
    {
        let es = &space.classes[c].enodes;
        let mut j: usize = 0;
        assert(es@.take(0) =~= Seq::<RegionEnode>::empty());
        while j < es.len()
            invariant
                0 <= j <= es@.len(),
                c < space.classes@.len(),
                *es == space.classes@[c as int].enodes,
                enode_flag(es@.take(j as int), id@) is None,
                enode_incumbent(space.classes@.take(c as int), id@) is None,
            decreases es.len() - j,
        {
            let ghost t = es@.take(j + 1);
            assert(t.drop_last() =~= es@.take(j as int));
            if same_string(&es[j].enode_id, id) {
                let ghost u = space.classes@.take(c + 1);
                assert(u.drop_last() =~= space.classes@.take(c as int));
                proof {
                    lemma_flag_prefix(es@, j + 1, id@);
                    lemma_incumbent_prefix(space.classes@, c + 1, id@);
                }
                return Some(es[j].incumbent);
            }
            j = j + 1;
        }
        assert(es@.take(j as int) =~= es@);
        let ghost u = space.classes@.take(c + 1);
        assert(u.drop_last() =~= space.classes@.take(c as int));
        c = c + 1;
    }
    assert(space.classes@.take(c as int) =~= space.classes@);
    None
}

proof fn lemma_flag_prefix(es: Seq<RegionEnode>, k: int, id: Seq<char>)
    requires
        0 <= k <= es.len(),
        enode_flag(es.take(k), id) is Some,
    ensures
        enode_flag(es, id) == enode_flag(es.take(k), id),
    decreases es.len() - k,
{
    if k < es.len() {
        assert(es.take(k + 1).drop_last() =~= es.take(k));
        lemma_flag_prefix(es, k + 1, id);
    } else {
        assert(es.take(k) =~= es);
    }
}

proof fn lemma_incumbent_prefix(cs: Seq<RegionClass>, k: int, id: Seq<char>)
    requires
        0 <= k <= cs.len(),
        enode_incumbent(cs.take(k), id) is Some,
    ensures
        enode_incumbent(cs, id) == enode_incumbent(cs.take(k), id),
    decreases cs.len() - k,
{
    if k < cs.len() {
        assert(cs.take(k + 1).drop_last() =~= cs.take(k));
        lemma_incumbent_prefix(cs, k + 1, id);
    } else {
        assert(cs.take(k) =~= cs);
    }
}

fn conflict_message(ec: &String, a: &String, b: &String) -> (r: String)
    ensures
        r@ == "conflicting macro fragments for "@ + ec@ + ": "@ + a@ + " vs "@ + b@,
{
    let mut v: Vec<char> = Vec::new();
    crate::text::push_str(&mut v, "conflicting macro fragments for ");
    crate::text::push_str(&mut v, ec.as_str());
    crate::text::push_str(&mut v, ": ");
    crate::text::push_str(&mut v, a.as_str());
    crate::text::push_str(&mut v, " vs ");
    crate::text::push_str(&mut v, b.as_str());
    assert(v@ =~= "conflicting macro fragments for "@ + ec@ + ": "@ + a@ + " vs "@ + b@);
    string_of(v.as_slice())
}

/// Composes the partial choices of macro fragments into a complete
/// assignment of a region: fragments must agree on every e-class they
/// share, and occurrences they leave open keep their incumbents.
pub fn full_assignment_from_fragments(
    space: &RegionSpace,
    region: &Vec<usize>,
    fragments: &Vec<Vec<RegionChoice>>,
) -> (r: Result<RegionAssignment, String>)
    ensures
        match composed(*space, region@, fragments@) {
            Ok(cs) => r matches Ok(a) && choices_view(a.choices@) == cs && a.changed_eclasses
                == changed_count(space.classes@, cs),
            Err(m) => r matches Err(e) && e@ == m,
        },
{
    let mut sel: Vec<(String, String)> = Vec::new();
    let ghost all = fragment_choices(fragments@);
    let mut f: usize = 0;
    assert(fragments@.take(0) =~= Seq::<Vec<RegionChoice>>::empty());
    assert(sel@.map_values(|p: (String, String)| (p.0@, p.1@)) =~= Seq::<(Seq<char>, Seq<char>)>::empty());
    assert(fragment_choices(fragments@.take(0)) == Seq::<(Seq<char>, Seq<char>)>::empty());
    while f < fragments.len()
        invariant
            0 <= f <= fragments@.len(),
            all == fragment_choices(fragments@),
            select_choices(fragment_choices(fragments@.take(f as int))) == Ok::<
                Seq<(Seq<char>, Seq<char>)>,
                (Seq<char>, Seq<char>, Seq<char>),
            >(sel@.map_values(|p: (String, String)| (p.0@, p.1@))),
        decreases fragments.len() - f,
    {
        let frag = &fragments[f];
        let ghost head = fragment_choices(fragments@.take(f as int));
        let mut j: usize = 0;
        assert(head + choices_view(frag@).take(0) =~= head);
        while j < frag.len()
            invariant
                0 <= j <= frag@.len(),
                f < fragments@.len(),
                all == fragment_choices(fragments@),
                *frag == fragments@[f as int],
                head == fragment_choices(fragments@.take(f as int)),
                select_choices(head + choices_view(frag@).take(j as int)) == Ok::<
                    Seq<(Seq<char>, Seq<char>)>,
                    (Seq<char>, Seq<char>, Seq<char>),
                >(sel@.map_values(|p: (String, String)| (p.0@, p.1@))),
            decreases frag.len() - j,
        {
            let ghost prev = head + choices_view(frag@).take(j as int);
            let ghost cur = head + choices_view(frag@).take(j + 1);
            assert(cur.drop_last() =~= prev);
            assert(cur.last() == choice_view(frag@[j as int]));
            let ghost sv = sel@.map_values(|p: (String, String)| (p.0@, p.1@));
            match selected_exec(&sel, &frag[j].eclass_id) {
                Some(existing) => {
                    if !same_string(&existing, &frag[j].enode_id) {
                        let m = conflict_message(&frag[j].eclass_id, &existing, &frag[j].enode_id);
                        proof {
                            lemma_select_error_stable(all, fragments@, f as int, j as int + 1);
                        }
                        return Err(m);
                    }
                },
                None => {
                    sel.push((frag[j].eclass_id.clone(), frag[j].enode_id.clone()));
                    assert(sel@.map_values(|p: (String, String)| (p.0@, p.1@)) =~= sv.push(cur.last()));
                },
            }
            j = j + 1;
        }
        let ghost t = fragments@.take(f + 1);
        assert(t.drop_last() =~= fragments@.take(f as int));
        assert(choices_view(frag@).take(j as int) =~= choices_view(frag@));
        assert(fragment_choices(t) == head + choices_view(frag@));
        f = f + 1;
    }
    assert(fragments@.take(f as int) =~= fragments@);
    let ghost sv = sel@.map_values(|p: (String, String)| (p.0@, p.1@));
    let mut choices: Vec<RegionChoice> = Vec::new();
    let mut changed: usize = 0;
    let mut k: usize = 0;
    while k < region.len()
        invariant
            0 <= k <= region@.len(),
            sv == sel@.map_values(|p: (String, String)| (p.0@, p.1@)),
            select_choices(fragment_choices(fragments@)) == Ok::<
                Seq<(Seq<char>, Seq<char>)>,
                (Seq<char>, Seq<char>, Seq<char>),
            >(sv),
            forall|j: int| 0 <= j < k ==> class_index(space.classes@, #[trigger] region@[j]) >= 0,
            choices_view(choices@) == region_choices(space.classes@, region@.take(k as int), sv),
            changed == changed_count(space.classes@, choices_view(choices@)),
            changed <= k,
        decreases region.len() - k,
    {
        let i = match space.class_by_anchor(region[k]) {
            Some(i) => i,
            None => {
                assert(class_index(space.classes@, region@[k as int]) < 0);
                return Err("missing region class while composing macro fragments".to_string());
            },
        };
        proof {
            lemma_class_index(space.classes@, region@[k as int]);
        }
        let class = &space.classes[i];
        let enode_id = match selected_exec(&sel, &class.eclass_id) {
            Some(e) => e,
            None => class.incumbent_enode.clone(),
        };
        let ghost before = choices_view(choices@);
        let flag = enode_flag_exec(space, &enode_id);
        let choice = RegionChoice { eclass_id: class.eclass_id.clone(), enode_id };
        choices.push(choice);
        assert(choices_view(choices@) =~= before.push(choices_view(choices@).last()));
        assert(region_choices(space.classes@, region@.take(k + 1), sv) =~= region_choices(
            space.classes@,
            region@.take(k as int),
            sv,
        ).push(choices_view(choices@).last()));
        assert(choices_view(choices@).drop_last() =~= before);
        if flag == Some(false) {
            changed = changed + 1;
        }
        k = k + 1;
    }
    assert(region@.take(k as int) =~= region@);
    Ok(RegionAssignment { choices, changed_eclasses: changed })
}

proof fn lemma_select_error_prefix(cs: Seq<(Seq<char>, Seq<char>)>, k: int)
    requires
        0 <= k <= cs.len(),
        select_choices(cs.take(k)) is Err,
    ensures
        select_choices(cs) == select_choices(cs.take(k)),
    decreases cs.len() - k,
{
    if k < cs.len() {
        assert(cs.take(k + 1).drop_last() =~= cs.take(k));
        lemma_select_error_prefix(cs, k + 1);
    } else {
        assert(cs.take(k) =~= cs);
    }
}

proof fn lemma_fragment_prefix(fs: Seq<Vec<RegionChoice>>, f: int)
    requires
        0 <= f < fs.len(),
    ensures
        fragment_choices(fs.take(f + 1)) == fragment_choices(fs.take(f)) + choices_view(fs[f]@),
        (fragment_choices(fs.take(f + 1))).len() <= fragment_choices(fs).len(),
        fragment_choices(fs).take(fragment_choices(fs.take(f + 1)).len() as int) == fragment_choices(
            fs.take(f + 1),
        ),
    decreases fs.len() - f,
{
    let t = fs.take(f + 1);
    assert(t.drop_last() =~= fs.take(f));
    if f + 1 < fs.len() {
        lemma_fragment_prefix(fs, f + 1);
        let u = fs.take(f + 2);
        assert(u.drop_last() =~= t);
        assert(fragment_choices(u) == fragment_choices(t) + choices_view(fs[f + 1]@));
        assert(fragment_choices(fs).take(fragment_choices(t).len() as int) =~= fragment_choices(
            fs,
        ).take(fragment_choices(u).len() as int).take(fragment_choices(t).len() as int));
        assert(fragment_choices(u).take(fragment_choices(t).len() as int) =~= fragment_choices(t));
    } else {
        assert(t =~= fs);
        assert(fragment_choices(fs).take(fragment_choices(fs).len() as int) =~= fragment_choices(fs));
    }
}

proof fn lemma_select_error_stable(all: Seq<(Seq<char>, Seq<char>)>, fs: Seq<Vec<RegionChoice>>, f: int, j: int)
    requires
        all == fragment_choices(fs),
        0 <= f < fs.len(),
        0 <= j <= fs[f]@.len(),
        select_choices(fragment_choices(fs.take(f)) + choices_view(fs[f]@).take(j)) is Err,
    ensures
        select_choices(all) == select_choices(fragment_choices(fs.take(f)) + choices_view(fs[f]@).take(j)),
{
    lemma_fragment_prefix(fs, f);
    let head = fragment_choices(fs.take(f));
    let p = head + choices_view(fs[f]@).take(j);
    let q = fragment_choices(fs.take(f + 1));
    assert(q == head + choices_view(fs[f]@));
    assert(all.take(q.len() as int) == q);
    assert(all.take(p.len() as int) =~= p) by {
        assert(q.take(p.len() as int) =~= p);
        assert(all.take(p.len() as int) =~= all.take(q.len() as int).take(p.len() as int));
    }
    lemma_select_error_prefix(all, p.len() as int);
}

// ----- rewrite cones of a region -----

/// `b` is a boundary of an e-node of `a`'s class.
pub open spec fn references(space: RegionSpace, a: usize, b: usize) -> bool {
    let c = class_index(space.classes@, a);
    c >= 0 && exists|e: int, k: int|
        0 <= e < space.classes@[c].enodes@.len() && 0 <= k < space.classes@[c].enodes@[e].boundary_anchors@.len()
            && #[trigger] space.classes@[c].enodes@[e].boundary_anchors@[k] == b
}

/// Two occurrences of the region lie in one rewrite cone step: an e-node
/// of one references the other.
pub open spec fn cone_linked(space: RegionSpace, region: Seq<usize>, a: usize, b: usize) -> bool {
    region.contains(a) && region.contains(b) && (references(space, a, b) || references(space, b, a))
}

/// Step `k` of `p` is a cone link.
pub open spec fn link_step(space: RegionSpace, region: Seq<usize>, p: Seq<usize>, k: int) -> bool {
    cone_linked(space, region, p[k], p[k + 1])
}

/// A walk through the region along cone links.
pub open spec fn is_cone_path(space: RegionSpace, region: Seq<usize>, p: Seq<usize>) -> bool {
    &&& p.len() >= 1
    &&& region.contains(p[0])
    &&& forall|k: int| 0 <= k < p.len() - 1 ==> #[trigger] link_step(space, region, p, k)
}

/// `b` is reachable from `a` along cone links.
pub open spec fn cone_connected(space: RegionSpace, region: Seq<usize>, a: usize, b: usize) -> bool {
    exists|p: Seq<usize>| #[trigger] is_cone_path(space, region, p) && p[0] == a && p.last() == b
}

proof fn lemma_path_single(space: RegionSpace, region: Seq<usize>, a: usize)
    requires
        region.contains(a),
    ensures
        cone_connected(space, region, a, a),
{
    let p = seq![a];
    assert(is_cone_path(space, region, p));
}

proof fn lemma_path_extend(space: RegionSpace, region: Seq<usize>, a: usize, b: usize, c: usize)
    requires
        cone_connected(space, region, a, b),
        cone_linked(space, region, b, c),
    ensures
        cone_connected(space, region, a, c),
{
    let p = choose|p: Seq<usize>| #[trigger] is_cone_path(space, region, p) && p[0] == a && p.last() == b;
    let q = p.push(c);
    assert forall|k: int| 0 <= k < q.len() - 1 implies #[trigger] link_step(space, region, q, k) by {
        if k < p.len() - 1 {
            assert(link_step(space, region, p, k));
        }
    }
    assert(is_cone_path(space, region, q));
}

proof fn lemma_linked_symmetric(space: RegionSpace, region: Seq<usize>, a: usize, b: usize)
    requires
        cone_linked(space, region, a, b),
    ensures
        cone_linked(space, region, b, a),
{
}

proof fn lemma_path_reverse(space: RegionSpace, region: Seq<usize>, a: usize, b: usize)
    requires
        cone_connected(space, region, a, b),
    ensures
        cone_connected(space, region, b, a),
{
    let p = choose|p: Seq<usize>| #[trigger] is_cone_path(space, region, p) && p[0] == a && p.last() == b;
    let q = p.reverse();
    assert forall|k: int| 0 <= k < q.len() - 1 implies #[trigger] link_step(space, region, q, k) by {
        let j = p.len() - 2 - k;
        assert(link_step(space, region, p, j));
        assert(q[k] == p[j + 1] && q[k + 1] == p[j]);
    }
    if p.len() > 1 {
        assert(link_step(space, region, p, p.len() - 2));
    }
    assert(region.contains(q[0]));
    assert(is_cone_path(space, region, q));
}

proof fn lemma_path_join(space: RegionSpace, region: Seq<usize>, a: usize, b: usize, c: usize)
    requires
        cone_connected(space, region, a, b),
        cone_connected(space, region, b, c),
    ensures
        cone_connected(space, region, a, c),
{
    let p = choose|p: Seq<usize>| #[trigger] is_cone_path(space, region, p) && p[0] == a && p.last() == b;
    let q = choose|q: Seq<usize>| #[trigger] is_cone_path(space, region, q) && q[0] == b && q.last() == c;
    let r = p + q.drop_first();
    assert forall|k: int| 0 <= k < r.len() - 1 implies #[trigger] link_step(space, region, r, k) by {
        if k < p.len() - 1 {
            assert(link_step(space, region, p, k));
        } else {
            let j = k - (p.len() - 1);
            assert(link_step(space, region, q, j));
            if j == 0 {
                assert(r[k] == p.last());
            }
        }
    }
    if q.len() == 1 {
        assert(r =~= p);
    }
    assert(is_cone_path(space, region, r));
}

/// Whether `b` is a boundary of an e-node of `a`'s class.
fn references_exec(space: &RegionSpace, a: usize, b: usize) -> (r: bool)
    ensures
        r == references(*space, a, b),
{
    let c = match space.class_by_anchor(a) {
        Some(c) => c,
        None => {
            return false;
        },
    };
    proof {
        lemma_class_index(space.classes@, a);
    }
    let es = &space.classes[c].enodes;
    let mut e: usize = 0;
    while e < es.len()
        invariant
            0 <= e <= es@.len(),
            c < space.classes@.len(),
            c as int == class_index(space.classes@, a),
            *es == space.classes@[c as int].enodes,
            forall|x: int, k: int|
                0 <= x < e && 0 <= k < es@[x].boundary_anchors@.len() ==> #[trigger] es@[x].boundary_anchors@[k] != b,
        decreases es.len() - e,
    {
        let bs = &es[e].boundary_anchors;
        let mut k: usize = 0;
        while k < bs.len()
            invariant
                0 <= k <= bs@.len(),
                e < es@.len(),
                c < space.classes@.len(),
                c as int == class_index(space.classes@, a),
                *es == space.classes@[c as int].enodes,
                *bs == es@[e as int].boundary_anchors,
                forall|j: int| 0 <= j < k ==> bs@[j] != b,
                forall|x: int, j: int|
                    0 <= x < e && 0 <= j < es@[x].boundary_anchors@.len() ==> #[trigger] es@[x].boundary_anchors@[j] != b,
            decreases bs.len() - k,
        {
            if bs[k] == b {
                assert(space.classes@[c as int].enodes@[e as int].boundary_anchors@[k as int] == b);
                return true;
            }
            k = k + 1;
        }
        assert forall|x: int, j: int|
            0 <= x < e + 1 && 0 <= j < es@[x].boundary_anchors@.len() implies #[trigger] es@[x].boundary_anchors@[j] != b by {
            if x == e {
                assert(bs@[j] != b);
            }
        }
        e = e + 1;
    }
    false
}

/// The distinct occurrences of a region, in order of first appearance.
fn distinct_anchors(region: &Vec<usize>) -> (r: Vec<usize>)
    ensures
        r@.no_duplicates(),
        forall|x: usize| r@.contains(x) <==> region@.contains(x),
{
    let mut out: Vec<usize> = Vec::new();
    let mut i: usize = 0;
    while i < region.len()
        invariant
            0 <= i <= region@.len(),
            out@.no_duplicates(),
            forall|x: usize| out@.contains(x) <==> region@.take(i as int).contains(x),
        decreases region.len() - i,
    {
        let x = region[i];
        let mut k: usize = 0;
        while k < out.len() && out[k] != x
            invariant
                0 <= k <= out@.len(),
                forall|j: int| 0 <= j < k ==> out@[j] != x,
            decreases out.len() - k,
        {
            k = k + 1;
        }
        let ghost before = out@;
        let ghost t1 = region@.take(i + 1);
        let ghost t0 = region@.take(i as int);
        assert(t1 =~= t0.push(x));
        if k == out.len() {
            out.push(x);
            assert forall|a: int, b: int| 0 <= a < b < out@.len() implies out@[a] != out@[b] by {
                if b == before.len() {
                    assert(out@[a] == before[a]);
                }
            }
            assert forall|y: usize| out@.contains(y) <==> t1.contains(y) by {
                if out@.contains(y) && y != x {
                    let j = choose|j: int| 0 <= j < out@.len() && out@[j] == y;
                    assert(before[j] == y);
                }
                if before.contains(y) {
                    let j = choose|j: int| 0 <= j < before.len() && before[j] == y;
                    assert(out@[j] == y);
                }
                if y == x {
                    assert(out@[before.len() as int] == x);
                    assert(t1[i as int] == x);
                }
                if t1.contains(y) && y != x {
                    let j = choose|j: int| 0 <= j < i + 1 && t1[j] == y;
                    assert(t0[j] == y);
                }
                if t0.contains(y) {
                    let j = choose|j: int| 0 <= j < i && t0[j] == y;
                    assert(t1[j] == y);
                }
            }
        } else {
            assert forall|y: usize| out@.contains(y) <==> t1.contains(y) by {
                if t1.contains(y) && y != x {
                    let j = choose|j: int| 0 <= j < i + 1 && t1[j] == y;
                    assert(t0[j] == y);
                }
                if t0.contains(y) {
                    let j = choose|j: int| 0 <= j < i && t0[j] == y;
                    assert(t1[j] == y);
                }
                if y == x {
                    assert(out@[k as int] == x);
                }
            }
        }
        i = i + 1;
    }
    assert(region@.take(i as int) =~= region@);
    out
}

/// How many entries are set.
pub open spec fn count_some(s: Seq<Option<usize>>) -> nat
    decreases s.len(),
{
    if s.len() == 0 {
        0
    } else {
        count_some(s.drop_last()) + if s.last() is Some {
            1nat
        } else {
            0nat
        }
    }
}

proof fn lemma_count_some_le(s: Seq<Option<usize>>)
    ensures
        count_some(s) <= s.len(),
    decreases s.len(),
{
    if s.len() > 0 {
        lemma_count_some_le(s.drop_last());
    }
}

proof fn lemma_count_some_set(s: Seq<Option<usize>>, i: int, c: usize)
    requires
        0 <= i < s.len(),
        s[i] is None,
    ensures
        count_some(s.update(i, Some(c))) == count_some(s) + 1,
    decreases s.len(),
{
    let t = s.update(i, Some(c));
    if i == s.len() - 1 {
        assert(t.drop_last() =~= s.drop_last());
    } else {
        assert(t.drop_last() =~= s.drop_last().update(i, Some(c)));
        lemma_count_some_set(s.drop_last(), i, c);
    }
}

/// The component labels of the distinct occurrences `d`: labels below
/// `ncomp`, each with a representative reaching every member, and the
/// components below `closed` closed under cone links.
pub open spec fn labeling_ok(
    space: RegionSpace,
    region: Seq<usize>,
    d: Seq<usize>,
    label: Seq<Option<usize>>,
    reps: Seq<int>,
    closed: nat,
) -> bool {
    &&& label.len() == d.len()
    &&& forall|j: int| 0 <= j < d.len() ==> region.contains(#[trigger] d[j])
    &&& forall|j: int| 0 <= j < label.len() && label[j] is Some ==> (#[trigger] label[j])->0 < reps.len()
    &&& forall|c: int| 0 <= c < reps.len() ==> 0 <= #[trigger] reps[c] < d.len() && label[reps[c]] == Some(c as usize)
    &&& forall|j: int|
        0 <= j < label.len() && label[j] is Some ==> cone_connected(space, region, d[reps[(#[trigger] label[j])->0 as int]], d[j])
    &&& forall|j: int, w: int|
        0 <= j < d.len() && 0 <= w < d.len() && label[j] is Some && (label[j]->0 as int) < closed && cone_linked(
            space,
            region,
            #[trigger] d[j],
            #[trigger] d[w],
        ) ==> label[w] == label[j]
}

fn linked_exec(space: &RegionSpace, region: &Vec<usize>, a: usize, b: usize) -> (r: bool)
    requires
        region@.contains(a),
        region@.contains(b),
    ensures
        r == cone_linked(*space, region@, a, b),
{
    references_exec(space, a, b) || references_exec(space, b, a)
}

/// Labels the component of `d[s]` with `c`.
fn label_component(
    space: &RegionSpace,
    region: &Vec<usize>,
    d: &Vec<usize>,
    label: &mut Vec<Option<usize>>,
    s: usize,
    c: usize,
    Ghost(reps): Ghost<Seq<int>>,
)
    requires
        s < d@.len(),
        old(label)@[s as int] is None,
        c == reps.len(),
        labeling_ok(*space, region@, d@, old(label)@, reps, c as nat),
    ensures
        labeling_ok(*space, region@, d@, final(label)@, reps.push(s as int), (c + 1) as nat),
        count_some(final(label)@) >= count_some(old(label)@),
        forall|j: int| 0 <= j < d@.len() && old(label)@[j] is Some ==> final(label)@[j] == old(label)@[j],
{
    let n = d.len();
    let ghost reps2 = reps.push(s as int);
    proof {
        lemma_count_some_set(label@, s as int, c);
        lemma_path_single(*space, region@, d@[s as int]);
    }
    let ghost start = label@;
    label.set(s, Some(c));
    let mut queue: Vec<usize> = vec![s];
    let mut head: usize = 0;
    proof {
        lemma_count_some_le(label@);
        assert forall|j: int| 0 <= j < label@.len() && label@[j] is Some implies cone_connected(
            *space,
            region@,
            d@[reps2[(#[trigger] label@[j])->0 as int]],
            d@[j],
        ) by {
            if j != s {
                assert(label@[j] == start[j]);
            }
        }
        assert forall|j: int, w: int|
            0 <= j < d@.len() && 0 <= w < d@.len() && label@[j] is Some && (label@[j]->0 as int) < c
                && cone_linked(*space, region@, #[trigger] d@[j], #[trigger] d@[w]) implies label@[w]
            == label@[j] by {
            assert(label@[j] == start[j]);
            if w == s {
                assert(start[w] == start[j]);
            }
        }
    }
    while head < queue.len()
        invariant
            n == d@.len(),
            label@.len() == n,
            0 <= head <= queue@.len(),
            queue@.len() + count_some(start) + 1 == count_some(label@) + 1,
            count_some(label@) <= n,
            c == reps.len(),
            reps2 == reps.push(s as int),
            labeling_ok(*space, region@, d@, label@, reps2, c as nat),
            forall|k: int| 0 <= k < queue@.len() ==> #[trigger] queue@[k] < n,
            forall|k: int| 0 <= k < queue@.len() ==> label@[#[trigger] queue@[k] as int] == Some(c),
            forall|j: int| 0 <= j < n && #[trigger] label@[j] == Some(c) ==> queue@.contains(j as usize),
            forall|k: int, w: int|
                0 <= k < head && 0 <= w < n && cone_linked(*space, region@, d@[#[trigger] queue@[k] as int], #[trigger] d@[w])
                    ==> label@[w] == Some(c),
            forall|j: int| 0 <= j < n && start[j] is Some ==> label@[j] == start[j],
            count_some(label@) >= count_some(start),
        decreases n - head,
    {
        let u = queue[head];
        let ghost before_label = label@;
        let mut w: usize = 0;
        while w < n
            invariant
                0 <= w <= n,
                n == d@.len(),
                label@.len() == n,
                u < n,
                label@[u as int] == Some(c),
                head < queue@.len(),
                queue@[head as int] == u,
                queue@.len() + count_some(start) + 1 == count_some(label@) + 1,
                count_some(label@) <= n,
                c == reps.len(),
                reps2 == reps.push(s as int),
                labeling_ok(*space, region@, d@, label@, reps2, c as nat),
                forall|k: int| 0 <= k < queue@.len() ==> #[trigger] queue@[k] < n,
                forall|k: int| 0 <= k < queue@.len() ==> label@[#[trigger] queue@[k] as int] == Some(c),
                forall|j: int| 0 <= j < n && #[trigger] label@[j] == Some(c) ==> queue@.contains(j as usize),
                forall|k: int, x: int|
                    0 <= k < head && 0 <= x < n && cone_linked(*space, region@, d@[#[trigger] queue@[k] as int], #[trigger] d@[x])
                        ==> label@[x] == Some(c),
                forall|x: int| 0 <= x < w && cone_linked(*space, region@, d@[u as int], #[trigger] d@[x]) ==> label@[x] == Some(c),
                forall|j: int| 0 <= j < n && start[j] is Some ==> label@[j] == start[j],
                count_some(label@) >= count_some(start),
            decreases n - w,
        {
            if label[w].is_none() {
                if linked_exec(space, region, d[u], d[w]) {
                    let ghost prev = label@;
                    let ghost prevq = queue@;
                    proof {
                        lemma_count_some_set(label@, w as int, c);
                        lemma_path_extend(*space, region@, d@[s as int], d@[u as int], d@[w as int]);
                    }
                    label.set(w, Some(c));
                    queue.push(w);
                    proof {
                        lemma_count_some_le(label@);
                        assert forall|j: int| 0 <= j < label@.len() && label@[j] is Some implies cone_connected(
                            *space,
                            region@,
                            d@[reps2[(#[trigger] label@[j])->0 as int]],
                            d@[j],
                        ) by {
                            if j != w {
                                assert(label@[j] == prev[j]);
                            }
                        }
                        assert forall|j: int, x: int|
                            0 <= j < d@.len() && 0 <= x < d@.len() && label@[j] is Some && (label@[j]->0 as int) < c
                                && cone_linked(*space, region@, #[trigger] d@[j], #[trigger] d@[x]) implies label@[x]
                            == label@[j] by {
                            if j != w {
                                assert(label@[j] == prev[j]);
                                if x == w {
                                    assert(prev[x] == prev[j]);
                                }
                            }
                        }
                        assert forall|j: int| 0 <= j < n && #[trigger] label@[j] == Some(c) implies queue@.contains(
                            j as usize,
                        ) by {
                            if j == w {
                                assert(queue@[prevq.len() as int] == w);
                            } else {
                                assert(prev[j] == Some(c));
                                let k = choose|k: int| 0 <= k < prevq.len() && prevq[k] == j as usize;
                                assert(queue@[k] == j as usize);
                            }
                        }
                        assert forall|k: int| 0 <= k < queue@.len() implies label@[#[trigger] queue@[k] as int] == Some(c) by {
                            if k < prevq.len() {
                                assert(queue@[k] == prevq[k]);
                            }
                        }
                        assert forall|k: int, x: int|
                            0 <= k < head && 0 <= x < n && cone_linked(*space, region@, d@[#[trigger] queue@[k] as int], #[trigger] d@[x])
                                implies label@[x] == Some(c) by {
                            assert(queue@[k] == prevq[k]);
                        }
                    }
                }
            } else {
                proof {
                    if cone_linked(*space, region@, d@[u as int], d@[w as int]) && label@[w as int] != Some(c) {
                        let cw = label@[w as int]->0;
                        lemma_linked_symmetric(*space, region@, d@[u as int], d@[w as int]);
                        assert(label@[u as int] == label@[w as int]);
                    }
                }
            }
            w = w + 1;
        }
        head = head + 1;
    }
    proof {
        assert forall|j: int, x: int|
            0 <= j < d@.len() && 0 <= x < d@.len() && label@[j] is Some && (label@[j]->0 as int) < c + 1
                && cone_linked(*space, region@, #[trigger] d@[j], #[trigger] d@[x]) implies label@[x] == label@[j] by {
            if label@[j] == Some(c) {
                let k = choose|k: int| 0 <= k < queue@.len() && queue@[k] == j as usize;
                assert(d@[queue@[k] as int] == d@[j]);
            }
        }
    }
}

/// The first position of `v` in `d` (-1 when absent).
pub open spec fn pos_in(d: Seq<usize>, v: usize) -> int
    decreases d.len(),
{
    if d.len() == 0 {
        -1
    } else {
        let f = pos_in(d.drop_last(), v);
        if f >= 0 {
            f
        } else if d.last() == v {
            d.len() - 1
        } else {
            -1
        }
    }
}

proof fn lemma_pos_in(d: Seq<usize>, v: usize)
    ensures
        -1 <= pos_in(d, v) < d.len(),
        pos_in(d, v) >= 0 ==> d[pos_in(d, v)] == v,
        d.contains(v) ==> pos_in(d, v) >= 0,
    decreases d.len(),
{
    if d.len() > 0 {
        lemma_pos_in(d.drop_last(), v);
        if d.contains(v) && pos_in(d.drop_last(), v) < 0 {
            let j = choose|j: int| 0 <= j < d.len() && d[j] == v;
            if j < d.len() - 1 {
                assert(d.drop_last()[j] == v);
            }
        }
    }
}

/// The component label of occurrence `v`.
pub open spec fn label_of(d: Seq<usize>, label: Seq<Option<usize>>, v: usize) -> Option<usize> {
    label[pos_in(d, v)]
}

#[verifier::rlimit(40)]
proof fn lemma_path_labels(
    space: RegionSpace,
    region: Seq<usize>,
    d: Seq<usize>,
    label: Seq<Option<usize>>,
    reps: Seq<int>,
    p: Seq<usize>,
)
    requires
        labeling_ok(space, region, d, label, reps, reps.len()),
        forall|x: usize| d.contains(x) <==> region.contains(x),
        forall|j: int| 0 <= j < label.len() ==> (#[trigger] label[j]) is Some,
        is_cone_path(space, region, p),
    ensures
        label_of(d, label, p.last()) == label_of(d, label, p[0]),
    decreases p.len(),
{
    if p.len() > 1 {
        let q = p.drop_last();
        assert forall|k: int| 0 <= k < q.len() - 1 implies #[trigger] link_step(space, region, q, k) by {
            assert(link_step(space, region, p, k));
        }
        lemma_path_labels(space, region, d, label, reps, q);
        let a = p[p.len() - 2];
        let b = p.last();
        assert(link_step(space, region, p, p.len() - 2));
        lemma_pos_in(d, a);
        lemma_pos_in(d, b);
        let ja = pos_in(d, a);
        let jb = pos_in(d, b);
        assert(cone_linked(space, region, d[ja], d[jb]));
        assert(label[ja] is Some);
    }
}

/// Labels every distinct occurrence with its component.
fn label_all(space: &RegionSpace, region: &Vec<usize>, d: &Vec<usize>) -> (r: (Vec<Option<usize>>, Ghost<Seq<int>>))
    requires
        forall|j: int| 0 <= j < d@.len() ==> region@.contains(#[trigger] d@[j]),
    ensures
        labeling_ok(*space, region@, d@, r.0@, r.1@, r.1@.len()),
        forall|j: int| 0 <= j < r.0@.len() ==> (#[trigger] r.0@[j]) is Some,
        r.1@.len() <= d@.len(),
{
    let n = d.len();
    let mut label: Vec<Option<usize>> = Vec::new();
    let mut k: usize = 0;
    while k < n
        invariant
            0 <= k <= n,
            n == d@.len(),
            label@.len() == k,
            forall|j: int| 0 <= j < k ==> (#[trigger] label@[j]) is None,
        decreases n - k,
    {
        label.push(None);
        k = k + 1;
    }
    let ghost mut reps: Seq<int> = Seq::empty();
    let mut ncomp: usize = 0;
    let mut i: usize = 0;
    while i < n
        invariant
            0 <= i <= n,
            n == d@.len(),
            ncomp == reps.len(),
            ncomp <= i,
            forall|j: int| 0 <= j < d@.len() ==> region@.contains(#[trigger] d@[j]),
            labeling_ok(*space, region@, d@, label@, reps, reps.len()),
            forall|j: int| 0 <= j < i ==> (#[trigger] label@[j]) is Some,
        decreases n - i,
    {
        if label[i].is_none() {
            label_component(space, region, d, &mut label, i, ncomp, Ghost(reps));
            proof {
                assert(reps.push(i as int)[ncomp as int] == i as int);
                reps = reps.push(i as int);
            }
            ncomp = ncomp + 1;
        }
        i = i + 1;
    }
    (label, Ghost(reps))
}

/// A copy of the occurrences in increasing order.
fn sort_anchors(v: &Vec<usize>) -> (r: Vec<usize>)
    ensures
        forall|i: int, j: int| 0 <= i < j < r@.len() ==> r@[i] <= r@[j],
        r@.to_multiset() == v@.to_multiset(),
{
    broadcast use vstd::seq_lib::group_to_multiset_ensures;
    let mut r: Vec<usize> = Vec::new();
    let mut i: usize = 0;
    while i < v.len()
        invariant
            0 <= i <= v@.len(),
            forall|a: int, b: int| 0 <= a < b < r@.len() ==> r@[a] <= r@[b],
            r@.to_multiset() == v@.take(i as int).to_multiset(),
        decreases v.len() - i,
    {
        let x = v[i];
        let mut p: usize = 0;
        while p < r.len() && r[p] <= x
            invariant
                0 <= p <= r@.len(),
                forall|j: int| 0 <= j < p ==> r@[j] <= x,
            decreases r.len() - p,
        {
            p = p + 1;
        }
        let ghost before = r@;
        r.insert(p, x);
        assert(r@ == before.insert(p as int, x));
        assert(v@.take(i + 1) =~= v@.take(i as int).push(x));
        proof {
            vstd::seq_lib::to_multiset_insert(before, p as int, x);
            vstd::seq_lib::to_multiset_build(v@.take(i as int), x);
        }
        assert forall|a: int, b: int| 0 <= a < b < r@.len() implies r@[a] <= r@[b] by {
            if b < p {
                assert(r@[a] == before[a] && r@[b] == before[b]);
            } else if b == p {
                assert(r@[a] == before[a]);
            } else if a < p {
                assert(r@[a] == before[a] && r@[b] == before[b - 1]);
                assert(before[p as int] > x);
                assert(before[p as int] <= before[b - 1]);
            } else if a == p {
                assert(r@[b] == before[b - 1]);
                assert(before[p as int] <= before[b - 1]);
            } else {
                assert(r@[a] == before[a - 1] && r@[b] == before[b - 1]);
            }
        }
        i = i + 1;
    }
    assert(v@.take(i as int) =~= v@);
    r
}

/// The occurrences of all groups, as a multiset.
pub open spec fn groups_multiset(gs: Seq<Seq<usize>>) -> Multiset<usize>
    decreases gs.len(),
{
    if gs.len() == 0 {
        Multiset::empty()
    } else {
        groups_multiset(gs.drop_last()).add(gs.last().to_multiset())
    }
}

/// The groups are the rewrite cones of the region: each non-empty and in
/// increasing order, ordered by their first occurrence, together the
/// region's occurrences, two occurrences in one group exactly when cone
/// links connect them.
pub open spec fn are_cone_components(space: RegionSpace, region: Seq<usize>, gs: Seq<Seq<usize>>) -> bool {
    &&& forall|g: int| 0 <= g < gs.len() ==> (#[trigger] gs[g]).len() > 0
    &&& forall|g: int, i: int, j: int| 0 <= g < gs.len() && 0 <= i < j < gs[g].len() ==> #[trigger] gs[g][i] <= #[trigger] gs[g][j]
    &&& forall|g: int, h: int| 0 <= g < h < gs.len() ==> (#[trigger] gs[g])[0] < (#[trigger] gs[h])[0]
    &&& groups_multiset(gs) == region.to_multiset()
    &&& forall|g: int, i: int, j: int|
        0 <= g < gs.len() && 0 <= i < gs[g].len() && 0 <= j < gs[g].len() ==> cone_connected(
            space,
            region,
            #[trigger] gs[g][i],
            #[trigger] gs[g][j],
        )
    &&& forall|g: int, h: int, i: int, j: int|
        0 <= g < gs.len() && 0 <= h < gs.len() && g != h && 0 <= i < gs[g].len() && 0 <= j < gs[h].len()
            ==> !cone_connected(space, region, #[trigger] gs[g][i], #[trigger] gs[h][j])
}

proof fn lemma_groups_multiset_push(gs: Seq<Seq<usize>>, g: int, v: usize)
    requires
        0 <= g < gs.len(),
    ensures
        groups_multiset(gs.update(g, gs[g].push(v))) == groups_multiset(gs).insert(v),
    decreases gs.len(),
{
    broadcast use vstd::seq_lib::group_to_multiset_ensures;
    broadcast use vstd::multiset::group_multiset_axioms;
    let t = gs.update(g, gs[g].push(v));
    if g == gs.len() - 1 {
        assert(t.drop_last() =~= gs.drop_last());
        assert(t.last().to_multiset() =~= gs.last().to_multiset().insert(v));
        assert(groups_multiset(t) =~= groups_multiset(gs).insert(v));
    } else {
        assert(t.drop_last() =~= gs.drop_last().update(g, gs[g].push(v)));
        lemma_groups_multiset_push(gs.drop_last(), g, v);
        assert(groups_multiset(t) =~= groups_multiset(gs).insert(v));
    }
}

/// The values of a list of groups.
pub open spec fn groups_view(gs: Seq<Vec<usize>>) -> Seq<Seq<usize>> {
    gs.map_values(|g: Vec<usize>| g@)
}

proof fn lemma_pos_unique(d: Seq<usize>, j: int)
    requires
        d.no_duplicates(),
        0 <= j < d.len(),
    ensures
        pos_in(d, d[j]) == j,
{
    lemma_pos_in(d, d[j]);
    assert(d.contains(d[j]));
}

/// The facts the grouping of a region's sorted occurrences relies on.
pub open spec fn grouping_base(
    space: RegionSpace,
    region: Seq<usize>,
    d: Seq<usize>,
    label: Seq<Option<usize>>,
    reps: Seq<int>,
    sv: Seq<usize>,
) -> bool {
    &&& sv.to_multiset() == region.to_multiset()
    &&& forall|i: int, j: int| 0 <= i < j < sv.len() ==> sv[i] <= sv[j]
    &&& d.no_duplicates()
    &&& forall|x: usize| d.contains(x) <==> region.contains(x)
    &&& forall|j: int| 0 <= j < d.len() ==> region.contains(#[trigger] d[j])
    &&& label.len() == d.len()
    &&& forall|j: int| 0 <= j < label.len() ==> (#[trigger] label[j]) is Some
    &&& labeling_ok(space, region, d, label, reps, reps.len())
    &&& reps.len() <= d.len()
}

/// The groups after the first `k` sorted occurrences: `cg` gives each
/// group's component and `comp_group` each component's group.
pub open spec fn grouping_ok(
    region: Seq<usize>,
    d: Seq<usize>,
    label: Seq<Option<usize>>,
    sv: Seq<usize>,
    k: int,
    gs: Seq<Seq<usize>>,
    cg: Seq<usize>,
    comp_group: Seq<Option<usize>>,
) -> bool {
    &&& 0 <= k <= sv.len()
    &&& k == 0 ==> gs.len() == 0
    &&& comp_group.len() == d.len()
    &&& gs.len() == cg.len()
    &&& forall|g: int| 0 <= g < gs.len() ==> (#[trigger] gs[g]).len() > 0
    &&& forall|g: int, t: int|
        0 <= g < gs.len() && 0 <= t < gs[g].len() ==> region.contains(#[trigger] gs[g][t]) && label_of(d, label, gs[g][t])
            == Some(cg[g])
    &&& forall|g: int|
        0 <= g < cg.len() ==> (#[trigger] cg[g]) < comp_group.len() && comp_group[cg[g] as int] is Some && (
        comp_group[cg[g] as int]->0 as int) == g
    &&& forall|c: int|
        0 <= c < comp_group.len() && (#[trigger] comp_group[c]) is Some ==> (comp_group[c]->0 as int) < cg.len()
            && cg[comp_group[c]->0 as int] == c
    &&& forall|g: int, i: int, j: int| 0 <= g < gs.len() && 0 <= i < j < gs[g].len() ==> #[trigger] gs[g][i] <= #[trigger] gs[g][j]
    &&& forall|g: int, h: int| 0 <= g < h < gs.len() ==> (#[trigger] gs[g])[0] < (#[trigger] gs[h])[0]
    &&& k > 0 ==> forall|g: int, t: int| 0 <= g < gs.len() && 0 <= t < gs[g].len() ==> #[trigger] gs[g][t] <= sv[k - 1]
    &&& groups_multiset(gs) == sv.take(k).to_multiset()
}

fn find_pos(d: &Vec<usize>, v: usize) -> (j: usize)
    requires
        d@.contains(v),
        d@.no_duplicates(),
    ensures
        j < d@.len(),
        d@[j as int] == v,
        pos_in(d@, v) == j,
{
    let mut j: usize = 0;
    while j < d.len() && d[j] != v
        invariant
            0 <= j <= d@.len(),
            d@.contains(v),
            forall|t: int| 0 <= t < j ==> d@[t] != v,
        decreases d.len() - j,
    {
        j = j + 1;
    }
    assert(j < d@.len()) by {
        if j == d@.len() {
            let t = choose|t: int| 0 <= t < d@.len() && d@[t] == v;
        }
    }
    proof {
        lemma_pos_unique(d@, j as int);
    }
    j
}

/// Adds the `k`-th sorted occurrence `v`, of component `c`, to its group.
fn add_sorted(
    groups: &mut Vec<Vec<usize>>,
    comp_group: &mut Vec<Option<usize>>,
    v: usize,
    c: usize,
    Ghost(region): Ghost<Seq<usize>>,
    Ghost(d): Ghost<Seq<usize>>,
    Ghost(label): Ghost<Seq<Option<usize>>>,
    Ghost(sv): Ghost<Seq<usize>>,
    Ghost(k): Ghost<int>,
    Ghost(cg): Ghost<Seq<usize>>,
) -> (ncg: Ghost<Seq<usize>>)
    requires
        grouping_ok(region, d, label, sv, k, groups_view(old(groups)@), cg, old(comp_group)@),
        0 <= k < sv.len(),
        sv[k] == v,
        region.contains(v),
        label_of(d, label, v) == Some(c),
        c < d.len(),
        forall|i: int, j: int| 0 <= i < j < sv.len() ==> sv[i] <= sv[j],
    ensures
        grouping_ok(region, d, label, sv, k + 1, groups_view(final(groups)@), ncg@, final(comp_group)@),
{
    broadcast use vstd::seq_lib::group_to_multiset_ensures;
    broadcast use vstd::multiset::group_multiset_axioms;
    let ghost gv = groups_view(groups@);
    assert(sv.take(k + 1) =~= sv.take(k).push(v));
    proof {
        vstd::seq_lib::to_multiset_build(sv.take(k), v);
    }
    match comp_group[c] {
        Some(g) => {
            let mut grp = groups.remove(g);
            grp.push(v);
            groups.insert(g, grp);
            let ghost nv = groups_view(groups@);
            proof {
                assert(nv =~= gv.update(g as int, gv[g as int].push(v)));
                lemma_groups_multiset_push(gv, g as int, v);
                assert forall|g2: int, t: int| 0 <= g2 < nv.len() && 0 <= t < nv[g2].len() implies #[trigger] nv[g2][t]
                    <= sv[k] by {
                    if !(g2 == g && t == nv[g2].len() - 1) {
                        assert(nv[g2][t] == gv[g2][t]);
                        assert(sv[k - 1] <= sv[k]);
                    }
                }
                assert forall|g2: int, i: int, j2: int|
                    0 <= g2 < nv.len() && 0 <= i < j2 < nv[g2].len() implies #[trigger] nv[g2][i] <= #[trigger] nv[g2][j2] by {
                    assert(nv[g2][i] == gv[g2][i]);
                    if g2 == g && j2 == nv[g2].len() - 1 {
                        assert(gv[g2][i] <= sv[k - 1]);
                        assert(sv[k - 1] <= sv[k]);
                    } else {
                        assert(nv[g2][j2] == gv[g2][j2]);
                    }
                }
                assert forall|g2: int, h: int| 0 <= g2 < h < nv.len() implies (#[trigger] nv[g2])[0] < (#[trigger] nv[h])[0] by {
                    assert(nv[g2][0] == gv[g2][0]);
                    assert(nv[h][0] == gv[h][0]);
                }
                assert forall|g2: int, t: int| 0 <= g2 < nv.len() && 0 <= t < nv[g2].len() implies region.contains(
                    #[trigger] nv[g2][t],
                ) && label_of(d, label, nv[g2][t]) == Some(cg[g2]) by {
                    if !(g2 == g && t == nv[g2].len() - 1) {
                        assert(nv[g2][t] == gv[g2][t]);
                    }
                }
            }
            Ghost(cg)
        },
        None => {
            let ng = groups.len();
            let single = vec![v];
            assert(single@ =~= seq![v]);
            groups.push(single);
            comp_group.set(c, Some(ng));
            let ghost ncg = cg.push(c);
            let ghost nv = groups_view(groups@);
            proof {
                assert(nv =~= gv.push(seq![v]));
                assert(nv.drop_last() =~= gv);
                assert(nv.last() == seq![v]);
                assert(seq![v].to_multiset() =~= Multiset::<usize>::empty().insert(v)) by {
                    vstd::seq_lib::to_multiset_build(Seq::<usize>::empty(), v);
                    assert(Seq::<usize>::empty().push(v) =~= seq![v]);
                }
                assert(groups_multiset(nv) =~= groups_multiset(gv).add(seq![v].to_multiset()));
                assert(groups_multiset(nv) =~= groups_multiset(gv).insert(v));
                assert forall|h: int| 0 <= h < ng implies (#[trigger] gv[h])[0] < v by {
                    assert(gv[h][0] <= sv[k - 1]);
                    assert(sv[k - 1] <= sv[k]);
                    if gv[h][0] == v {
                        assert(label_of(d, label, gv[h][0]) == Some(cg[h]));
                    }
                }
                assert forall|g2: int, h: int| 0 <= g2 < h < nv.len() implies (#[trigger] nv[g2])[0] < (#[trigger] nv[h])[0] by {
                    assert(nv[g2] == gv[g2]);
                    if h < ng {
                        assert(nv[h] == gv[h]);
                    }
                }
                assert forall|g2: int, t: int| 0 <= g2 < nv.len() && 0 <= t < nv[g2].len() implies #[trigger] nv[g2][t]
                    <= sv[k] by {
                    if g2 < ng {
                        assert(nv[g2] == gv[g2]);
                        assert(sv[k - 1] <= sv[k]);
                    }
                }
                assert forall|g2: int, i: int, j2: int|
                    0 <= g2 < nv.len() && 0 <= i < j2 < nv[g2].len() implies #[trigger] nv[g2][i] <= #[trigger] nv[g2][j2] by {
                    assert(nv[g2] == gv[g2]);
                }
                assert forall|g2: int, t: int| 0 <= g2 < nv.len() && 0 <= t < nv[g2].len() implies region.contains(
                    #[trigger] nv[g2][t],
                ) && label_of(d, label, nv[g2][t]) == Some(ncg[g2]) by {
                    if g2 < ng {
                        assert(nv[g2] == gv[g2]);
                    }
                }
                assert forall|g2: int| 0 <= g2 < ncg.len() implies (#[trigger] ncg[g2]) < comp_group@.len()
                    && comp_group@[ncg[g2] as int] is Some && (comp_group@[ncg[g2] as int]->0 as int) == g2 by {
                    if g2 < ng {
                        assert(ncg[g2] == cg[g2]);
                        assert(cg[g2] != c);
                    }
                }
                assert forall|c2: int|
                    0 <= c2 < comp_group@.len() && (#[trigger] comp_group@[c2]) is Some implies (comp_group@[c2]->0 as int) < ncg.len()
                        && ncg[comp_group@[c2]->0 as int] == c2 by {
                    if c2 != c {
                        assert(comp_group@[c2] == old(comp_group)@[c2]);
                    }
                }
            }
            Ghost(ncg)
        },
    }
}

/// Partitions a region into its rewrite cones: occurrences joined when an
/// e-node of one references the other, each cone in increasing order, the
/// cones ordered by their first occurrence.
pub fn macro_components(space: &RegionSpace, region: &Vec<usize>) -> (r: Vec<Vec<usize>>)
    ensures
        are_cone_components(*space, region@, groups_view(r@)),
{
    broadcast use vstd::seq_lib::group_to_multiset_ensures;
    let d = distinct_anchors(region);
    assert forall|j: int| 0 <= j < d@.len() implies region@.contains(#[trigger] d@[j]) by {
        assert(d@.contains(d@[j]));
    }
    let (label, Ghost(reps)) = label_all(space, region, &d);
    let sorted = sort_anchors(region);
    let ghost sv = sorted@;
    let mut comp_group: Vec<Option<usize>> = Vec::new();
    let mut c0: usize = 0;
    while c0 < d.len()
        invariant
            0 <= c0 <= d@.len(),
            comp_group@.len() == c0,
            forall|c: int| 0 <= c < c0 ==> (#[trigger] comp_group@[c]) is None,
        decreases d.len() - c0,
    {
        comp_group.push(None);
        c0 = c0 + 1;
    }
    let mut groups: Vec<Vec<usize>> = Vec::new();
    let ghost mut cg: Seq<usize> = Seq::empty();
    let mut k: usize = 0;
    assert(sv.take(0).to_multiset() =~= Multiset::<usize>::empty());
    assert(groups_multiset(groups_view(groups@)) =~= Multiset::<usize>::empty());
    assert(grouping_ok(region@, d@, label@, sv, 0, groups_view(groups@), cg, comp_group@));
    while k < sorted.len()
        invariant
            sv == sorted@,
            grouping_base(*space, region@, d@, label@, reps, sv),
            grouping_ok(region@, d@, label@, sv, k as int, groups_view(groups@), cg, comp_group@),
        decreases sv.len() - k,
    {
        let v = sorted[k];
        proof {
            assert(sv[k as int] == v);
            assert(sv.contains(v));
            sv.to_multiset_ensures();
            region@.to_multiset_ensures();
            assert(sv.to_multiset().count(v) > 0);
            assert(region@.to_multiset().count(v) > 0);
            assert(region@.contains(v));
        }
        let j = find_pos(&d, v);
        let c = match label[j] {
            Some(c) => c,
            None => {
                assert(label@[j as int] is Some);
                0
            },
        };
        assert(c < reps.len());
        let Ghost(ncg) = add_sorted(
            &mut groups,
            &mut comp_group,
            v,
            c,
            Ghost(region@),
            Ghost(d@),
            Ghost(label@),
            Ghost(sv),
            Ghost(k as int),
            Ghost(cg),
        );
        proof {
            cg = ncg;
        }
        k = k + 1;
    }
    assert(sv.take(k as int) =~= sv);
    proof {
        lemma_groups_connected(*space, region@, d@, label@, reps, groups_view(groups@), cg, comp_group@, sv, k as int);
        lemma_groups_separated(*space, region@, d@, label@, reps, groups_view(groups@), cg, comp_group@, sv, k as int);
    }
    groups
}

proof fn lemma_groups_connected(
    space: RegionSpace,
    region: Seq<usize>,
    d: Seq<usize>,
    label: Seq<Option<usize>>,
    reps: Seq<int>,
    gs: Seq<Seq<usize>>,
    cg: Seq<usize>,
    comp_group: Seq<Option<usize>>,
    sv: Seq<usize>,
    k: int,
)
    requires
        grouping_base(space, region, d, label, reps, sv),
        grouping_ok(region, d, label, sv, k, gs, cg, comp_group),
    ensures
        forall|g: int, i: int, j: int|
            0 <= g < gs.len() && 0 <= i < gs[g].len() && 0 <= j < gs[g].len() ==> cone_connected(
                space,
                region,
                #[trigger] gs[g][i],
                #[trigger] gs[g][j],
            ),
{
    assert forall|g: int, i: int, j: int|
        0 <= g < gs.len() && 0 <= i < gs[g].len() && 0 <= j < gs[g].len() implies cone_connected(
            space,
            region,
            #[trigger] gs[g][i],
            #[trigger] gs[g][j],
        ) by {
        let x = gs[g][i];
        let y = gs[g][j];
        lemma_pos_in(d, x);
        lemma_pos_in(d, y);
        let c = cg[g];
        assert(label[pos_in(d, x)] == Some(c));
        assert(label[pos_in(d, y)] == Some(c));
        assert(cone_connected(space, region, d[reps[c as int]], d[pos_in(d, x)]));
        assert(cone_connected(space, region, d[reps[c as int]], d[pos_in(d, y)]));
        lemma_path_reverse(space, region, d[reps[c as int]], x);
        lemma_path_join(space, region, x, d[reps[c as int]], y);
    }
}

proof fn lemma_groups_separated(
    space: RegionSpace,
    region: Seq<usize>,
    d: Seq<usize>,
    label: Seq<Option<usize>>,
    reps: Seq<int>,
    gs: Seq<Seq<usize>>,
    cg: Seq<usize>,
    comp_group: Seq<Option<usize>>,
    sv: Seq<usize>,
    k: int,
)
    requires
        grouping_base(space, region, d, label, reps, sv),
        grouping_ok(region, d, label, sv, k, gs, cg, comp_group),
    ensures
        forall|g: int, h: int, i: int, j: int|
            0 <= g < gs.len() && 0 <= h < gs.len() && g != h && 0 <= i < gs[g].len() && 0 <= j < gs[h].len()
                ==> !cone_connected(space, region, #[trigger] gs[g][i], #[trigger] gs[h][j]),
{
    assert forall|g: int, h: int, i: int, j: int|
        0 <= g < gs.len() && 0 <= h < gs.len() && g != h && 0 <= i < gs[g].len() && 0 <= j < gs[h].len()
            implies !cone_connected(space, region, #[trigger] gs[g][i], #[trigger] gs[h][j]) by {
        let x = gs[g][i];
        let y = gs[h][j];
        if cone_connected(space, region, x, y) {
            let p = choose|p: Seq<usize>| #[trigger] is_cone_path(space, region, p) && p[0] == x && p.last() == y;
            lemma_path_labels(space, region, d, label, reps, p);
            assert(label_of(d, label, x) == Some(cg[g]));
            assert(label_of(d, label, y) == Some(cg[h]));
            assert(cg[g] == cg[h]);
        }
    }
}

} // verus!
