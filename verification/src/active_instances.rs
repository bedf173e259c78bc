//! Which instances stay active in a capped sizing pass on large paths.
//!
//! When more instances could be resized than the cap allows, the eligible
//! instances are ranked three times (by timing, area and power
//! sensitivity).  Each ranking first gets its share of the cap, in that
//! order; the remaining slots are then filled round-robin from the three
//! rankings with one shared cursor.  The rankings themselves come from
//! floating-point scores and are computed by the caller.
use vstd::prelude::*;

use crate::equivalence::{sorted_unique, strictly_increasing};

verus! {

/// `s` with `x` added at its end unless already present.
pub open spec fn with_member(s: Seq<usize>, x: usize) -> Seq<usize> {
    if s.contains(x) {
        s
    } else {
        s.push(x)
    }
}

/// Admits from `ranked[k..]`, in order, until `s` holds `slots` instances.
pub open spec fn take_share(s: Seq<usize>, ranked: Seq<usize>, k: nat, slots: nat) -> Seq<usize>
    decreases ranked.len() - k,
{
    if k >= ranked.len() || s.len() >= slots {
        s
    } else {
        take_share(with_member(s, ranked[k as int]), ranked, k + 1, slots)
    }
}

/// Walks `ranked` from cursor `c` to the first instance not yet in `s` and
/// admits it: the new list, the cursor left on that instance (or at the
/// end), and whether one was admitted.
pub open spec fn scan(s: Seq<usize>, ranked: Seq<usize>, c: nat) -> (Seq<usize>, nat, bool)
    decreases ranked.len() - c,
{
    if c >= ranked.len() {
        (s, c, false)
    } else if !s.contains(ranked[c as int]) {
        (s.push(ranked[c as int]), c, true)
    } else {
        scan(s, ranked, c + 1)
    }
}

/// One round over the three rankings with the shared cursor, stopping as
/// soon as the cap is reached.
pub open spec fn sweep(
    s: Seq<usize>,
    t: Seq<usize>,
    a: Seq<usize>,
    p: Seq<usize>,
    c: nat,
    cap: nat,
) -> (Seq<usize>, nat, bool) {
    let r1 = scan(s, t, c);
    if r1.0.len() == cap {
        r1
    } else {
        let r2 = scan(r1.0, a, r1.1);
        if r2.0.len() == cap {
            (r2.0, r2.1, r1.2 || r2.2)
        } else {
            let r3 = scan(r2.0, p, r2.1);
            (r3.0, r3.1, r1.2 || r2.2 || r3.2)
        }
    }
}

/// Rounds until the cap is reached or a round admits nothing; the cursor
/// moves on by one after each round.  `fuel` bounds the number of rounds.
pub open spec fn fill(
    s: Seq<usize>,
    t: Seq<usize>,
    a: Seq<usize>,
    p: Seq<usize>,
    c: nat,
    cap: nat,
    fuel: nat,
) -> Seq<usize>
    decreases fuel,
{
    if fuel == 0 || s.len() >= cap {
        s
    } else {
        let r = sweep(s, t, a, p, c, cap);
        if !r.2 {
            r.0
        } else {
            fill(r.0, t, a, p, r.1 + 1, cap, (fuel - 1) as nat)
        }
    }
}

pub open spec fn min_nat(x: nat, y: nat) -> nat {
    if x <= y {
        x
    } else {
        y
    }
}

/// The instances admitted, in admission order: every eligible one when
/// they fit under the cap; else the shares of the timing, area and power
/// rankings (each bounded by the cap) and then the round-robin fill.
pub open spec fn active_selection(
    eligible: Seq<usize>,
    t: Seq<usize>,
    a: Seq<usize>,
    p: Seq<usize>,
    cap: nat,
    timing_slots: nat,
    area_slots: nat,
    power_slots: nat,
) -> Seq<usize> {
    if eligible.len() <= cap {
        eligible
    } else {
        let ts = min_nat(timing_slots, cap);
        let at = min_nat(ts + area_slots, cap);
        let pt = min_nat(at + power_slots, cap);
        let s1 = take_share(Seq::empty(), t, 0, ts);
        let s2 = take_share(s1, a, 0, at);
        let s3 = take_share(s2, p, 0, pt);
        fill(s3, t, a, p, 0, cap, cap)
    }
}

proof fn lemma_take_share(s: Seq<usize>, ranked: Seq<usize>, k: nat, slots: nat)
    requires
        s.no_duplicates(),
        s.len() <= slots || k >= ranked.len(),
    ensures
        take_share(s, ranked, k, slots).no_duplicates(),
        take_share(s, ranked, k, slots).len() <= if s.len() <= slots { slots } else { s.len() },
        s.len() <= take_share(s, ranked, k, slots).len(),
        forall|x: usize| #[trigger]
            take_share(s, ranked, k, slots).contains(x) ==> s.contains(x) || ranked.contains(x),
    decreases ranked.len() - k,
{
    if k >= ranked.len() || s.len() >= slots {
    } else {
        let x = ranked[k as int];
        let s2 = with_member(s, x);
        assert forall|y: usize| #[trigger] s2.contains(y) implies s.contains(y) || y == x by {
            if !s.contains(x) {
                if s2.contains(y) {
                    let j = choose|j: int| 0 <= j < s2.len() && s2[j] == y;
                    if j < s.len() {
                        assert(s[j] == y);
                    }
                }
            }
        }
        if !s.contains(x) {
            assert(s2.no_duplicates()) by {
                assert forall|i: int, j: int| 0 <= i < j < s2.len() implies s2[i] != s2[j] by {
                    if j == s.len() {
                        assert(s[i] == s2[i]);
                    }
                }
            }
        }
        lemma_take_share(s2, ranked, k + 1, slots);
    }
}

proof fn lemma_scan(s: Seq<usize>, ranked: Seq<usize>, c: nat)
    requires
        s.no_duplicates(),
    ensures
        ({
            let r = scan(s, ranked, c);
            &&& r.0.no_duplicates()
            &&& r.2 ==> r.0 == s.push(ranked[r.1 as int]) && r.1 < ranked.len() && c <= r.1
                && !s.contains(ranked[r.1 as int])
            &&& !r.2 ==> r.0 == s && r.1 == if c <= ranked.len() { ranked.len() } else { c }
        }),
    decreases ranked.len() - c,
{
    if c >= ranked.len() {
    } else if !s.contains(ranked[c as int]) {
        let s2 = s.push(ranked[c as int]);
        assert forall|i: int, j: int| 0 <= i < j < s2.len() implies s2[i] != s2[j] by {
            if j == s.len() {
                assert(s[i] == s2[i]);
            }
        }
    } else {
        lemma_scan(s, ranked, c + 1);
    }
}

proof fn lemma_push_members(s: Seq<usize>, y: usize)
    ensures
        forall|x: usize| #[trigger] s.push(y).contains(x) ==> s.contains(x) || x == y,
{
    assert forall|x: usize| #[trigger] s.push(y).contains(x) implies s.contains(x) || x == y by {
        let j = choose|j: int| 0 <= j < s.push(y).len() && s.push(y)[j] == x;
        if j < s.len() {
            assert(s[j] == x);
        }
    }
}

proof fn lemma_fill(
    s: Seq<usize>,
    t: Seq<usize>,
    a: Seq<usize>,
    p: Seq<usize>,
    c: nat,
    cap: nat,
    fuel: nat,
)
    requires
        s.no_duplicates(),
        s.len() <= cap,
    ensures
        fill(s, t, a, p, c, cap, fuel).len() <= cap,
        fill(s, t, a, p, c, cap, fuel).no_duplicates(),
        forall|x: usize| #[trigger]
            fill(s, t, a, p, c, cap, fuel).contains(x) ==> s.contains(x) || t.contains(x)
                || a.contains(x) || p.contains(x),
    decreases fuel,
{
    if fuel == 0 || s.len() >= cap {
    } else {
        lemma_scan(s, t, c);
        let r1 = scan(s, t, c);
        if r1.2 {
            lemma_push_members(s, t[r1.1 as int]);
        }
        let r = sweep(s, t, a, p, c, cap);
        assert(r.0.no_duplicates() && r.0.len() <= cap && forall|x: usize| #[trigger]
            r.0.contains(x) ==> s.contains(x) || t.contains(x) || a.contains(x) || p.contains(x))
            by {
            if r1.0.len() != cap {
                lemma_scan(r1.0, a, r1.1);
                let r2 = scan(r1.0, a, r1.1);
                if r2.2 {
                    lemma_push_members(r1.0, a[r2.1 as int]);
                }
                if r2.0.len() != cap {
                    lemma_scan(r2.0, p, r2.1);
                    let r3 = scan(r2.0, p, r2.1);
                    if r3.2 {
                        lemma_push_members(r2.0, p[r3.1 as int]);
                    }
                }
            }
        }
        if r.2 {
            lemma_fill(r.0, t, a, p, r.1 + 1, cap, (fuel - 1) as nat);
        }
    }
}

/// The active set never holds more instances than the cap; and when every
/// ranking ranks eligible instances only, it holds eligible instances only.
pub proof fn lemma_active_selection_within_cap(
    eligible: Seq<usize>,
    t: Seq<usize>,
    a: Seq<usize>,
    p: Seq<usize>,
    cap: nat,
    timing_slots: nat,
    area_slots: nat,
    power_slots: nat,
)
    ensures
        active_selection(eligible, t, a, p, cap, timing_slots, area_slots, power_slots).len()
            <= cap,
        (forall|x: usize| #[trigger] t.contains(x) ==> eligible.contains(x)) && (forall|x: usize|
            #[trigger] a.contains(x) ==> eligible.contains(x)) && (forall|x: usize| #[trigger]
            p.contains(x) ==> eligible.contains(x)) ==> forall|x: usize| #[trigger]
            active_selection(eligible, t, a, p, cap, timing_slots, area_slots, power_slots).contains(
                x,
            ) ==> eligible.contains(x),
{
    if eligible.len() > cap {
        let ts = min_nat(timing_slots, cap);
        let at = min_nat(ts + area_slots, cap);
        let pt = min_nat(at + power_slots, cap);
        let s0 = Seq::<usize>::empty();
        lemma_take_share(s0, t, 0, ts);
        let s1 = take_share(s0, t, 0, ts);
        lemma_take_share(s1, a, 0, at);
        let s2 = take_share(s1, a, 0, at);
        lemma_take_share(s2, p, 0, pt);
        let s3 = take_share(s2, p, 0, pt);
        lemma_fill(s3, t, a, p, 0, cap, cap);
    }
}

/// Adds `x` unless present; tells whether it was added.
fn insert_member(s: &mut Vec<usize>, x: usize) -> (added: bool)
    ensures
        final(s)@ == with_member(old(s)@, x),
        added == !old(s)@.contains(x),
{
    let mut k: usize = 0;
    while k < s.len()
        invariant
            0 <= k <= s@.len(),
            s@ == old(s)@,
            forall|j: int| 0 <= j < k ==> s@[j] != x,
        decreases s.len() - k,
    {
        if s[k] == x {
            assert(s@[k as int] == x);
            return false;
        }
        k = k + 1;
    }
    s.push(x);
    true
}

/// Whether `s` holds `x`.
fn has_member(s: &Vec<usize>, x: usize) -> (r: bool)
    ensures
        r == s@.contains(x),
{
    let mut k: usize = 0;
    while k < s.len()
        invariant
            0 <= k <= s@.len(),
            forall|j: int| 0 <= j < k ==> s@[j] != x,
        decreases s.len() - k,
    {
        if s[k] == x {
            assert(s@[k as int] == x);
            return true;
        }
        k = k + 1;
    }
    false
}

/// Admits from `ranked` until `s` holds `slots` instances.
fn take_share_ranked(s: &mut Vec<usize>, ranked: &Vec<usize>, slots: usize)
    ensures
        final(s)@ == take_share(old(s)@, ranked@, 0, slots as nat),
{
    let mut k: usize = 0;
    while k < ranked.len() && s.len() < slots
        invariant
            0 <= k <= ranked@.len(),
            take_share(s@, ranked@, k as nat, slots as nat) == take_share(old(s)@, ranked@, 0, slots as nat),
        decreases ranked.len() - k,
    {
        insert_member(s, ranked[k]);
        k = k + 1;
    }
}

/// The walk of `scan` on a list.
fn scan_ranked(s: &mut Vec<usize>, ranked: &Vec<usize>, cursor: usize) -> (r: (usize, bool))
    ensures
        scan(old(s)@, ranked@, cursor as nat) == (final(s)@, r.0 as nat, r.1),
{
    let mut c = cursor;
    while c < ranked.len()
        invariant
            cursor <= c,
            scan(s@, ranked@, c as nat) == scan(old(s)@, ranked@, cursor as nat),
            s@ == old(s)@,
        decreases ranked.len() - c,
    {
        let x = ranked[c];
        if !has_member(s, x) {
            s.push(x);
            return (c, true);
        }
        c = c + 1;
    }
    (c, false)
}

/// The instances kept active, in increasing order: as a set, exactly
/// `active_selection` of the arguments.  `timing`, `area` and `power` are
/// the eligible instances ranked by each criterion, most sensitive first;
/// the slots are the shares each ranking gets of the cap.
pub fn select_active_instances(
    eligible: &Vec<usize>,
    timing: &Vec<usize>,
    area: &Vec<usize>,
    power: &Vec<usize>,
    cap: usize,
    timing_slots: usize,
    area_slots: usize,
    power_slots: usize,
) -> (r: Vec<usize>)
    requires
        timing@.len() < usize::MAX,
        area@.len() < usize::MAX,
        power@.len() < usize::MAX,
        min_nat(timing_slots as nat, cap as nat) + area_slots <= usize::MAX,
        min_nat((min_nat(timing_slots as nat, cap as nat) + area_slots) as nat, cap as nat)
            + power_slots <= usize::MAX,
    ensures
        strictly_increasing(r@),
        r@.len() <= cap,
        r@.to_set() == active_selection(
            eligible@,
            timing@,
            area@,
            power@,
            cap as nat,
            timing_slots as nat,
            area_slots as nat,
            power_slots as nat,
        ).to_set(),
{
    proof {
        lemma_active_selection_within_cap(
            eligible@,
            timing@,
            area@,
            power@,
            cap as nat,
            timing_slots as nat,
            area_slots as nat,
            power_slots as nat,
        );
    }
    if eligible.len() <= cap {
        let r = sorted_unique(copy_list(eligible));
        proof {
            lemma_sorted_len(r@, eligible@);
        }
        return r;
    }
    let ts = if timing_slots <= cap {
        timing_slots
    } else {
        cap
    };
    let at = if ts + area_slots <= cap {
        ts + area_slots
    } else {
        cap
    };
    let pt = if at + power_slots <= cap {
        at + power_slots
    } else {
        cap
    };
    let mut s: Vec<usize> = Vec::new();
    proof {
        lemma_take_share(s@, timing@, 0, ts as nat);
    }
    take_share_ranked(&mut s, timing, ts);
    proof {
        lemma_take_share(s@, area@, 0, at as nat);
    }
    take_share_ranked(&mut s, area, at);
    proof {
        lemma_take_share(s@, power@, 0, pt as nat);
    }
    take_share_ranked(&mut s, power, pt);
    let ghost s3 = s@;
    let ghost maxlen: nat = if timing@.len() >= area@.len() && timing@.len() >= power@.len() {
        timing@.len()
    } else if area@.len() >= power@.len() {
        area@.len()
    } else {
        power@.len()
    };
    let mut cursor: usize = 0;
    let ghost mut fuel: nat = cap as nat;
    while s.len() < cap
        invariant_except_break
            s@.no_duplicates(),
            s@.len() <= cap,
            fuel >= cap - s@.len(),
            cursor <= maxlen + 1,
            maxlen < usize::MAX,
            maxlen >= timing@.len(),
            maxlen >= area@.len(),
            maxlen >= power@.len(),
            fill(s@, timing@, area@, power@, cursor as nat, cap as nat, fuel) == fill(
                s3,
                timing@,
                area@,
                power@,
                0,
                cap as nat,
                cap as nat,
            ),
        ensures
            s@.no_duplicates(),
            s@ == fill(s3, timing@, area@, power@, 0, cap as nat, cap as nat),
        decreases cap - s@.len(),
    {
        let ghost before = s@;
        let ghost c0 = cursor;
        let mut advanced = false;
        proof {
            lemma_scan(s@, timing@, cursor as nat);
        }
        let (c1, a1) = scan_ranked(&mut s, timing, cursor);
        cursor = c1;
        advanced = advanced || a1;
        if s.len() != cap {
            proof {
                lemma_scan(s@, area@, cursor as nat);
            }
            let (c2, a2) = scan_ranked(&mut s, area, cursor);
            cursor = c2;
            advanced = advanced || a2;
            if s.len() != cap {
                proof {
                    lemma_scan(s@, power@, cursor as nat);
                }
                let (c3, a3) = scan_ranked(&mut s, power, cursor);
                cursor = c3;
                advanced = advanced || a3;
            }
        }
        assert(sweep(before, timing@, area@, power@, c0 as nat, cap as nat) == (
            s@,
            cursor as nat,
            advanced,
        ));
        if !advanced {
            break;
        }
        cursor = cursor + 1;
        proof {
            fuel = (fuel - 1) as nat;
        }
    }
    let r = sorted_unique(s);
    proof {
        lemma_sorted_len(r@, s@);
    }
    r
}

proof fn lemma_sorted_len(r: Seq<usize>, s: Seq<usize>)
    requires
        strictly_increasing(r),
        r.to_set() == s.to_set(),
    ensures
        r.len() <= s.len(),
{
    assert(r.no_duplicates()) by {
        assert forall|i: int, j: int| 0 <= i < j < r.len() implies r[i] != r[j] by {
            assert(r[i] < r[j]);
        }
    }
    r.unique_seq_to_set();
    s.lemma_cardinality_of_set();
}

/// A copy of a list of indices.
fn copy_list(v: &Vec<usize>) -> (r: Vec<usize>)
    ensures
        r@ == v@,
{
    let mut r: Vec<usize> = Vec::new();
    let mut k: usize = 0;
    while k < v.len()
        invariant
            0 <= k <= v@.len(),
            r@ == v@.take(k as int),
        decreases v.len() - k,
    {
        r.push(v[k]);
        k = k + 1;
    }
    assert(v@.take(k as int) =~= v@);
    r
}

} // verus!
