//! The structure of a mapped netlist as the sizing tool evaluates it: each
//! instance's output and input signals (by the pin order of its cell), the
//! instance or primary input that drives every signal after `assign`
//! aliases are followed, where each output takes its value, and the roots
//! and load counts that follow from that.
use vstd::prelude::*;

use crate::mapped_netlist::{pairs_view, strs, InstanceView, MappedInstance, MappedNetlist, MappedView};
use crate::text::{contains_string, copy_string, push_str, str_equals, string_of};
use crate::netlist::{acyclic, is_topological_order, toposort_nodes};
use crate::text::{chars_le, chars_less_eq, chars_of};
use crate::topology::{count_true, lemma_count_true_bound, lemma_count_true_set};

verus! {

/// The value of the last pair of `ps[..n]` whose key is `key`.
pub open spec fn last_value(ps: Seq<(Seq<char>, Seq<char>)>, key: Seq<char>, n: int) -> Option<Seq<char>>
    decreases n,
{
    if n <= 0 {
        None
    } else if ps[n - 1].0 == key {
        Some(ps[n - 1].1)
    } else {
        last_value(ps, key, n - 1)
    }
}

/// The last position of `x` in `s[..n]`.
pub open spec fn position_of(s: Seq<Seq<char>>, x: Seq<char>, n: int) -> Option<usize>
    decreases n,
{
    if n <= 0 {
        None
    } else if s[n - 1] == x {
        Some((n - 1) as usize)
    } else {
        position_of(s, x, n - 1)
    }
}

/// The signal an instance connects to `pin` (its last connection of that
/// pin).
pub open spec fn pin_signal(inst: InstanceView, pin: Seq<char>) -> Option<Seq<char>> {
    last_value(inst.conns, pin, inst.conns.len() as int)
}

/// The first pin of `pins[j..]` that the instance leaves unconnected.
pub open spec fn first_missing(inst: InstanceView, pins: Seq<Seq<char>>, j: int) -> Option<Seq<char>>
    decreases pins.len() - j,
{
    if j < 0 || j >= pins.len() {
        None
    } else if pin_signal(inst, pins[j]) is None {
        Some(pins[j])
    } else {
        first_missing(inst, pins, j + 1)
    }
}

/// The refusal for the first of `instances[k..]` that leaves a pin of its
/// cell unconnected: `NAME missing PIN`.
pub open spec fn wiring_fault(v: MappedView, pins: Seq<Seq<Seq<char>>>, k: int) -> Option<Seq<char>>
    decreases v.instances.len() - k,
{
    if k < 0 || k >= v.instances.len() {
        None
    } else {
        match first_missing(v.instances[k], pins[k], 0) {
            Some(p) => Some(v.instances[k].name + " missing "@ + p),
            None => wiring_fault(v, pins, k + 1),
        }
    }
}

/// The signal on the output pin (the first of the cell's pin order).
pub open spec fn output_signal(v: MappedView, pins: Seq<Seq<Seq<char>>>, k: int) -> Seq<char> {
    pin_signal(v.instances[k], pins[k][0])->0
}

/// The signals on the input pins (the rest of the pin order), in order.
pub open spec fn input_signals(v: MappedView, pins: Seq<Seq<Seq<char>>>, k: int) -> Seq<Seq<char>> {
    Seq::new((pins[k].len() - 1) as nat, |p: int| pin_signal(v.instances[k], pins[k][p + 1])->0)
}

/// The output signal of every instance, in order.
pub open spec fn output_signals(v: MappedView, pins: Seq<Seq<Seq<char>>>) -> Seq<Seq<char>> {
    Seq::new(v.instances.len(), |k: int| output_signal(v, pins, k))
}

/// The instance that drives `sig`: the last one whose output it is.
pub open spec fn driver_of(v: MappedView, pins: Seq<Seq<Seq<char>>>, sig: Seq<char>) -> Option<usize> {
    position_of(output_signals(v, pins), sig, v.instances.len() as int)
}

/// Follows `assign` aliases from `s` (the last `assign` of a target
/// counts), for at most `fuel` steps, and stops at a signal that has no
/// alias or that was met before.
pub open spec fn alias_walk(
    assigns: Seq<(Seq<char>, Seq<char>)>,
    s: Seq<char>,
    seen: Seq<Seq<char>>,
    fuel: nat,
) -> Seq<char>
    decreases fuel,
{
    match last_value(assigns, s, assigns.len() as int) {
        None => s,
        Some(next) => if fuel == 0 || seen.contains(s) {
            s
        } else {
            alias_walk(assigns, next, seen.push(s), (fuel - 1) as nat)
        },
    }
}

/// The signal that `s` stands for once the aliases are followed.  Each step
/// of the walk meets a new alias target, so as many steps as there are
/// aliases reach the end of the chain.
pub open spec fn resolved(assigns: Seq<(Seq<char>, Seq<char>)>, s: Seq<char>) -> Seq<char> {
    alias_walk(assigns, s, Seq::empty(), assigns.len())
}

/// The primary input that `sig` stands for, by its position.
pub open spec fn primary_of(v: MappedView, sig: Seq<char>) -> Option<usize> {
    position_of(v.inputs, resolved(v.assigns, sig), v.inputs.len() as int)
}

/// A Verilog scalar constant.
pub open spec fn is_scalar_constant(s: Seq<char>) -> bool {
    s == "1'b0"@ || s == "1'b1"@
}

/// Where an output of the netlist takes its value.
#[derive(Clone, Copy, PartialEq, Eq, Structural, Debug)]
pub enum OutputSource {
    Gate(usize),
    Primary(usize),
    Constant,
}

/// Where the output signal `o` takes its value: the driving instance of
/// the signal it stands for, else that primary input, else a constant.
pub open spec fn source_of(v: MappedView, pins: Seq<Seq<Seq<char>>>, o: Seq<char>) -> Option<OutputSource> {
    let r = resolved(v.assigns, o);
    match driver_of(v, pins, r) {
        Some(i) => Some(OutputSource::Gate(i)),
        None => match position_of(v.inputs, r, v.inputs.len() as int) {
            Some(j) => Some(OutputSource::Primary(j)),
            None => if is_scalar_constant(r) {
                Some(OutputSource::Constant)
            } else {
                None
            },
        },
    }
}

/// The refusal for the first of `outputs[k..]` with no source.
pub open spec fn output_fault(v: MappedView, pins: Seq<Seq<Seq<char>>>, k: int) -> Option<Seq<char>>
    decreases v.outputs.len() - k,
{
    if k < 0 || k >= v.outputs.len() {
        None
    } else if source_of(v, pins, v.outputs[k]) is None {
        Some("output "@ + v.outputs[k] + " has no mapped or primary driver"@)
    } else {
        output_fault(v, pins, k + 1)
    }
}

/// The driving instances among `srcs[..n]`, in order.
pub open spec fn gate_roots(srcs: Seq<OutputSource>, n: int) -> Seq<usize>
    decreases n,
{
    if n <= 0 {
        Seq::empty()
    } else {
        let rest = gate_roots(srcs, n - 1);
        match srcs[n - 1] {
            OutputSource::Gate(i) => rest.push(i),
            _ => rest,
        }
    }
}

/// How many of `s[..n]` equal `x`.
pub open spec fn count_of(s: Seq<usize>, x: usize, n: int) -> nat
    decreases n,
{
    if n <= 0 {
        0
    } else {
        count_of(s, x, n - 1) + if s[n - 1] == x {
            1nat
        } else {
            0nat
        }
    }
}

/// How many of `outputs[..n]` stand for primary input `j`.
pub open spec fn primary_load(v: MappedView, j: usize, n: int) -> nat
    decreases n,
{
    if n <= 0 {
        0
    } else {
        primary_load(v, j, n - 1) + if primary_of(v, v.outputs[n - 1]) == Some(j) {
            1nat
        } else {
            0nat
        }
    }
}

/// One instance, wired.
#[derive(Debug)]
pub struct WiredInstance {
    pub name: String,
    pub output: String,
    pub inputs: Vec<String>,
    /// The instance driving each input, if any.
    pub input_sources: Vec<Option<usize>>,
    /// The primary input that each input stands for, if any.
    pub input_primary_index: Vec<Option<usize>>,
}

pub struct WiredView {
    pub name: Seq<char>,
    pub output: Seq<char>,
    pub inputs: Seq<Seq<char>>,
    pub input_sources: Seq<Option<usize>>,
    pub input_primary_index: Seq<Option<usize>>,
}

pub open spec fn wired_view(w: WiredInstance) -> WiredView {
    WiredView {
        name: w.name@,
        output: w.output@,
        inputs: strs(w.inputs@),
        input_sources: w.input_sources@,
        input_primary_index: w.input_primary_index@,
    }
}

/// Instance `k` wired by the pin order of its cell.
pub open spec fn wired_spec(v: MappedView, pins: Seq<Seq<Seq<char>>>, k: int) -> WiredView {
    let ins = input_signals(v, pins, k);
    WiredView {
        name: v.instances[k].name,
        output: output_signal(v, pins, k),
        inputs: ins,
        input_sources: Seq::new(ins.len(), |p: int| driver_of(v, pins, ins[p])),
        input_primary_index: Seq::new(ins.len(), |p: int| primary_of(v, ins[p])),
    }
}

/// The wired netlist.
#[derive(Debug)]
pub struct CircuitStructure {
    pub instances: Vec<WiredInstance>,
    pub output_sources: Vec<OutputSource>,
    /// The driving instance of every output driven by one, in output order.
    pub roots: Vec<usize>,
    /// For each instance, how many outputs it drives.
    pub output_load_count: Vec<usize>,
    /// For each primary input, how many outputs stand for it.
    pub primary_output_load_count: Vec<usize>,
}

pub struct StructureView {
    pub instances: Seq<WiredView>,
    pub output_sources: Seq<OutputSource>,
    pub roots: Seq<usize>,
    pub output_load_count: Seq<usize>,
    pub primary_output_load_count: Seq<usize>,
}

impl View for CircuitStructure {
    type V = StructureView;

    open spec fn view(&self) -> StructureView {
        StructureView {
            instances: self.instances@.map_values(|w: WiredInstance| wired_view(w)),
            output_sources: self.output_sources@,
            roots: self.roots@,
            output_load_count: self.output_load_count@,
            primary_output_load_count: self.primary_output_load_count@,
        }
    }
}

/// The wired netlist of `v` when every instance's cell has pin order
/// `pins[k]`; the first missing pin, then the first output without a
/// source, refuse it.
pub open spec fn circuit_structure_spec(v: MappedView, pins: Seq<Seq<Seq<char>>>) -> Result<StructureView, Seq<char>> {
    match wiring_fault(v, pins, 0) {
        Some(e) => Err(e),
        None => match output_fault(v, pins, 0) {
            Some(e) => Err(e),
            None => {
                let srcs = Seq::new(v.outputs.len(), |k: int| source_of(v, pins, v.outputs[k])->0);
                let roots = gate_roots(srcs, srcs.len() as int);
                Ok(
                    StructureView {
                        instances: Seq::new(v.instances.len(), |k: int| wired_spec(v, pins, k)),
                        output_sources: srcs,
                        roots,
                        output_load_count: Seq::new(
                            v.instances.len(),
                            |i: int| count_of(roots, i as usize, roots.len() as int) as usize,
                        ),
                        primary_output_load_count: Seq::new(
                            v.inputs.len(),
                            |j: int| primary_load(v, j as usize, v.outputs.len() as int) as usize,
                        ),
                    },
                )
            },
        },
    }
}

/// The pin orders of the cells, by instance.
pub open spec fn pins_view(p: Seq<Vec<String>>) -> Seq<Seq<Seq<char>>> {
    p.map_values(|v: Vec<String>| strs(v@))
}

/// The value of the last pair whose key is `key`.
fn lookup_last(ps: &Vec<(String, String)>, key: &str) -> (r: Option<String>)
    ensures
        match last_value(pairs_view(ps@), key@, ps@.len() as int) {
            Some(x) => r matches Some(s) && s@ == x,
            None => r is None,
        },
{
    let ghost pv = pairs_view(ps@);
    let mut i: usize = ps.len();
    while i > 0
        invariant
            i <= ps@.len(),
            pv == pairs_view(ps@),
            last_value(pv, key@, ps@.len() as int) == last_value(pv, key@, i as int),
        decreases i,
    {
        assert(pv[i - 1] == (ps@[i - 1].0@, ps@[i - 1].1@));
        if str_equals(ps[i - 1].0.as_str(), key) {
            return Some(copy_string(&ps[i - 1].1));
        }
        i = i - 1;
    }
    None
}

/// The last position of `x`.
fn position_last(v: &Vec<String>, x: &str) -> (r: Option<usize>)
    ensures
        r == position_of(strs(v@), x@, v@.len() as int),
{
    let ghost sv = strs(v@);
    let mut i: usize = v.len();
    while i > 0
        invariant
            i <= v@.len(),
            sv == strs(v@),
            position_of(sv, x@, v@.len() as int) == position_of(sv, x@, i as int),
        decreases i,
    {
        assert(sv[i - 1] == v@[i - 1]@);
        if str_equals(v[i - 1].as_str(), x) {
            return Some(i - 1);
        }
        i = i - 1;
    }
    None
}

/// The signal that `s` stands for (see `resolved`).
fn resolve(assigns: &Vec<(String, String)>, s: &String) -> (r: String)
    ensures
        r@ == resolved(pairs_view(assigns@), s@),
{
    let ghost av = pairs_view(assigns@);
    let mut cur = copy_string(s);
    let mut seen: Vec<String> = Vec::new();
    let mut fuel: usize = assigns.len();
    assert(strs(seen@) =~= Seq::<Seq<char>>::empty());
    loop
        invariant
            av == pairs_view(assigns@),
            av.len() == assigns@.len(),
            alias_walk(av, cur@, strs(seen@), fuel as nat) == resolved(av, s@),
        decreases fuel,
    {
        match lookup_last(assigns, cur.as_str()) {
            None => {
                return cur;
            },
            Some(next) => {
                let known = {
                    let sl = seen.as_slice();
                    assert(sl.deep_view() =~= strs(seen@));
                    contains_string(sl, &cur)
                };
                if fuel == 0 || known {
                    return cur;
                }
                let ghost before = strs(seen@);
                seen.push(cur);
                assert(strs(seen@) =~= before.push(seen@.last()@));
                cur = next;
                fuel = fuel - 1;
            },
        }
    }
}

/// The output and input signals of one instance by its cell's pin order.
fn wire_instance(inst: &MappedInstance, pins: &Vec<String>) -> (r: Result<(String, Vec<String>), String>)
    requires
        pins@.len() >= 1,
    ensures
        ({
            let iv = crate::mapped_netlist::instance_view(*inst);
            let pv = strs(pins@);
            match first_missing(iv, pv, 0) {
                Some(p) => r matches Err(e) && e@ == iv.name + " missing "@ + p,
                None => r matches Ok(w) && w.0@ == pin_signal(iv, pv[0])->0 && strs(w.1@) == Seq::new(
                    (pv.len() - 1) as nat,
                    |p: int| pin_signal(iv, pv[p + 1])->0,
                ),
            }
        }),
{
    let ghost iv = crate::mapped_netlist::instance_view(*inst);
    let ghost pv = strs(pins@);
    let mut sigs: Vec<String> = Vec::new();
    let mut j: usize = 0;
    while j < pins.len()
        invariant
            0 <= j <= pins@.len(),
            iv == crate::mapped_netlist::instance_view(*inst),
            pv == strs(pins@),
            sigs@.len() == j,
            first_missing(iv, pv, 0) == first_missing(iv, pv, j as int),
            forall|q: int| 0 <= q < j ==> pin_signal(iv, pv[q]) == Some((#[trigger] sigs@[q])@),
        decreases pins.len() - j,
    {
        assert(pv[j as int] == pins@[j as int]@);
        match lookup_last(&inst.conns, pins[j].as_str()) {
            None => {
                let mut e: Vec<char> = Vec::new();
                push_str(&mut e, inst.name.as_str());
                push_str(&mut e, " missing ");
                push_str(&mut e, pins[j].as_str());
                return Err(string_of(e.as_slice()));
            },
            Some(x) => {
                sigs.push(x);
            },
        }
        j = j + 1;
    }
    let mut ins: Vec<String> = Vec::new();
    let mut p: usize = 1;
    while p < sigs.len()
        invariant
            1 <= p <= sigs@.len(),
            sigs@.len() == pins@.len(),
            ins@.len() == p - 1,
            forall|q: int| 0 <= q < p - 1 ==> (#[trigger] ins@[q])@ == sigs@[q + 1]@,
        decreases sigs.len() - p,
    {
        ins.push(copy_string(&sigs[p]));
        p = p + 1;
    }
    let out = copy_string(&sigs[0]);
    assert(strs(ins@) =~= Seq::new((pv.len() - 1) as nat, |q: int| pin_signal(iv, pv[q + 1])->0));
    Ok((out, ins))
}

/// The output and input signals of every instance.
fn wire_all(parsed: &MappedNetlist, pin_orders: &Vec<Vec<String>>) -> (r: Result<(Vec<String>, Vec<Vec<String>>), String>)
    requires
        pin_orders@.len() == parsed.instances@.len(),
        forall|k: int| 0 <= k < pin_orders@.len() ==> (#[trigger] pin_orders@[k])@.len() >= 1,
    ensures
        ({
            let v = parsed@;
            let pins = pins_view(pin_orders@);
            match wiring_fault(v, pins, 0) {
                Some(e) => r matches Err(x) && x@ == e,
                None => r matches Ok(w) && strs(w.0@) == output_signals(v, pins) && w.1@.len() == v.instances.len()
                    && forall|k: int| 0 <= k < v.instances.len() ==> strs((#[trigger] w.1@[k])@) == input_signals(v, pins, k),
            }
        }),
{
    let ghost v = parsed@;
    let ghost pins = pins_view(pin_orders@);
    let mut outs: Vec<String> = Vec::new();
    let mut ins_all: Vec<Vec<String>> = Vec::new();
    let mut k: usize = 0;
    while k < parsed.instances.len()
        invariant
            0 <= k <= parsed.instances@.len(),
            v == parsed@,
            pins == pins_view(pin_orders@),
            pin_orders@.len() == parsed.instances@.len(),
            forall|q: int| 0 <= q < pin_orders@.len() ==> (#[trigger] pin_orders@[q])@.len() >= 1,
            wiring_fault(v, pins, 0) == wiring_fault(v, pins, k as int),
            outs@.len() == k,
            ins_all@.len() == k,
            forall|q: int| 0 <= q < k ==> (#[trigger] outs@[q])@ == output_signal(v, pins, q),
            forall|q: int| 0 <= q < k ==> strs((#[trigger] ins_all@[q])@) == input_signals(v, pins, q),
        decreases parsed.instances.len() - k,
    {
        assert(v.instances[k as int] == crate::mapped_netlist::instance_view(parsed.instances@[k as int]));
        assert(pins[k as int] == strs(pin_orders@[k as int]@));
        match wire_instance(&parsed.instances[k], &pin_orders[k]) {
            Err(e) => {
                return Err(e);
            },
            Ok(w) => {
                outs.push(w.0);
                ins_all.push(w.1);
            },
        }
        k = k + 1;
    }
    assert(strs(outs@) =~= output_signals(v, pins));
    Ok((outs, ins_all))
}

/// Each instance with the sources of its inputs.
fn wired_instances(parsed: &MappedNetlist, pin_orders: &Vec<Vec<String>>, outs: &Vec<String>, ins_all: &Vec<Vec<String>>) -> (r: Vec<WiredInstance>)
    requires
        strs(outs@) == output_signals(parsed@, pins_view(pin_orders@)),
        ins_all@.len() == parsed.instances@.len(),
        forall|k: int| 0 <= k < parsed.instances@.len() ==> strs((#[trigger] ins_all@[k])@) == input_signals(parsed@, pins_view(pin_orders@), k),
    ensures
        r@.map_values(|w: WiredInstance| wired_view(w)) == Seq::new(
            parsed@.instances.len(),
            |k: int| wired_spec(parsed@, pins_view(pin_orders@), k),
        ),
{
    let ghost v = parsed@;
    let ghost pins = pins_view(pin_orders@);
    let mut r: Vec<WiredInstance> = Vec::new();
    let mut k: usize = 0;
    while k < ins_all.len()
        invariant
            0 <= k <= ins_all@.len(),
            v == parsed@,
            pins == pins_view(pin_orders@),
            ins_all@.len() == v.instances.len(),
            strs(outs@) == output_signals(v, pins),
            forall|q: int| 0 <= q < v.instances.len() ==> strs((#[trigger] ins_all@[q])@) == input_signals(v, pins, q),
            r@.len() == k,
            forall|q: int| 0 <= q < k ==> wired_view(#[trigger] r@[q]) == wired_spec(v, pins, q),
        decreases ins_all.len() - k,
    {
        let ghost ins = input_signals(v, pins, k as int);
        assert(strs(outs@).len() == outs@.len());
        assert(output_signals(v, pins).len() == v.instances.len());
        assert(outs@.len() == v.instances.len());
        let mut sources: Vec<Option<usize>> = Vec::new();
        let mut primaries: Vec<Option<usize>> = Vec::new();
        let mut p: usize = 0;
        while p < ins_all[k].len()
            invariant
                0 <= p <= ins_all@[k as int]@.len(),
                k < ins_all@.len(),
                v == parsed@,
                strs(outs@) == output_signals(v, pins),
                outs@.len() == v.instances.len(),
                strs(ins_all@[k as int]@) == ins,
                sources@.len() == p,
                primaries@.len() == p,
                forall|q: int| 0 <= q < p ==> #[trigger] sources@[q] == driver_of(v, pins, ins[q]),
                forall|q: int| 0 <= q < p ==> #[trigger] primaries@[q] == primary_of(v, ins[q]),
            decreases ins_all@[k as int]@.len() - p,
        {
            assert(ins[p as int] == ins_all@[k as int]@[p as int]@);
            let src = position_last(outs, ins_all[k][p].as_str());
            let sig = resolve(&parsed.assigns, &ins_all[k][p]);
            let prim = position_last(&parsed.inputs, sig.as_str());
            sources.push(src);
            primaries.push(prim);
            p = p + 1;
        }
        let w = WiredInstance {
            name: copy_string(&parsed.instances[k].name),
            output: copy_string(&outs[k]),
            inputs: crate::text::copy_strings(&ins_all[k]),
            input_sources: sources,
            input_primary_index: primaries,
        };
        proof {
            assert(strs(outs@)[k as int] == outs@[k as int]@);
            assert(v.instances[k as int] == crate::mapped_netlist::instance_view(parsed.instances@[k as int]));
            assert(crate::text::strings_view(w.inputs@) == strs(w.inputs@));
            assert(crate::text::strings_view(ins_all@[k as int]@) == strs(ins_all@[k as int]@));
            assert(w.input_sources@ =~= Seq::new(ins.len(), |q: int| driver_of(v, pins, ins[q])));
            assert(w.input_primary_index@ =~= Seq::new(ins.len(), |q: int| primary_of(v, ins[q])));
        }
        r.push(w);
        k = k + 1;
    }
    assert(r@.map_values(|w: WiredInstance| wired_view(w)) =~= Seq::new(v.instances.len(), |q: int| wired_spec(v, pins, q)));
    r
}

/// Whether the signal is a Verilog scalar constant.
fn scalar_constant(s: &str) -> (r: bool)
    ensures
        r == is_scalar_constant(s@),
{
    str_equals(s, "1'b0") || str_equals(s, "1'b1")
}

/// Where every output takes its value; the first output without one
/// refuses the netlist.
fn output_sources(parsed: &MappedNetlist, pin_orders: &Vec<Vec<String>>, outs: &Vec<String>) -> (r: Result<Vec<OutputSource>, String>)
    requires
        strs(outs@) == output_signals(parsed@, pins_view(pin_orders@)),
    ensures
        ({
            let v = parsed@;
            let pins = pins_view(pin_orders@);
            match output_fault(v, pins, 0) {
                Some(e) => r matches Err(x) && x@ == e,
                None => r matches Ok(srcs) && srcs@ == Seq::new(v.outputs.len(), |k: int| source_of(v, pins, v.outputs[k])->0),
            }
        }),
{
    let ghost v = parsed@;
    let ghost pins = pins_view(pin_orders@);
    assert(strs(outs@).len() == outs@.len());
    assert(outs@.len() == v.instances.len());
    let mut srcs: Vec<OutputSource> = Vec::new();
    let mut k: usize = 0;
    while k < parsed.outputs.len()
        invariant
            0 <= k <= parsed.outputs@.len(),
            v == parsed@,
            pins == pins_view(pin_orders@),
            strs(outs@) == output_signals(v, pins),
            outs@.len() == v.instances.len(),
            output_fault(v, pins, 0) == output_fault(v, pins, k as int),
            srcs@.len() == k,
            forall|q: int| 0 <= q < k ==> Some(#[trigger] srcs@[q]) == source_of(v, pins, v.outputs[q]),
        decreases parsed.outputs.len() - k,
    {
        assert(v.outputs[k as int] == parsed.outputs@[k as int]@);
        let sig = resolve(&parsed.assigns, &parsed.outputs[k]);
        let src = match position_last(outs, sig.as_str()) {
            Some(i) => OutputSource::Gate(i),
            None => match position_last(&parsed.inputs, sig.as_str()) {
                Some(j) => OutputSource::Primary(j),
                None => {
                    if scalar_constant(sig.as_str()) {
                        OutputSource::Constant
                    } else {
                        let mut e: Vec<char> = Vec::new();
                        push_str(&mut e, "output ");
                        push_str(&mut e, parsed.outputs[k].as_str());
                        push_str(&mut e, " has no mapped or primary driver");
                        assert(output_fault(v, pins, k as int) == Some(e@));
                        return Err(string_of(e.as_slice()));
                    }
                },
            },
        };
        srcs.push(src);
        k = k + 1;
    }
    assert(srcs@ =~= Seq::new(v.outputs.len(), |q: int| source_of(v, pins, v.outputs[q])->0));
    Ok(srcs)
}

/// The driving instances of the outputs, in output order.
fn gate_roots_of(srcs: &Vec<OutputSource>) -> (r: Vec<usize>)
    ensures
        r@ == gate_roots(srcs@, srcs@.len() as int),
{
    let mut r: Vec<usize> = Vec::new();
    let mut k: usize = 0;
    while k < srcs.len()
        invariant
            0 <= k <= srcs@.len(),
            r@ == gate_roots(srcs@, k as int),
        decreases srcs.len() - k,
    {
        match srcs[k] {
            OutputSource::Gate(i) => {
                r.push(i);
            },
            _ => {},
        }
        k = k + 1;
    }
    r
}

/// How many entries equal `x`.
fn count_in(s: &Vec<usize>, x: usize) -> (r: usize)
    ensures
        r == count_of(s@, x, s@.len() as int),
{
    let mut c: usize = 0;
    let mut k: usize = 0;
    while k < s.len()
        invariant
            0 <= k <= s@.len(),
            c == count_of(s@, x, k as int),
            c <= k,
        decreases s.len() - k,
    {
        if s[k] == x {
            c = c + 1;
        }
        k = k + 1;
    }
    c
}

/// Wires a mapped netlist: `pin_orders[k]` is the pin order of the cell of
/// instance `k`, its output pin first (see `circuit_structure_spec`).
pub fn circuit_structure(parsed: &MappedNetlist, pin_orders: &Vec<Vec<String>>) -> (r: Result<CircuitStructure, String>)
    requires
        pin_orders@.len() == parsed.instances@.len(),
        forall|k: int| 0 <= k < pin_orders@.len() ==> (#[trigger] pin_orders@[k])@.len() >= 1,
    ensures
        match circuit_structure_spec(parsed@, pins_view(pin_orders@)) {
            Ok(v) => r matches Ok(c) && c@ == v,
            Err(e) => r matches Err(x) && x@ == e,
        },
{
    let ghost v = parsed@;
    let ghost pins = pins_view(pin_orders@);
    let (outs, ins_all) = match wire_all(parsed, pin_orders) {
        Err(e) => {
            return Err(e);
        },
        Ok(w) => w,
    };
    let instances = wired_instances(parsed, pin_orders, &outs, &ins_all);
    let srcs = match output_sources(parsed, pin_orders, &outs) {
        Err(e) => {
            return Err(e);
        },
        Ok(s) => s,
    };
    let roots = gate_roots_of(&srcs);
    let mut output_load_count: Vec<usize> = Vec::new();
    let mut i: usize = 0;
    while i < parsed.instances.len()
        invariant
            0 <= i <= parsed.instances@.len(),
            output_load_count@.len() == i,
            forall|q: int| 0 <= q < i ==> #[trigger] output_load_count@[q] == count_of(roots@, q as usize, roots@.len() as int),
        decreases parsed.instances.len() - i,
    {
        output_load_count.push(count_in(&roots, i));
        i = i + 1;
    }
    let mut prim_out: Vec<Option<usize>> = Vec::new();
    let mut k: usize = 0;
    while k < parsed.outputs.len()
        invariant
            0 <= k <= parsed.outputs@.len(),
            v == parsed@,
            prim_out@.len() == k,
            forall|q: int| 0 <= q < k ==> #[trigger] prim_out@[q] == primary_of(v, v.outputs[q]),
        decreases parsed.outputs.len() - k,
    {
        assert(v.outputs[k as int] == parsed.outputs@[k as int]@);
        let sig = resolve(&parsed.assigns, &parsed.outputs[k]);
        prim_out.push(position_last(&parsed.inputs, sig.as_str()));
        k = k + 1;
    }
    let mut primary_output_load_count: Vec<usize> = Vec::new();
    let mut j: usize = 0;
    while j < parsed.inputs.len()
        invariant
            0 <= j <= parsed.inputs@.len(),
            v == parsed@,
            prim_out@.len() == v.outputs.len(),
            forall|q: int| 0 <= q < v.outputs.len() ==> #[trigger] prim_out@[q] == primary_of(v, v.outputs[q]),
            primary_output_load_count@.len() == j,
            forall|q: int| 0 <= q < j ==> #[trigger] primary_output_load_count@[q] == primary_load(v, q as usize, v.outputs.len() as int),
        decreases parsed.inputs.len() - j,
    {
        let mut c: usize = 0;
        let mut q: usize = 0;
        while q < prim_out.len()
            invariant
                0 <= q <= prim_out@.len(),
                j < parsed.inputs@.len(),
                prim_out@.len() == v.outputs.len(),
                forall|t: int| 0 <= t < v.outputs.len() ==> #[trigger] prim_out@[t] == primary_of(v, v.outputs[t]),
                c == primary_load(v, j, q as int),
                c <= q,
            decreases prim_out.len() - q,
        {
            if prim_out[q] == Some(j) {
                c = c + 1;
            }
            q = q + 1;
        }
        primary_output_load_count.push(c);
        j = j + 1;
    }
    let c = CircuitStructure { instances, output_sources: srcs, roots, output_load_count, primary_output_load_count };
    proof {
        assert(c@.output_load_count =~= Seq::new(
            v.instances.len(),
            |q: int| count_of(c@.roots, q as usize, c@.roots.len() as int) as usize,
        ));
        assert(c@.primary_output_load_count =~= Seq::new(
            v.inputs.len(),
            |q: int| primary_load(v, q as usize, v.outputs.len() as int) as usize,
        ));
    }
    Ok(c)
}

/// Instance `sink` takes an input from instance `src`.
pub open spec fn feeds(ws: Seq<WiredView>, sink: int, src: int) -> bool {
    0 <= sink < ws.len() && 0 <= src < ws.len() && ws[sink].input_sources.contains(Some(src as usize))
}

/// A chain of instances from a root, each feeding the one before it.
pub open spec fn is_chain(ws: Seq<WiredView>, roots: Seq<usize>, path: Seq<int>) -> bool {
    &&& path.len() >= 1
    &&& 0 <= path[0] < ws.len()
    &&& roots.contains(path[0] as usize)
    &&& forall|t: int| 0 <= t < path.len() - 1 ==> feeds(ws, #[trigger] path[t], path[t + 1])
}

/// Instance `i` lies in the cone of the roots.
pub open spec fn in_cone(ws: Seq<WiredView>, roots: Seq<usize>, i: int) -> bool {
    exists|path: Seq<int>| #[trigger] is_chain(ws, roots, path) && path.last() == i
}

/// The instances of `0..n` in the cone of the roots, in index order.
pub open spec fn cone_list(ws: Seq<WiredView>, roots: Seq<usize>, n: int) -> Seq<usize>
    decreases n,
{
    if n <= 0 {
        Seq::empty()
    } else if in_cone(ws, roots, n - 1) {
        cone_list(ws, roots, n - 1).push((n - 1) as usize)
    } else {
        cone_list(ws, roots, n - 1)
    }
}

proof fn lemma_chain_marked(ws: Seq<WiredView>, roots: Seq<usize>, path: Seq<int>, marks: Seq<bool>)
    requires
        is_chain(ws, roots, path),
        ws.len() <= usize::MAX,
        marks.len() == ws.len(),
        forall|r: int| 0 <= r < roots.len() && roots[r] < ws.len() ==> marks[roots[r] as int],
        forall|i: int, s: int| #[trigger] feeds(ws, i, s) && marks[i] ==> marks[s],
    ensures
        marks[path.last()],
    decreases path.len(),
{
    if path.len() == 1 {
        let r = choose|r: int| 0 <= r < roots.len() && roots[r] == path[0] as usize;
        assert(roots[r] as int == path[0]);
        assert(marks[roots[r] as int]);
        assert(path.last() == path[0]);
    } else {
        let prefix = path.drop_last();
        assert forall|t: int| 0 <= t < prefix.len() - 1 implies feeds(ws, #[trigger] prefix[t], prefix[t + 1]) by {
            assert(prefix[t] == path[t] && prefix[t + 1] == path[t + 1]);
        }
        lemma_chain_marked(ws, roots, prefix, marks);
        assert(feeds(ws, path[path.len() - 2], path[path.len() - 1]));
    }
}

/// Marks the instances in the cone of the outputs.
pub(crate) fn cone_marks(c: &CircuitStructure) -> (m: Vec<bool>)
    ensures
        m@.len() == c@.instances.len(),
        forall|i: int| 0 <= i < m@.len() ==> #[trigger] m@[i] == in_cone(c@.instances, c@.roots, i),
{
    let ghost ws = c@.instances;
    let ghost roots = c@.roots;
    let n = c.instances.len();
    let mut marks: Vec<bool> = Vec::new();
    let mut i: usize = 0;
    while i < n
        invariant
            0 <= i <= n,
            n == c.instances@.len(),
            marks@.len() == i,
            forall|q: int| 0 <= q < i ==> !(#[trigger] marks@[q]),
        decreases n - i,
    {
        marks.push(false);
        i = i + 1;
    }
    let mut stack: Vec<usize> = Vec::new();
    let mut k: usize = 0;
    while k < c.roots.len()
        invariant
            0 <= k <= c.roots@.len(),
            ws == c@.instances,
            roots == c@.roots,
            n == ws.len(),
            marks@.len() == n,
            forall|j: int| 0 <= j < stack@.len() ==> (#[trigger] stack@[j]) < n && marks@[stack@[j] as int],
            forall|q: int| 0 <= q < n && #[trigger] marks@[q] ==> in_cone(ws, roots, q),
            forall|q: int| 0 <= q < n && #[trigger] marks@[q] ==> stack@.contains(q as usize),
            forall|t: int| 0 <= t < k && roots[t] < n ==> marks@[#[trigger] roots[t] as int],
        decreases c.roots.len() - k,
    {
        let x = c.roots[k];
        if x < n && !marks[x] {
            proof {
                let path = seq![x as int];
                assert(roots[k as int] == x);
                assert(is_chain(ws, roots, path));
            }
            let ghost m_before = marks@;
            let ghost s_before = stack@;
            marks.set(x, true);
            stack.push(x);
            proof {
                assert forall|q: int| 0 <= q < n && #[trigger] marks@[q] implies stack@.contains(q as usize) by {
                    if q == x as int {
                        assert(stack@[stack@.len() - 1] == x);
                    } else {
                        assert(m_before[q]);
                        let j = choose|j: int| 0 <= j < s_before.len() && s_before[j] == q as usize;
                        assert(stack@[j] == q as usize);
                    }
                }
            }
        }
        k = k + 1;
    }
    proof {
        lemma_count_true_bound(marks@);
    }
    while stack.len() > 0
        invariant
            ws == c@.instances,
            roots == c@.roots,
            n == ws.len(),
            n == c.instances@.len(),
            marks@.len() == n,
            forall|j: int| 0 <= j < stack@.len() ==> (#[trigger] stack@[j]) < n && marks@[stack@[j] as int],
            forall|q: int| 0 <= q < n && #[trigger] marks@[q] ==> in_cone(ws, roots, q),
            forall|q: int, s: int| #[trigger] feeds(ws, q, s) && marks@[q] && !stack@.contains(q as usize) ==> marks@[s],
            forall|t: int| 0 <= t < roots.len() && roots[t] < n ==> marks@[#[trigger] roots[t] as int],
            count_true(marks@) <= n,
        decreases 2 * (n - count_true(marks@)) + stack@.len(),
    {
        let ghost before = stack@;
        let top = stack.len() - 1;
        let q = stack[top];
        stack.pop();
        assert(before =~= stack@.push(q));
        assert(c@.instances[q as int] == wired_view(c.instances@[q as int]));
        let srcs = &c.instances[q].input_sources;
        let ghost stack0 = stack@;
        let ghost m0 = 2 * (n - count_true(marks@)) + stack@.len();
        proof {
            assert forall|x: int, s: int| #[trigger] feeds(ws, x, s) && marks@[x] && x != q && !stack0.contains(x as usize) implies marks@[s] by {
                if before.contains(x as usize) {
                    let j = choose|j: int| 0 <= j < before.len() && before[j] == x as usize;
                    if j < stack0.len() {
                        assert(stack0[j] == x as usize);
                    }
                }
            }
        }
        let mut p: usize = 0;
        while p < srcs.len()
            invariant
                ws == c@.instances,
                roots == c@.roots,
                n == ws.len(),
                n == c.instances@.len(),
                q < n,
                marks@[q as int],
                srcs@ == ws[q as int].input_sources,
                0 <= p <= srcs@.len(),
                marks@.len() == n,
                stack0.len() <= stack@.len(),
                forall|j: int| 0 <= j < stack0.len() ==> stack@[j] == stack0[j],
                2 * (n - count_true(marks@)) + stack@.len() <= m0,
                forall|j: int| 0 <= j < stack@.len() ==> (#[trigger] stack@[j]) < n && marks@[stack@[j] as int],
                forall|x: int| 0 <= x < n && #[trigger] marks@[x] ==> in_cone(ws, roots, x),
                forall|x: int, s: int| #[trigger] feeds(ws, x, s) && marks@[x] && x != q && !stack@.contains(x as usize) ==> marks@[s],
                forall|t: int| 0 <= t < roots.len() && roots[t] < n ==> marks@[#[trigger] roots[t] as int],
                forall|t: int| 0 <= t < p && srcs@[t] is Some && srcs@[t]->0 < n ==> marks@[#[trigger] srcs@[t]->0 as int],
                count_true(marks@) <= n,
            decreases srcs.len() - p,
        {
            match srcs[p] {
                Some(s) => {
                    if s < n && !marks[s] {
                        proof {
                            let path = choose|path: Seq<int>| #[trigger] is_chain(ws, roots, path) && path.last() == q as int;
                            let longer = path.push(s as int);
                            assert(ws[q as int].input_sources[p as int] == Some(s));
                            assert(feeds(ws, q as int, s as int));
                            assert forall|t: int| 0 <= t < longer.len() - 1 implies feeds(ws, #[trigger] longer[t], longer[t + 1]) by {
                                if t < path.len() - 1 {
                                    assert(longer[t] == path[t] && longer[t + 1] == path[t + 1]);
                                }
                            }
                            assert(is_chain(ws, roots, longer));
                            lemma_count_true_set(marks@, s as int);
                            lemma_count_true_bound(marks@.update(s as int, true));
                        }
                        let ghost m_before = marks@;
                        let ghost s_before = stack@;
                        marks.set(s, true);
                        stack.push(s);
                        proof {
                            assert(stack@[stack@.len() - 1] == s);
                            assert(stack@.contains(s));
                            assert forall|x: int, y: int| #[trigger] feeds(ws, x, y) && marks@[x] && x != q && !stack@.contains(x as usize) implies marks@[y] by {
                                assert(x != s as int);
                                assert(m_before[x]);
                                if s_before.contains(x as usize) {
                                    let j = choose|j: int| 0 <= j < s_before.len() && s_before[j] == x as usize;
                                    assert(stack@[j] == x as usize);
                                }
                            }
                        }
                    }
                },
                None => {},
            }
            p = p + 1;
        }
        proof {
            assert forall|x: int, s: int| #[trigger] feeds(ws, x, s) && marks@[x] && !stack@.contains(x as usize) implies marks@[s] by {
                if x == q {
                    let t = choose|t: int| 0 <= t < srcs@.len() && srcs@[t] == Some(s as usize);
                }
            }
        }
    }
    proof {
        assert forall|x: int, s: int| #[trigger] feeds(ws, x, s) && marks@[x] implies marks@[s] by {
            assert(!stack@.contains(x as usize));
        }
    }
    proof {
        assert forall|x: int| 0 <= x < marks@.len() implies #[trigger] marks@[x] == in_cone(ws, roots, x) by {
            if in_cone(ws, roots, x) {
                let path = choose|path: Seq<int>| #[trigger] is_chain(ws, roots, path) && path.last() == x;
                lemma_chain_marked(ws, roots, path, marks@);
            }
        }
    }
    marks
}

/// The instances in the cone of the outputs: every instance reached from
/// a root through input sources, in index order.
pub fn reachable_instances(c: &CircuitStructure) -> (r: Vec<usize>)
    ensures
        r@ == cone_list(c@.instances, c@.roots, c@.instances.len() as int),
{
    let marks = cone_marks(c);
    let mut r: Vec<usize> = Vec::new();
    let mut j: usize = 0;
    while j < marks.len()
        invariant
            0 <= j <= marks@.len(),
            marks@.len() == c@.instances.len(),
            forall|i: int| 0 <= i < marks@.len() ==> #[trigger] marks@[i] == in_cone(c@.instances, c@.roots, i),
            r@ == cone_list(c@.instances, c@.roots, j as int),
        decreases marks.len() - j,
    {
        if marks[j] {
            r.push(j);
        }
        j = j + 1;
    }
    r
}

/// The source of input `p` of instance `k` when it lies in the cone.
pub open spec fn cone_source(ws: Seq<WiredView>, roots: Seq<usize>, k: int, p: int) -> Option<usize> {
    let x = ws[k].input_sources[p];
    if x is Some && x->0 < ws.len() && in_cone(ws, roots, x->0 as int) {
        x
    } else {
        None
    }
}

/// The (source, sink) edges of input pins `0..p` of cone instance `k`.
pub open spec fn pin_edges(ws: Seq<WiredView>, roots: Seq<usize>, k: int, p: int) -> Seq<(usize, usize)>
    decreases p,
{
    if p <= 0 {
        Seq::empty()
    } else {
        let rest = pin_edges(ws, roots, k, p - 1);
        match cone_source(ws, roots, k, p - 1) {
            Some(x) => rest.push((x, k as usize)),
            None => rest,
        }
    }
}

/// The (source, sink) edges among the cone instances of `0..k`.
pub open spec fn cone_edges(ws: Seq<WiredView>, roots: Seq<usize>, k: int) -> Seq<(usize, usize)>
    decreases k,
{
    if k <= 0 {
        Seq::empty()
    } else if in_cone(ws, roots, k - 1) {
        cone_edges(ws, roots, k - 1) + pin_edges(ws, roots, k - 1, ws[k - 1].input_sources.len() as int)
    } else {
        cone_edges(ws, roots, k - 1)
    }
}

/// Cone instance `i` is not placed yet and every cone source of it is.
pub open spec fn ready(ws: Seq<WiredView>, roots: Seq<usize>, placed: Seq<usize>, i: int) -> bool {
    &&& 0 <= i < ws.len()
    &&& in_cone(ws, roots, i)
    &&& !placed.contains(i as usize)
    &&& forall|p: int| 0 <= p < ws[i].input_sources.len() && (#[trigger] cone_source(ws, roots, i, p)) is Some
        ==> placed.contains(cone_source(ws, roots, i, p)->0)
}

/// The ready instance of `0..j` with the least name (the first of equals).
pub open spec fn best_ready(ws: Seq<WiredView>, roots: Seq<usize>, placed: Seq<usize>, j: int) -> Option<usize>
    decreases j,
{
    if j <= 0 {
        None
    } else {
        let b = best_ready(ws, roots, placed, j - 1);
        if ready(ws, roots, placed, j - 1) && (b is None || !chars_le(ws[b->0 as int].name, ws[j - 1].name)) {
            Some((j - 1) as usize)
        } else {
            b
        }
    }
}

/// Places ready instances one at a time, always the one with the least
/// name, for at most `fuel` steps.
pub open spec fn greedy_order(ws: Seq<WiredView>, roots: Seq<usize>, placed: Seq<usize>, fuel: nat) -> Seq<usize>
    decreases fuel,
{
    if fuel == 0 {
        placed
    } else {
        match best_ready(ws, roots, placed, ws.len() as int) {
            None => placed,
            Some(i) => greedy_order(ws, roots, placed.push(i), (fuel - 1) as nat),
        }
    }
}

/// The evaluation order of the cone: sources before the instances they
/// feed, the least name first among the instances that are ready; a cycle
/// in the cone refuses the netlist.
pub open spec fn cone_order_spec(ws: Seq<WiredView>, roots: Seq<usize>) -> Result<Seq<usize>, Seq<char>> {
    if acyclic(ws.len(), cone_edges(ws, roots, ws.len() as int)) {
        Ok(greedy_order(ws, roots, Seq::empty(), ws.len()))
    } else {
        Err("cycle in mapped netlist"@)
    }
}

/// The cone's edges, for the cycle check.
fn cone_edge_list(c: &CircuitStructure, marks: &Vec<bool>) -> (r: Vec<(usize, usize)>)
    requires
        marks@.len() == c@.instances.len(),
        forall|i: int| 0 <= i < marks@.len() ==> #[trigger] marks@[i] == in_cone(c@.instances, c@.roots, i),
    ensures
        r@ == cone_edges(c@.instances, c@.roots, c@.instances.len() as int),
        forall|k: int| 0 <= k < r@.len() ==> (#[trigger] r@[k]).0 < c@.instances.len() && r@[k].1 < c@.instances.len(),
{
    let ghost ws = c@.instances;
    let ghost roots = c@.roots;
    let n = marks.len();
    let mut r: Vec<(usize, usize)> = Vec::new();
    let mut k: usize = 0;
    while k < n
        invariant
            0 <= k <= n,
            n == ws.len(),
            ws == c@.instances,
            roots == c@.roots,
            n == c.instances@.len(),
            marks@.len() == n,
            forall|i: int| 0 <= i < marks@.len() ==> #[trigger] marks@[i] == in_cone(ws, roots, i),
            r@ == cone_edges(ws, roots, k as int),
            forall|e: int| 0 <= e < r@.len() ==> (#[trigger] r@[e]).0 < n && r@[e].1 < n,
        decreases n - k,
    {
        if marks[k] {
            assert(ws[k as int] == wired_view(c.instances@[k as int]));
            let srcs = &c.instances[k].input_sources;
            let ghost base = r@;
            let mut p: usize = 0;
            while p < srcs.len()
                invariant
                    0 <= p <= srcs@.len(),
                    k < n,
                    n == ws.len(),
                    ws == c@.instances,
                    roots == c@.roots,
                    srcs@ == ws[k as int].input_sources,
                    marks@.len() == n,
                    forall|i: int| 0 <= i < marks@.len() ==> #[trigger] marks@[i] == in_cone(ws, roots, i),
                    r@ == base + pin_edges(ws, roots, k as int, p as int),
                    forall|e: int| 0 <= e < r@.len() ==> (#[trigger] r@[e]).0 < n && r@[e].1 < n,
                decreases srcs.len() - p,
            {
                match srcs[p] {
                    Some(x) => {
                        if x < n && marks[x] {
                            r.push((x, k));
                            assert(r@ =~= base + pin_edges(ws, roots, k as int, p + 1));
                        } else {
                            assert(r@ =~= base + pin_edges(ws, roots, k as int, p + 1));
                        }
                    },
                    None => {
                        assert(r@ =~= base + pin_edges(ws, roots, k as int, p + 1));
                    },
                }
                p = p + 1;
            }
        }
        k = k + 1;
    }
    r
}

/// Whether cone instance `i` is ready: unplaced, with its cone sources placed.
fn is_ready(c: &CircuitStructure, marks: &Vec<bool>, placed: &Vec<usize>, flags: &Vec<bool>, i: usize) -> (r: bool)
    requires
        marks@.len() == c@.instances.len(),
        flags@.len() == c@.instances.len(),
        i < c@.instances.len(),
        forall|x: int| 0 <= x < marks@.len() ==> #[trigger] marks@[x] == in_cone(c@.instances, c@.roots, x),
        forall|x: int| 0 <= x < flags@.len() ==> #[trigger] flags@[x] == placed@.contains(x as usize),
    ensures
        r == ready(c@.instances, c@.roots, placed@, i as int),
{
    let ghost ws = c@.instances;
    let ghost roots = c@.roots;
    if !marks[i] || flags[i] {
        return false;
    }
    assert(ws[i as int] == wired_view(c.instances@[i as int]));
    let srcs = &c.instances[i].input_sources;
    let n = marks.len();
    let mut p: usize = 0;
    while p < srcs.len()
        invariant
            0 <= p <= srcs@.len(),
            i < n,
            n == ws.len(),
            ws == c@.instances,
            roots == c@.roots,
            srcs@ == ws[i as int].input_sources,
            marks@.len() == n,
            flags@.len() == n,
            forall|x: int| 0 <= x < marks@.len() ==> #[trigger] marks@[x] == in_cone(ws, roots, x),
            forall|x: int| 0 <= x < flags@.len() ==> #[trigger] flags@[x] == placed@.contains(x as usize),
            forall|q: int| 0 <= q < p && (#[trigger] cone_source(ws, roots, i as int, q)) is Some
                ==> placed@.contains(cone_source(ws, roots, i as int, q)->0),
        decreases srcs.len() - p,
    {
        match srcs[p] {
            Some(x) => {
                if x < n && marks[x] && !flags[x] {
                    assert(cone_source(ws, roots, i as int, p as int) == Some(x));
                    return false;
                }
            },
            None => {},
        }
        p = p + 1;
    }
    true
}

/// The evaluation order of the cone (see `cone_order_spec`).
pub fn cone_order(c: &CircuitStructure) -> (r: Result<Vec<usize>, String>)
    ensures
        match cone_order_spec(c@.instances, c@.roots) {
            Ok(o) => r matches Ok(v) && v@ == o,
            Err(e) => r matches Err(m) && m@ == e,
        },
        r matches Ok(v) ==> sound_order(c@.instances, c@.roots, v@) && forall|u: int|
            0 <= u < c@.instances.len() && in_cone(c@.instances, c@.roots, u) ==> v@.contains(u as usize),
{
    let ghost ws = c@.instances;
    let ghost roots = c@.roots;
    let marks = cone_marks(c);
    let n = marks.len();
    let edges = cone_edge_list(c, &marks);
    match toposort_nodes(n, &edges) {
        Err(_) => {
            return Err(string_of(chars_of("cycle in mapped netlist").as_slice()));
        },
        Ok(o) => {
            proof {
                assert(crate::netlist::is_topological_order(n as nat, edges@, o@));
                assert(acyclic(n as nat, edges@));
            }
        },
    }
    proof {
        lemma_cone_order_complete(ws, roots);
    }
    let mut placed: Vec<usize> = Vec::new();
    let mut flags: Vec<bool> = Vec::new();
    let mut i: usize = 0;
    while i < n
        invariant
            0 <= i <= n,
            flags@.len() == i,
            forall|q: int| 0 <= q < i ==> !(#[trigger] flags@[q]),
        decreases n - i,
    {
        flags.push(false);
        i = i + 1;
    }
    let mut fuel: usize = n;
    assert forall|x: int| 0 <= x < flags@.len() implies #[trigger] flags@[x] == placed@.contains(x as usize) by {}
    while fuel > 0
        invariant
            n == ws.len(),
            ws == c@.instances,
            roots == c@.roots,
            marks@.len() == n,
            flags@.len() == n,
            forall|x: int| 0 <= x < marks@.len() ==> #[trigger] marks@[x] == in_cone(ws, roots, x),
            forall|x: int| 0 <= x < flags@.len() ==> #[trigger] flags@[x] == placed@.contains(x as usize),
            fuel <= n,
            greedy_order(ws, roots, placed@, fuel as nat) == greedy_order(ws, roots, Seq::empty(), n as nat),
        ensures
            placed@ == greedy_order(ws, roots, Seq::empty(), n as nat),
        decreases fuel,
    {
        let mut best: Option<usize> = None;
        let mut j: usize = 0;
        while j < n
            invariant
                0 <= j <= n,
                n == ws.len(),
                ws == c@.instances,
                roots == c@.roots,
                marks@.len() == n,
                flags@.len() == n,
                forall|x: int| 0 <= x < marks@.len() ==> #[trigger] marks@[x] == in_cone(ws, roots, x),
                forall|x: int| 0 <= x < flags@.len() ==> #[trigger] flags@[x] == placed@.contains(x as usize),
                best == best_ready(ws, roots, placed@, j as int),
                best is Some ==> best->0 < j,
            decreases n - j,
        {
            if is_ready(c, &marks, &placed, &flags, j) {
                let better = match best {
                    None => true,
                    Some(b) => {
                        assert(ws[b as int] == wired_view(c.instances@[b as int]));
                        assert(ws[j as int] == wired_view(c.instances@[j as int]));
                        let bn = chars_of(c.instances[b].name.as_str());
                        let jn = chars_of(c.instances[j].name.as_str());
                        !chars_less_eq(bn.as_slice(), jn.as_slice())
                    },
                };
                if better {
                    best = Some(j);
                }
            }
            j = j + 1;
        }
        match best {
            None => {
                break;
            },
            Some(b) => {
                let ghost before = placed@;
                placed.push(b);
                flags.set(b, true);
                proof {
                    assert forall|x: int| 0 <= x < flags@.len() implies #[trigger] flags@[x] == placed@.contains(x as usize) by {
                        if x == b as int {
                            assert(placed@[placed@.len() - 1] == b);
                        } else {
                            if before.contains(x as usize) {
                                let t = choose|t: int| 0 <= t < before.len() && before[t] == x as usize;
                                assert(placed@[t] == x as usize);
                            }
                            if placed@.contains(x as usize) {
                                let t = choose|t: int| 0 <= t < placed@.len() && placed@[t] == x as usize;
                                assert(t < before.len());
                                assert(before[t] == x as usize);
                            }
                        }
                    }
                }
                fuel = fuel - 1;
            },
        }
    }
    Ok(placed)
}

/// The (sink, pin) pairs of pins `0..p` of instance `k` whose cone source
/// is `src`.
pub open spec fn sink_pins(ws: Seq<WiredView>, roots: Seq<usize>, src: usize, k: int, p: int) -> Seq<(usize, usize)>
    decreases p,
{
    if p <= 0 {
        Seq::empty()
    } else {
        let rest = sink_pins(ws, roots, src, k, p - 1);
        if cone_source(ws, roots, k, p - 1) == Some(src) {
            rest.push((k as usize, (p - 1) as usize))
        } else {
            rest
        }
    }
}

/// The (sink, pin) pairs of the cone instances of `0..k` fed by `src`, by
/// sink, then pin.
pub open spec fn consumers_of(ws: Seq<WiredView>, roots: Seq<usize>, src: usize, k: int) -> Seq<(usize, usize)>
    decreases k,
{
    if k <= 0 {
        Seq::empty()
    } else if in_cone(ws, roots, k - 1) {
        consumers_of(ws, roots, src, k - 1) + sink_pins(ws, roots, src, k - 1, ws[k - 1].input_sources.len() as int)
    } else {
        consumers_of(ws, roots, src, k - 1)
    }
}

/// The (sink, pin) pairs of pins `0..p` of instance `k` that stand for
/// primary input `j`.
pub open spec fn primary_pins(ws: Seq<WiredView>, j: usize, k: int, p: int) -> Seq<(usize, usize)>
    decreases p,
{
    if p <= 0 {
        Seq::empty()
    } else {
        let rest = primary_pins(ws, j, k, p - 1);
        if ws[k].input_primary_index[p - 1] == Some(j) {
            rest.push((k as usize, (p - 1) as usize))
        } else {
            rest
        }
    }
}

/// The (sink, pin) pairs of the cone instances of `0..k` that read primary
/// input `j`, by sink, then pin.
pub open spec fn primary_consumers_of(ws: Seq<WiredView>, roots: Seq<usize>, j: usize, k: int) -> Seq<(usize, usize)>
    decreases k,
{
    if k <= 0 {
        Seq::empty()
    } else if in_cone(ws, roots, k - 1) {
        primary_consumers_of(ws, roots, j, k - 1) + primary_pins(ws, j, k - 1, ws[k - 1].input_primary_index.len() as int)
    } else {
        primary_consumers_of(ws, roots, j, k - 1)
    }
}

fn pushed_copy(v: &Vec<(usize, usize)>, x: (usize, usize)) -> (r: Vec<(usize, usize)>)
    ensures
        r@ == v@.push(x),
{
    let mut r: Vec<(usize, usize)> = Vec::new();
    let mut i: usize = 0;
    while i < v.len()
        invariant
            0 <= i <= v@.len(),
            r@ == v@.take(i as int),
        decreases v.len() - i,
    {
        r.push(v[i]);
        assert(r@ =~= v@.take(i + 1));
        i = i + 1;
    }
    assert(v@.take(i as int) =~= v@);
    r.push(x);
    r
}

/// For every instance, the cone instances and pins it feeds; for every
/// primary input, the cone instances and pins that read it; each by sink
/// index, then pin.
pub fn cone_consumers(c: &CircuitStructure, inputs: usize) -> (r: (Vec<Vec<(usize, usize)>>, Vec<Vec<(usize, usize)>>))
    ensures
        r.0@.len() == c@.instances.len(),
        forall|x: int| 0 <= x < c@.instances.len() ==> (#[trigger] r.0@[x])@ == consumers_of(
            c@.instances,
            c@.roots,
            x as usize,
            c@.instances.len() as int,
        ),
        r.1@.len() == inputs,
        forall|j: int| 0 <= j < inputs ==> (#[trigger] r.1@[j])@ == primary_consumers_of(
            c@.instances,
            c@.roots,
            j as usize,
            c@.instances.len() as int,
        ),
{
    let ghost ws = c@.instances;
    let ghost roots = c@.roots;
    let marks = cone_marks(c);
    let n = marks.len();
    let mut cons: Vec<Vec<(usize, usize)>> = Vec::new();
    let mut i: usize = 0;
    while i < n
        invariant
            0 <= i <= n,
            cons@.len() == i,
            forall|x: int| 0 <= x < i ==> (#[trigger] cons@[x])@ == Seq::<(usize, usize)>::empty(),
        decreases n - i,
    {
        cons.push(Vec::new());
        i = i + 1;
    }
    let mut prim: Vec<Vec<(usize, usize)>> = Vec::new();
    let mut i: usize = 0;
    while i < inputs
        invariant
            0 <= i <= inputs,
            prim@.len() == i,
            forall|x: int| 0 <= x < i ==> (#[trigger] prim@[x])@ == Seq::<(usize, usize)>::empty(),
        decreases inputs - i,
    {
        prim.push(Vec::new());
        i = i + 1;
    }
    let mut k: usize = 0;
    while k < n
        invariant
            0 <= k <= n,
            n == ws.len(),
            ws == c@.instances,
            roots == c@.roots,
            n == c.instances@.len(),
            marks@.len() == n,
            forall|x: int| 0 <= x < marks@.len() ==> #[trigger] marks@[x] == in_cone(ws, roots, x),
            cons@.len() == n,
            prim@.len() == inputs,
            forall|x: int| 0 <= x < n ==> (#[trigger] cons@[x])@ == consumers_of(ws, roots, x as usize, k as int),
            forall|x: int| 0 <= x < inputs ==> (#[trigger] prim@[x])@ == primary_consumers_of(ws, roots, x as usize, k as int),
        decreases n - k,
    {
        assert(ws[k as int] == wired_view(c.instances@[k as int]));
        if marks[k] {
            let srcs = &c.instances[k].input_sources;
            let ghost cons0 = cons@;
            let mut p: usize = 0;
            while p < srcs.len()
                invariant
                    0 <= p <= srcs@.len(),
                    k < n,
                    n == ws.len(),
                    ws == c@.instances,
                    roots == c@.roots,
                    srcs@ == ws[k as int].input_sources,
                    marks@.len() == n,
                    forall|x: int| 0 <= x < marks@.len() ==> #[trigger] marks@[x] == in_cone(ws, roots, x),
                    cons@.len() == n,
                    cons0.len() == n,
                    forall|x: int| 0 <= x < n ==> (#[trigger] cons@[x])@ == cons0[x]@ + sink_pins(ws, roots, x as usize, k as int, p as int),
                decreases srcs.len() - p,
            {
                match srcs[p] {
                    Some(x) => {
                        if x < n && marks[x] {
                            let e = pushed_copy(&cons[x], (k, p));
                            let ghost mid = cons@;
                            cons.set(x, e);
                            proof {
                                assert(cone_source(ws, roots, k as int, p as int) == Some(x));
                                assert forall|y: int| 0 <= y < n implies (#[trigger] cons@[y])@ == cons0[y]@ + sink_pins(ws, roots, y as usize, k as int, p + 1) by {
                                    if y == x as int {
                                        assert(cons@[y]@ =~= mid[y]@.push((k, p)));
                                    } else {
                                        assert(cons@[y] == mid[y]);
                                    }
                                }
                            }
                        } else {
                            assert(cone_source(ws, roots, k as int, p as int) is None);
                        }
                    },
                    None => {
                        assert(cone_source(ws, roots, k as int, p as int) is None);
                    },
                }
                p = p + 1;
            }
            let prims = &c.instances[k].input_primary_index;
            let ghost prim0 = prim@;
            let mut p: usize = 0;
            while p < prims.len()
                invariant
                    0 <= p <= prims@.len(),
                    k < n,
                    n == ws.len(),
                    ws == c@.instances,
                    prims@ == ws[k as int].input_primary_index,
                    prim@.len() == inputs,
                    prim0.len() == inputs,
                    forall|x: int| 0 <= x < inputs ==> (#[trigger] prim@[x])@ == prim0[x]@ + primary_pins(ws, x as usize, k as int, p as int),
                decreases prims.len() - p,
            {
                match prims[p] {
                    Some(j) => {
                        if j < inputs {
                            let e = pushed_copy(&prim[j], (k, p));
                            let ghost mid = prim@;
                            prim.set(j, e);
                            proof {
                                assert forall|y: int| 0 <= y < inputs implies (#[trigger] prim@[y])@ == prim0[y]@ + primary_pins(ws, y as usize, k as int, p + 1) by {
                                    if y == j as int {
                                        assert(prim@[y]@ =~= mid[y]@.push((k, p)));
                                    } else {
                                        assert(prim@[y] == mid[y]);
                                    }
                                }
                            }
                        }
                    },
                    None => {},
                }
                p = p + 1;
            }
        }
        k = k + 1;
    }
    (cons, prim)
}

/// A sequence of `n` distinct indices below `n` lists every index below `n`.
proof fn lemma_full_listing(o: Seq<usize>, n: nat, x: usize)
    requires
        o.len() == n,
        o.no_duplicates(),
        forall|i: int| 0 <= i < o.len() ==> #[trigger] o[i] < n,
        x < n,
    ensures
        o.contains(x),
{
    let oi = o.map_values(|v: usize| v as int);
    assert(oi.no_duplicates()) by {
        assert forall|a: int, b: int| 0 <= a < oi.len() && 0 <= b < oi.len() && a != b implies oi[a] != oi[b] by {
            assert(o[a] != o[b]);
        }
    }
    oi.unique_seq_to_set();
    vstd::seq_lib::seq_to_set_is_finite(oi);
    vstd::set_lib::lemma_int_range(0, n as int);
    let r = vstd::set_lib::set_int_range(0, n as int);
    assert(oi.to_set().subset_of(r)) by {
        assert forall|v: int| oi.to_set().contains(v) implies r.contains(v) by {
            let i = choose|i: int| 0 <= i < oi.len() && oi[i] == v;
        }
    }
    vstd::set_lib::lemma_subset_equality(oi.to_set(), r);
    assert(r.contains(x as int));
    assert(oi.to_set().contains(x as int));
    let i = choose|i: int| 0 <= i < oi.len() && oi[i] == x as int;
    assert(o[i] == x);
}

proof fn lemma_pin_edge(ws: Seq<WiredView>, roots: Seq<usize>, k: int, p: int, q: int)
    requires
        0 <= q < p,
        cone_source(ws, roots, k, q) is Some,
    ensures
        pin_edges(ws, roots, k, p).contains((cone_source(ws, roots, k, q)->0, k as usize)),
    decreases p,
{
    let e = (cone_source(ws, roots, k, q)->0, k as usize);
    let rest = pin_edges(ws, roots, k, p - 1);
    if q == p - 1 {
        assert(pin_edges(ws, roots, k, p) == rest.push(e));
        assert(pin_edges(ws, roots, k, p)[rest.len() as int] == e);
    } else {
        lemma_pin_edge(ws, roots, k, p - 1, q);
        let t = choose|t: int| 0 <= t < rest.len() && rest[t] == e;
        assert(pin_edges(ws, roots, k, p)[t] == e);
    }
}

/// A cone instance reads each cone source through an edge of the cone.
proof fn lemma_cone_edge(ws: Seq<WiredView>, roots: Seq<usize>, m: int, k: int, q: int)
    requires
        0 <= k < m,
        m <= ws.len(),
        in_cone(ws, roots, k),
        0 <= q < ws[k].input_sources.len(),
        cone_source(ws, roots, k, q) is Some,
    ensures
        cone_edges(ws, roots, m).contains((cone_source(ws, roots, k, q)->0, k as usize)),
    decreases m,
{
    let e = (cone_source(ws, roots, k, q)->0, k as usize);
    let prev = cone_edges(ws, roots, m - 1);
    if k == m - 1 {
        let pe = pin_edges(ws, roots, k, ws[k].input_sources.len() as int);
        lemma_pin_edge(ws, roots, k, ws[k].input_sources.len() as int, q);
        let t = choose|t: int| 0 <= t < pe.len() && pe[t] == e;
        assert(cone_edges(ws, roots, m) == prev + pe);
        assert(cone_edges(ws, roots, m)[prev.len() + t] == e);
    } else {
        lemma_cone_edge(ws, roots, m - 1, k, q);
        let t = choose|t: int| 0 <= t < prev.len() && prev[t] == e;
        if in_cone(ws, roots, m - 1) {
            assert(cone_edges(ws, roots, m)[t] == e);
        }
    }
}

/// When some instance of `0..j` is ready, the scan finds a ready one.
proof fn lemma_best_ready_found(ws: Seq<WiredView>, roots: Seq<usize>, placed: Seq<usize>, j: int, x: int)
    requires
        0 <= x < j,
        ready(ws, roots, placed, x),
    ensures
        best_ready(ws, roots, placed, j) is Some,
    decreases j,
{
    if x < j - 1 {
        lemma_best_ready_found(ws, roots, placed, j - 1, x);
    }
}

proof fn lemma_best_ready_is_ready(ws: Seq<WiredView>, roots: Seq<usize>, placed: Seq<usize>, j: int)
    requires
        best_ready(ws, roots, placed, j) is Some,
        j <= ws.len() <= usize::MAX,
    ensures
        ready(ws, roots, placed, best_ready(ws, roots, placed, j)->0 as int),
        best_ready(ws, roots, placed, j)->0 < j,
    decreases j,
{
    if j > 0 {
        let b = best_ready(ws, roots, placed, j - 1);
        if !(ready(ws, roots, placed, j - 1) && (b is None || !chars_le(ws[b->0 as int].name, ws[j - 1].name))) {
            lemma_best_ready_is_ready(ws, roots, placed, j - 1);
        }
    }
}

/// The order lists each instance once, only cone instances, and each cone
/// source before the instances it feeds.
pub open spec fn sound_order(ws: Seq<WiredView>, roots: Seq<usize>, placed: Seq<usize>) -> bool {
    &&& placed.no_duplicates()
    &&& forall|t: int| 0 <= t < placed.len() ==> #[trigger] placed[t] < ws.len() && in_cone(ws, roots, placed[t] as int)
    &&& forall|t: int, q: int|
        0 <= t < placed.len() && 0 <= q < ws[placed[t] as int].input_sources.len() && (#[trigger] cone_source(
            ws,
            roots,
            placed[t] as int,
            q,
        )) is Some ==> placed.take(t).contains(cone_source(ws, roots, placed[t] as int, q)->0)
}

/// On an acyclic cone, an unplaced cone instance leaves some instance ready.
proof fn lemma_some_ready(ws: Seq<WiredView>, roots: Seq<usize>, placed: Seq<usize>, o: Seq<usize>, u: int)
    requires
        ws.len() <= usize::MAX,
        is_topological_order(ws.len(), cone_edges(ws, roots, ws.len() as int), o),
        0 <= u < ws.len(),
        in_cone(ws, roots, u),
        !placed.contains(u as usize),
    ensures
        best_ready(ws, roots, placed, ws.len() as int) is Some,
{
    let n = ws.len();
    let edges = cone_edges(ws, roots, n as int);
    lemma_full_listing(o, n, u as usize);
    let pu = choose|t: int| 0 <= t < o.len() && o[t] == u as usize;
    let t0 = lemma_first_open(ws, roots, placed, o, pu + 1, pu);
    let x = o[t0] as int;
    assert forall|q: int| 0 <= q < ws[x].input_sources.len() && (#[trigger] cone_source(ws, roots, x, q)) is Some
        implies placed.contains(cone_source(ws, roots, x, q)->0) by {
        let sv = cone_source(ws, roots, x, q)->0;
        lemma_cone_edge(ws, roots, n as int, x, q);
        let k = choose|k: int| 0 <= k < edges.len() && edges[k] == (sv, x as usize);
        lemma_full_listing(o, n, sv);
        let i = choose|i: int| 0 <= i < o.len() && o[i] == sv;
        assert(o[t0] == x as usize);
        assert(i < t0);
        if !placed.contains(sv) {
            assert(in_cone(ws, roots, sv as int));
        }
    }
    lemma_best_ready_found(ws, roots, placed, n as int, x);
}

/// The first position of `o[..bound]` holding an unplaced cone instance.
proof fn lemma_first_open(ws: Seq<WiredView>, roots: Seq<usize>, placed: Seq<usize>, o: Seq<usize>, bound: int, w: int) -> (t0: int)
    requires
        0 <= w < bound <= o.len(),
        o[w] < ws.len(),
        in_cone(ws, roots, o[w] as int),
        !placed.contains(o[w]),
        forall|i: int| 0 <= i < o.len() ==> #[trigger] o[i] < ws.len(),
    ensures
        0 <= t0 <= w,
        in_cone(ws, roots, o[t0] as int),
        !placed.contains(o[t0]),
        forall|i: int| 0 <= i < t0 ==> !(in_cone(ws, roots, #[trigger] o[i] as int) && !placed.contains(o[i])),
    decreases bound,
{
    if bound - 1 > w {
        lemma_first_open(ws, roots, placed, o, bound - 1, w)
    } else {
        let earlier = exists|i: int| 0 <= i < w && in_cone(ws, roots, #[trigger] o[i] as int) && !placed.contains(o[i]);
        if earlier {
            let i = choose|i: int| 0 <= i < w && in_cone(ws, roots, #[trigger] o[i] as int) && !placed.contains(o[i]);
            lemma_first_open(ws, roots, placed, o, w, i)
        } else {
            w
        }
    }
}

proof fn lemma_greedy_sound(ws: Seq<WiredView>, roots: Seq<usize>, placed: Seq<usize>, fuel: nat, o: Seq<usize>)
    requires
        ws.len() <= usize::MAX,
        is_topological_order(ws.len(), cone_edges(ws, roots, ws.len() as int), o),
        sound_order(ws, roots, placed),
        placed.len() + fuel == ws.len(),
    ensures
        sound_order(ws, roots, greedy_order(ws, roots, placed, fuel)),
        forall|u: int| 0 <= u < ws.len() && in_cone(ws, roots, u) ==> greedy_order(ws, roots, placed, fuel).contains(
            u as usize,
        ),
    decreases fuel,
{
    let n = ws.len();
    if fuel == 0 {
        assert forall|u: int| 0 <= u < n && in_cone(ws, roots, u) implies placed.contains(u as usize) by {
            lemma_full_listing(placed, n, u as usize);
        }
    } else {
        match best_ready(ws, roots, placed, n as int) {
            None => {
                assert forall|u: int| 0 <= u < n && in_cone(ws, roots, u) implies placed.contains(u as usize) by {
                    if !placed.contains(u as usize) {
                        lemma_some_ready(ws, roots, placed, o, u);
                    }
                }
            },
            Some(i) => {
                lemma_best_ready_is_ready(ws, roots, placed, n as int);
                let next = placed.push(i);
                assert(sound_order(ws, roots, next)) by {
                    assert forall|a: int, b: int| 0 <= a < next.len() && 0 <= b < next.len() && a != b implies next[a] != next[b] by {
                        if a < placed.len() && b < placed.len() {
                        } else if a < placed.len() {
                            assert(placed.contains(next[a]));
                        } else {
                            assert(placed.contains(next[b]));
                        }
                    }
                    assert forall|t: int, q: int|
                        0 <= t < next.len() && 0 <= q < ws[next[t] as int].input_sources.len() && (#[trigger] cone_source(
                            ws,
                            roots,
                            next[t] as int,
                            q,
                        )) is Some implies next.take(t).contains(cone_source(ws, roots, next[t] as int, q)->0) by {
                        if t < placed.len() {
                            assert(next.take(t) =~= placed.take(t));
                        } else {
                            assert(next.take(t) =~= placed);
                        }
                    }
                }
                lemma_greedy_sound(ws, roots, next, (fuel - 1) as nat, o);
            },
        }
    }
}

/// On an acyclic cone, the evaluation order lists every cone instance
/// exactly once, only cone instances, and each cone source before the
/// instances it feeds.
pub proof fn lemma_cone_order_complete(ws: Seq<WiredView>, roots: Seq<usize>)
    requires
        ws.len() <= usize::MAX,
        acyclic(ws.len(), cone_edges(ws, roots, ws.len() as int)),
    ensures
        sound_order(ws, roots, greedy_order(ws, roots, Seq::empty(), ws.len())),
        forall|u: int| 0 <= u < ws.len() && in_cone(ws, roots, u) ==> greedy_order(ws, roots, Seq::empty(), ws.len()).contains(
            u as usize,
        ),
{
    let o = choose|o: Seq<usize>| is_topological_order(ws.len(), cone_edges(ws, roots, ws.len() as int), o);
    lemma_greedy_sound(ws, roots, Seq::empty(), ws.len(), o);
}

} // verus!
