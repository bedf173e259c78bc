//! The and-inverter netlist that the records of an ASCII AIGER file
//! describe.  A literal is `2 * variable + inverted`; variable 0 is the
//! constant false.
use vstd::prelude::*;

use crate::language::{AigModel, AigType};
use crate::netlist::Netlist;
use crate::text::{copy_string, decimal, decimal_string};

verus! {

#[verifier::external_type_specification]
#[verifier::external_body]
pub struct ExAigerError(aiger::AigerError);

#[verifier::external_type_specification]
#[verifier::external_body]
pub struct ExAiger(aiger::Aiger);

/// Why the AIGER reader refuses a header or a record.
#[derive(Clone, Copy, Debug, PartialEq, Eq, Structural)]
pub enum AigerErrorKind {
    InvalidHeader,
    InvalidLiteral,
    LiteralOutOfRange,
    InvalidLiteralCount,
    InvalidInverted,
    InvalidSymbol,
    IoError,
}

#[verifier::external_type_specification]
#[verifier::external_body]
pub struct ExIoError(std::io::Error);

/// Why an AIGER file does not become a netlist.
#[derive(Debug)]
pub enum ReadError {
    /// Latches are not supported.
    NotImplementedForLatch,
    /// An input literal is inverted.
    InvalidInverted,
    /// A literal uses a variable that nothing defined before.
    InvalidLiteral,
    /// An input carries a symbol that is not an input symbol.
    InvalidInputSymbol,
    /// An output carries a symbol that is not an output symbol.
    InvalidOutputSymbol,
    /// A symbol names a position past the inputs or outputs read so far.
    SymbolPositionOutOfBound,
    /// The reader refused the file.
    AigerError(AigerErrorKind),
    /// A line after the records is empty or starts with a byte outside
    /// ASCII, which the reader cannot take apart as a symbol.
    UnreadableSymbolLine,
    /// The file could not be read.
    IoError(std::io::Error),
}

/// What a symbol of the symbol table names.
#[derive(Clone, Copy, Debug, PartialEq, Eq, Structural)]
pub enum SymbolKind {
    Input,
    Latch,
    Output,
}

/// One record of an AIGER file.
#[derive(Debug)]
pub enum AigerRecord {
    Input(usize),
    Latch { output: usize, input: usize },
    Output(usize),
    AndGate { output: usize, inputs: [usize; 2] },
    Symbol { type_spec: SymbolKind, position: usize, symbol: String },
}

/// The value of a record.
pub enum RecordView {
    Input(usize),
    Latch { output: usize, input: usize },
    Output(usize),
    AndGate { output: usize, inputs: [usize; 2] },
    Symbol { type_spec: SymbolKind, position: usize, symbol: Seq<char> },
}

pub open spec fn record_view(r: Result<AigerRecord, AigerErrorKind>) -> Result<RecordView, AigerErrorKind> {
    match r {
        Err(e) => Err(e),
        Ok(AigerRecord::Input(l)) => Ok(RecordView::Input(l)),
        Ok(AigerRecord::Latch { output, input }) => Ok(RecordView::Latch { output, input }),
        Ok(AigerRecord::Output(l)) => Ok(RecordView::Output(l)),
        Ok(AigerRecord::AndGate { output, inputs }) => Ok(RecordView::AndGate { output, inputs }),
        Ok(AigerRecord::Symbol { type_spec, position, symbol }) => Ok(
            RecordView::Symbol { type_spec, position, symbol: symbol@ },
        ),
    }
}

/// The values of a list of records.
pub open spec fn records_view(v: Seq<Result<AigerRecord, AigerErrorKind>>) -> Seq<Result<RecordView, AigerErrorKind>> {
    v.map_values(|r: Result<AigerRecord, AigerErrorKind>| record_view(r))
}

/// The variable of a literal.
pub open spec fn lit_var(l: usize) -> usize {
    l / 2
}

/// Whether a literal inverts its variable.
pub open spec fn lit_inverted(l: usize) -> bool {
    l % 2 == 1
}

/// The records of a file, gathered: inputs, outputs and gates in order, and
/// the symbols by literal (a later symbol for a literal replaces an earlier
/// one).
#[verifier::ext_equal]
pub struct AigerModel {
    pub inputs: Seq<usize>,
    pub outputs: Seq<usize>,
    pub gates: Seq<(usize, usize, usize)>,
    pub symbols: Seq<(usize, SymbolKind, Seq<char>)>,
}

/// The gathered records in executable form.
pub struct AigerData {
    pub inputs: Vec<usize>,
    pub outputs: Vec<usize>,
    pub gates: Vec<(usize, usize, usize)>,
    pub symbols: Vec<(usize, SymbolKind, String)>,
}

impl AigerData {
    pub open spec fn model(&self) -> AigerModel {
        AigerModel {
            inputs: self.inputs@,
            outputs: self.outputs@,
            gates: self.gates@,
            symbols: self.symbols@.map_values(|e: (usize, SymbolKind, String)| (e.0, e.1, e.2@)),
        }
    }
}

/// The symbol of literal `l`: the last one recorded for it.
pub open spec fn symbol_of(symbols: Seq<(usize, SymbolKind, Seq<char>)>, l: usize) -> Option<(SymbolKind, Seq<char>)>
    decreases symbols.len(),
{
    if symbols.len() == 0 {
        None
    } else if symbols.last().0 == l {
        Some((symbols.last().1, symbols.last().2))
    } else {
        symbol_of(symbols.drop_last(), l)
    }
}

/// The result of one record on the records gathered so far.
pub open spec fn parse_step(d: AigerModel, r: Result<RecordView, AigerErrorKind>) -> Result<AigerModel, ReadError> {
    match r {
        Err(e) => Err(ReadError::AigerError(e)),
        Ok(RecordView::Input(l)) => Ok(AigerModel { inputs: d.inputs.push(l), ..d }),
        Ok(RecordView::Output(l)) => Ok(AigerModel { outputs: d.outputs.push(l), ..d }),
        Ok(RecordView::AndGate { output, inputs }) => Ok(
            AigerModel { gates: d.gates.push((output, inputs[0], inputs[1])), ..d },
        ),
        Ok(RecordView::Latch { .. }) => Err(ReadError::NotImplementedForLatch),
        Ok(RecordView::Symbol { type_spec, position, symbol }) => match type_spec {
            SymbolKind::Latch => Err(ReadError::NotImplementedForLatch),
            SymbolKind::Input => if position < d.inputs.len() {
                Ok(
                    AigerModel {
                        symbols: d.symbols.push((d.inputs[position as int], type_spec, symbol)),
                        ..d
                    },
                )
            } else {
                Err(ReadError::SymbolPositionOutOfBound)
            },
            SymbolKind::Output => if position < d.outputs.len() {
                Ok(
                    AigerModel {
                        symbols: d.symbols.push((d.outputs[position as int], type_spec, symbol)),
                        ..d
                    },
                )
            } else {
                Err(ReadError::SymbolPositionOutOfBound)
            },
        },
    }
}

/// The first `k` records gathered, or the first error among them.
pub open spec fn parse_records(rs: Seq<Result<RecordView, AigerErrorKind>>, k: nat) -> Result<AigerModel, ReadError>
    decreases k,
{
    if k == 0 {
        Ok(AigerModel { inputs: Seq::empty(), outputs: Seq::empty(), gates: Seq::empty(), symbols: Seq::empty() })
    } else {
        match parse_records(rs, (k - 1) as nat) {
            Err(e) => Err(e),
            Ok(d) => if k - 1 < rs.len() {
                parse_step(d, rs[k - 1])
            } else {
                Ok(d)
            },
        }
    }
}

proof fn lemma_parse_error_stable(rs: Seq<Result<RecordView, AigerErrorKind>>, k: nat, n: nat)
    requires
        k <= n,
        parse_records(rs, k) is Err,
    ensures
        parse_records(rs, n) == parse_records(rs, k),
    decreases n,
{
    if k < n {
        lemma_parse_error_stable(rs, k, (n - 1) as nat);
    }
}

fn symbols_view(v: &Vec<(usize, SymbolKind, String)>) -> (r: Ghost<Seq<(usize, SymbolKind, Seq<char>)>>)
    ensures
        r@ == v@.map_values(|e: (usize, SymbolKind, String)| (e.0, e.1, e.2@)),
{
    Ghost(v@.map_values(|e: (usize, SymbolKind, String)| (e.0, e.1, e.2@)))
}

/// Gathers the records of a file, stopping at the first error.
pub fn parse_aag(records: Vec<Result<AigerRecord, AigerErrorKind>>) -> (r: Result<AigerData, ReadError>)
    ensures
        match parse_records(records_view(records@), records@.len()) {
            Ok(m) => r matches Ok(d) && d.model() == m,
            Err(e) => r matches Err(x) && x == e,
        },
{
    let ghost rs = records@;
    assert(rs.len() == records.len());
    let mut data = AigerData { inputs: Vec::new(), outputs: Vec::new(), gates: Vec::new(), symbols: Vec::new() };
    assert(data.model().symbols =~= Seq::<(usize, SymbolKind, Seq<char>)>::empty());
    let mut rest = records;
    let mut k: usize = 0;
    while rest.len() > 0
        invariant
            k <= rs.len(),
            rs == records@,
            rs.len() <= usize::MAX,
            rest@ == rs.skip(k as int),
            parse_records(records_view(rs), k as nat) == Ok::<AigerModel, ReadError>(data.model()),
        decreases rest.len(),
    {
        let ghost rb = rest@;
        let ghost before = data.model();
        let record = rest.remove(0);
        assert(rb[0] == rs[k as int]);
        assert(rest@ =~= rs.skip(k + 1));
        assert(record == rs[k as int]);
        assert(parse_records(records_view(rs), (k + 1) as nat) == parse_step(before, record_view(rs[k as int])));
        match record {
            Err(e) => {
                proof {
                    lemma_parse_error_stable(records_view(rs), (k + 1) as nat, rs.len());
                }
                return Err(ReadError::AigerError(e));
            },
            Ok(AigerRecord::Input(l)) => {
                data.inputs.push(l);
                assert(data.model().symbols =~= before.symbols);
            },
            Ok(AigerRecord::Output(l)) => {
                data.outputs.push(l);
                assert(data.model().symbols =~= before.symbols);
            },
            Ok(AigerRecord::AndGate { output, inputs }) => {
                data.gates.push((output, inputs[0], inputs[1]));
                assert(data.model().symbols =~= before.symbols);
            },
            Ok(AigerRecord::Latch { .. }) => {
                proof {
                    lemma_parse_error_stable(records_view(rs), (k + 1) as nat, rs.len());
                }
                return Err(ReadError::NotImplementedForLatch);
            },
            Ok(AigerRecord::Symbol { type_spec, position, symbol }) => {
                let ghost sym = symbol@;
                let l = match type_spec {
                    SymbolKind::Input => {
                        if position < data.inputs.len() {
                            data.inputs[position]
                        } else {
                            proof {
                                lemma_parse_error_stable(records_view(rs), (k + 1) as nat, rs.len());
                            }
                            return Err(ReadError::SymbolPositionOutOfBound);
                        }
                    },
                    SymbolKind::Output => {
                        if position < data.outputs.len() {
                            data.outputs[position]
                        } else {
                            proof {
                                lemma_parse_error_stable(records_view(rs), (k + 1) as nat, rs.len());
                            }
                            return Err(ReadError::SymbolPositionOutOfBound);
                        }
                    },
                    SymbolKind::Latch => {
                        proof {
                            lemma_parse_error_stable(records_view(rs), (k + 1) as nat, rs.len());
                        }
                        return Err(ReadError::NotImplementedForLatch);
                    },
                };
                data.symbols.push((l, type_spec, symbol));
                assert(data.model().symbols =~= before.symbols.push((l, type_spec, sym)));
            },
        }
        k = k + 1;
    }
    assert(rs.skip(k as int).len() == 0);
    Ok(data)
}

/// A netlist under construction, with the node of each variable (the last
/// entry for a variable is its node).
#[verifier::ext_equal]
pub struct BuildModel {
    pub nodes: Seq<AigModel>,
    pub edges: Seq<(usize, usize)>,
    pub leaves: Seq<usize>,
    pub roots: Seq<usize>,
    pub vars: Seq<(usize, usize)>,
}

/// The node of variable `v`.
pub open spec fn var_node(vars: Seq<(usize, usize)>, v: usize) -> Option<usize>
    decreases vars.len(),
{
    if vars.len() == 0 {
        None
    } else if vars.last().0 == v {
        Some(vars.last().1)
    } else {
        var_node(vars.drop_last(), v)
    }
}

/// The node that a defined literal drives: its variable's node, through a
/// new inverter when the literal is inverted.
pub open spec fn attach(st: BuildModel, l: usize) -> (BuildModel, usize) {
    let base = var_node(st.vars, lit_var(l))->0;
    if lit_inverted(l) {
        let nid = st.nodes.len() as usize;
        (BuildModel { nodes: st.nodes.push(AigModel::Not), edges: st.edges.push((nid, base)), ..st }, nid)
    } else {
        (st, base)
    }
}

/// The name of an input or output literal: its symbol, or its variable
/// number; a symbol of another kind is refused with `bad`.
pub open spec fn literal_name(
    symbols: Seq<(usize, SymbolKind, Seq<char>)>,
    l: usize,
    kind: SymbolKind,
) -> Option<Seq<char>> {
    match symbol_of(symbols, l) {
        Some((k, s)) => if k == kind {
            Some(s)
        } else {
            None
        },
        None => Some(decimal(lit_var(l) as nat)),
    }
}

/// Adds input `l`.
pub open spec fn input_step(st: BuildModel, symbols: Seq<(usize, SymbolKind, Seq<char>)>, l: usize) -> Result<BuildModel, ReadError> {
    if lit_inverted(l) {
        Err(ReadError::InvalidInverted)
    } else {
        match literal_name(symbols, l, SymbolKind::Input) {
            None => Err(ReadError::InvalidInputSymbol),
            Some(name) => {
                let nid = st.nodes.len() as usize;
                Ok(
                    BuildModel {
                        nodes: st.nodes.push(AigModel::Symbol(name)),
                        vars: st.vars.push((lit_var(l), nid)),
                        leaves: st.leaves.push(nid),
                        ..st
                    },
                )
            },
        }
    }
}

/// Adds the AND gate `(output, a, b)`.
pub open spec fn gate_step(st: BuildModel, g: (usize, usize, usize)) -> Result<BuildModel, ReadError> {
    if var_node(st.vars, lit_var(g.1)) is None || var_node(st.vars, lit_var(g.2)) is None {
        Err(ReadError::InvalidLiteral)
    } else {
        let (s1, i1) = attach(st, g.1);
        let (s2, i2) = attach(s1, g.2);
        let oid = s2.nodes.len() as usize;
        Ok(
            BuildModel {
                nodes: s2.nodes.push(AigModel::And),
                edges: s2.edges.push((oid, i1)).push((oid, i2)),
                vars: s2.vars.push((lit_var(g.0), oid)),
                ..s2
            },
        )
    }
}

/// Adds output `l`.
pub open spec fn output_step(st: BuildModel, symbols: Seq<(usize, SymbolKind, Seq<char>)>, l: usize) -> Result<BuildModel, ReadError> {
    if var_node(st.vars, lit_var(l)) is None {
        Err(ReadError::InvalidLiteral)
    } else {
        let (s1, iid) = attach(st, l);
        match literal_name(symbols, l, SymbolKind::Output) {
            None => Err(ReadError::InvalidOutputSymbol),
            Some(name) => {
                let oid = s1.nodes.len() as usize;
                Ok(
                    BuildModel {
                        nodes: s1.nodes.push(AigModel::Symbol(name)),
                        edges: s1.edges.push((oid, iid)),
                        roots: s1.roots.push(oid),
                        ..s1
                    },
                )
            },
        }
    }
}

pub open spec fn add_inputs(st: BuildModel, d: AigerModel, k: nat) -> Result<BuildModel, ReadError>
    decreases k,
{
    if k == 0 {
        Ok(st)
    } else {
        match add_inputs(st, d, (k - 1) as nat) {
            Err(e) => Err(e),
            Ok(s) => input_step(s, d.symbols, d.inputs[k - 1]),
        }
    }
}

pub open spec fn add_gates(st: BuildModel, d: AigerModel, k: nat) -> Result<BuildModel, ReadError>
    decreases k,
{
    if k == 0 {
        Ok(st)
    } else {
        match add_gates(st, d, (k - 1) as nat) {
            Err(e) => Err(e),
            Ok(s) => gate_step(s, d.gates[k - 1]),
        }
    }
}

pub open spec fn add_outputs(st: BuildModel, d: AigerModel, k: nat) -> Result<BuildModel, ReadError>
    decreases k,
{
    if k == 0 {
        Ok(st)
    } else {
        match add_outputs(st, d, (k - 1) as nat) {
            Err(e) => Err(e),
            Ok(s) => output_step(s, d.symbols, d.outputs[k - 1]),
        }
    }
}

/// Renames node `from` to `to` in an edge.
pub open spec fn rename_edge(e: (usize, usize), from: usize, to: usize) -> (usize, usize) {
    (if e.0 == from {
        to
    } else {
        e.0
    }, if e.1 == from {
        to
    } else {
        e.1
    })
}

/// The last step: the constant node 0 is removed when nothing uses it (the
/// last node takes its index, and the edges follow it; the leaf and root
/// lists are kept as they are), and is otherwise a leaf.
pub open spec fn finish(st: BuildModel) -> BuildModel {
    if exists|k: int| 0 <= k < st.edges.len() && (#[trigger] st.edges[k]).1 == 0 {
        BuildModel { leaves: st.leaves.push(0), ..st }
    } else if st.nodes.len() <= 1 {
        BuildModel { nodes: Seq::empty(), ..st }
    } else {
        let last = (st.nodes.len() - 1) as usize;
        BuildModel {
            nodes: st.nodes.update(0, st.nodes.last()).drop_last(),
            edges: st.edges.map_values(|e: (usize, usize)| rename_edge(e, last, 0)),
            ..st
        }
    }
}

/// Removing the unused constant moves the last node to index 0 but keeps
/// the leaf and root lists as they were: when the last node was a leaf or
/// a root, the finished netlist names a node index that no longer exists.
pub proof fn lemma_unused_constant_leaves_stale_index(st: BuildModel)
    requires
        !(exists|k: int| 0 <= k < st.edges.len() && (#[trigger] st.edges[k]).1 == 0),
        st.nodes.len() >= 2,
        st.leaves.contains((st.nodes.len() - 1) as usize) || st.roots.contains((st.nodes.len() - 1) as usize),
    ensures
        finish(st).leaves.contains(finish(st).nodes.len() as usize) || finish(st).roots.contains(
            finish(st).nodes.len() as usize,
        ),
{
    assert(finish(st).nodes.len() == st.nodes.len() - 1);
}

/// The empty netlist with the constant false as node 0 of variable 0.
pub open spec fn start_model() -> BuildModel {
    BuildModel {
        nodes: seq![AigModel::Bool(false)],
        edges: Seq::empty(),
        leaves: Seq::empty(),
        roots: Seq::empty(),
        vars: seq![(0usize, 0usize)],
    }
}

/// The netlist that the records describe, or the error they give.
pub open spec fn aag_netlist(latches: usize, records: Seq<Result<RecordView, AigerErrorKind>>) -> Result<BuildModel, ReadError> {
    if latches > 0 {
        Err(ReadError::NotImplementedForLatch)
    } else {
        match parse_records(records, records.len()) {
            Err(e) => Err(e),
            Ok(d) => match add_inputs(start_model(), d, d.inputs.len()) {
                Err(e) => Err(e),
                Ok(s1) => match add_gates(s1, d, d.gates.len()) {
                    Err(e) => Err(e),
                    Ok(s2) => match add_outputs(s2, d, d.outputs.len()) {
                        Err(e) => Err(e),
                        Ok(s3) => Ok(finish(s3)),
                    },
                },
            },
        }
    }
}

/// The model of a netlist under construction.
pub open spec fn build_view(net: Netlist<AigType>, vars: Seq<(usize, usize)>) -> BuildModel {
    BuildModel {
        nodes: net.nodes@.map_values(|n: AigType| n@),
        edges: net.edges@,
        leaves: net.leaves@,
        roots: net.roots@,
        vars,
    }
}

fn lookup_var(vars: &Vec<(usize, usize)>, v: usize) -> (r: Option<usize>)
    ensures
        r == var_node(vars@, v),
{
    let mut i: usize = vars.len();
    assert(vars@.take(i as int) =~= vars@);
    while i > 0
        invariant
            0 <= i <= vars@.len(),
            var_node(vars@, v) == var_node(vars@.take(i as int), v),
        decreases i,
    {
        assert(vars@.take(i as int).drop_last() =~= vars@.take(i - 1));
        if vars[i - 1].0 == v {
            return Some(vars[i - 1].1);
        }
        i = i - 1;
    }
    None
}

fn lookup_symbol(symbols: &Vec<(usize, SymbolKind, String)>, l: usize) -> (r: Option<(SymbolKind, String)>)
    ensures
        match symbol_of(symbols@.map_values(|e: (usize, SymbolKind, String)| (e.0, e.1, e.2@)), l) {
            None => r is None,
            Some((k, s)) => r matches Some(x) && x.0 == k && x.1@ == s,
        },
{
    let ghost m = symbols@.map_values(|e: (usize, SymbolKind, String)| (e.0, e.1, e.2@));
    let mut i: usize = symbols.len();
    assert(m.take(i as int) =~= m);
    while i > 0
        invariant
            0 <= i <= symbols@.len(),
            m == symbols@.map_values(|e: (usize, SymbolKind, String)| (e.0, e.1, e.2@)),
            symbol_of(m, l) == symbol_of(m.take(i as int), l),
        decreases i,
    {
        assert(m.take(i as int).drop_last() =~= m.take(i - 1));
        if symbols[i - 1].0 == l {
            return Some((symbols[i - 1].1, copy_string(&symbols[i - 1].2)));
        }
        i = i - 1;
    }
    None
}

fn attach_literal(net: &mut Netlist<AigType>, vars: &Vec<(usize, usize)>, l: usize) -> (r: usize)
    requires
        var_node(vars@, lit_var(l)) is Some,
    ensures
        (build_view(*final(net), vars@), r) == attach(build_view(*old(net), vars@), l),
{
    let base = match lookup_var(vars, l / 2) {
        Some(b) => b,
        None => 0,
    };
    if l % 2 == 1 {
        let nid = net.add_node(AigType::Not);
        net.add_edge(nid, base);
        assert(build_view(*net, vars@).nodes =~= build_view(*old(net), vars@).nodes.push(AigModel::Not));
        nid
    } else {
        base
    }
}

proof fn lemma_inputs_error_stable(st: BuildModel, d: AigerModel, k: nat, n: nat)
    requires
        k <= n,
        add_inputs(st, d, k) is Err,
    ensures
        add_inputs(st, d, n) == add_inputs(st, d, k),
    decreases n,
{
    if k < n {
        lemma_inputs_error_stable(st, d, k, (n - 1) as nat);
    }
}

proof fn lemma_gates_error_stable(st: BuildModel, d: AigerModel, k: nat, n: nat)
    requires
        k <= n,
        add_gates(st, d, k) is Err,
    ensures
        add_gates(st, d, n) == add_gates(st, d, k),
    decreases n,
{
    if k < n {
        lemma_gates_error_stable(st, d, k, (n - 1) as nat);
    }
}

proof fn lemma_outputs_error_stable(st: BuildModel, d: AigerModel, k: nat, n: nat)
    requires
        k <= n,
        add_outputs(st, d, k) is Err,
    ensures
        add_outputs(st, d, n) == add_outputs(st, d, k),
    decreases n,
{
    if k < n {
        lemma_outputs_error_stable(st, d, k, (n - 1) as nat);
    }
}

/// The node weights, edges, leaves and roots of a finished netlist.
pub open spec fn netlist_is(net: Netlist<AigType>, m: BuildModel) -> bool {
    &&& net.nodes@.map_values(|n: AigType| n@) == m.nodes
    &&& net.edges@ == m.edges
    &&& net.leaves@ == m.leaves
    &&& net.roots@ == m.roots
}

/// Builds the and-inverter netlist of an AIGER file from its header's latch
/// count and its records: node 0 is the constant false, each input becomes
/// a named leaf, each AND gate an `And` node over its two inputs (through
/// an inverter for an inverted literal), each output a named root over its
/// literal; the constant is dropped when nothing uses it.
pub fn aag_records_to_netlist(latches: usize, records: Vec<Result<AigerRecord, AigerErrorKind>>) -> (r: Result<Netlist<AigType>, ReadError>)
    ensures
        match aag_netlist(latches, records_view(records@)) {
            Ok(m) => r matches Ok(net) && netlist_is(net, m),
            Err(e) => r matches Err(x) && x == e,
        },
{
    if latches > 0 {
        return Err(ReadError::NotImplementedForLatch);
    }
    let data = match parse_aag(records) {
        Ok(d) => d,
        Err(e) => {
            return Err(e);
        },
    };
    let ghost d = data.model();
    let mut net: Netlist<AigType> = Netlist::new();
    net.add_node(AigType::Bool(false));
    let mut vars: Vec<(usize, usize)> = Vec::new();
    vars.push((0, 0));
    assert(build_view(net, vars@) =~= start_model()) by {
        assert(net.nodes@.map_values(|n: AigType| n@) =~= seq![AigModel::Bool(false)]);
        assert(vars@ =~= seq![(0usize, 0usize)]);
        assert(net.edges@ =~= Seq::<(usize, usize)>::empty());
        assert(net.leaves@ =~= Seq::<usize>::empty());
        assert(net.roots@ =~= Seq::<usize>::empty());
    }
    let mut i: usize = 0;
    while i < data.inputs.len()
        invariant
            0 <= i <= data.inputs@.len(),
            d == data.model(),
            latches == 0,
            parse_records(records_view(records@), records@.len()) == Ok::<AigerModel, ReadError>(d),
            add_inputs(start_model(), d, i as nat) == Ok::<BuildModel, ReadError>(build_view(net, vars@)),
        decreases data.inputs.len() - i,
    {
        let l = data.inputs[i];
        let ghost before = build_view(net, vars@);
        if l % 2 == 1 {
            proof {
                lemma_inputs_error_stable(start_model(), d, (i + 1) as nat, d.inputs.len());
            }
            return Err(ReadError::InvalidInverted);
        }
        let name = match lookup_symbol(&data.symbols, l) {
            Some((k, s)) => {
                if k != SymbolKind::Input {
                    proof {
                        lemma_inputs_error_stable(start_model(), d, (i + 1) as nat, d.inputs.len());
                    }
                    return Err(ReadError::InvalidInputSymbol);
                }
                s
            },
            None => decimal_string(l / 2),
        };
        let nid = net.add_node(AigType::Symbol(name));
        vars.push((l / 2, nid));
        net.leaves.push(nid);
        assert(build_view(net, vars@).nodes =~= before.nodes.push(
            AigModel::Symbol(literal_name(d.symbols, l, SymbolKind::Input)->0),
        ));
        assert(build_view(net, vars@) =~= input_step(before, d.symbols, l)->Ok_0);
        i = i + 1;
    }
    let ghost after_inputs = build_view(net, vars@);
    let mut g: usize = 0;
    while g < data.gates.len()
        invariant
            0 <= g <= data.gates@.len(),
            d == data.model(),
            latches == 0,
            parse_records(records_view(records@), records@.len()) == Ok::<AigerModel, ReadError>(d),
            add_inputs(start_model(), d, d.inputs.len()) == Ok::<BuildModel, ReadError>(after_inputs),
            add_gates(after_inputs, d, g as nat) == Ok::<BuildModel, ReadError>(build_view(net, vars@)),
        decreases data.gates.len() - g,
    {
        let (out, a, b) = data.gates[g];
        let ghost before = build_view(net, vars@);
        let va = lookup_var(&vars, a / 2);
        let vb = lookup_var(&vars, b / 2);
        if va.is_none() || vb.is_none() {
            proof {
                lemma_gates_error_stable(after_inputs, d, (g + 1) as nat, d.gates.len());
            }
            return Err(ReadError::InvalidLiteral);
        }
        let i1 = attach_literal(&mut net, &vars, a);
        let ghost mid = build_view(net, vars@);
        let i2 = attach_literal(&mut net, &vars, b);
        let ghost mid2 = build_view(net, vars@);
        let oid = net.add_node(AigType::And);
        net.add_edge(oid, i1);
        net.add_edge(oid, i2);
        vars.push((out / 2, oid));
        assert(build_view(net, vars@).nodes =~= mid2.nodes.push(AigModel::And));
        assert(build_view(net, vars@) =~= gate_step(before, (out, a, b))->Ok_0);
        g = g + 1;
    }
    let ghost after_gates = build_view(net, vars@);
    let mut o: usize = 0;
    while o < data.outputs.len()
        invariant
            0 <= o <= data.outputs@.len(),
            d == data.model(),
            latches == 0,
            parse_records(records_view(records@), records@.len()) == Ok::<AigerModel, ReadError>(d),
            add_inputs(start_model(), d, d.inputs.len()) == Ok::<BuildModel, ReadError>(after_inputs),
            add_gates(after_inputs, d, d.gates.len()) == Ok::<BuildModel, ReadError>(after_gates),
            add_outputs(after_gates, d, o as nat) == Ok::<BuildModel, ReadError>(build_view(net, vars@)),
        decreases data.outputs.len() - o,
    {
        let l = data.outputs[o];
        let ghost before = build_view(net, vars@);
        if lookup_var(&vars, l / 2).is_none() {
            proof {
                lemma_outputs_error_stable(after_gates, d, (o + 1) as nat, d.outputs.len());
            }
            return Err(ReadError::InvalidLiteral);
        }
        let iid = attach_literal(&mut net, &vars, l);
        let ghost mid = build_view(net, vars@);
        let name = match lookup_symbol(&data.symbols, l) {
            Some((k, s)) => {
                if k != SymbolKind::Output {
                    proof {
                        lemma_outputs_error_stable(after_gates, d, (o + 1) as nat, d.outputs.len());
                    }
                    return Err(ReadError::InvalidOutputSymbol);
                }
                s
            },
            None => decimal_string(l / 2),
        };
        let oid = net.add_node(AigType::Symbol(name));
        net.add_edge(oid, iid);
        net.roots.push(oid);
        assert(build_view(net, vars@).nodes =~= mid.nodes.push(
            AigModel::Symbol(literal_name(d.symbols, l, SymbolKind::Output)->0),
        ));
        assert(build_view(net, vars@) =~= output_step(before, d.symbols, l)->Ok_0);
        o = o + 1;
    }
    let ghost done = build_view(net, vars@);
    let mut used = false;
    let mut k: usize = 0;
    while k < net.edges.len()
        invariant
            0 <= k <= net.edges@.len(),
            build_view(net, vars@) == done,
            d == data.model(),
            latches == 0,
            parse_records(records_view(records@), records@.len()) == Ok::<AigerModel, ReadError>(d),
            add_inputs(start_model(), d, d.inputs.len()) == Ok::<BuildModel, ReadError>(after_inputs),
            add_gates(after_inputs, d, d.gates.len()) == Ok::<BuildModel, ReadError>(after_gates),
            add_outputs(after_gates, d, d.outputs.len()) == Ok::<BuildModel, ReadError>(done),
            used == exists|j: int| 0 <= j < k && (#[trigger] net.edges@[j]).1 == 0,
        decreases net.edges.len() - k,
    {
        if net.edges[k].1 == 0 {
            used = true;
        }
        k = k + 1;
    }
    assert(used == exists|j: int| 0 <= j < done.edges.len() && (#[trigger] done.edges[j]).1 == 0);
    if used {
        net.leaves.push(0);
    } else if net.nodes.len() <= 1 {
        net.nodes.clear();
        assert(net.nodes@.map_values(|n: AigType| n@) =~= Seq::<AigModel>::empty());
    } else {
        let last = net.nodes.len() - 1;
        let ghost old_nodes = net.nodes@;
        net.nodes.swap_remove(0);
        assert(net.nodes@.map_values(|n: AigType| n@) =~= done.nodes.update(0, done.nodes.last()).drop_last());
        let ghost old_edges = net.edges@;
        let mut e: usize = 0;
        while e < net.edges.len()
            invariant
                0 <= e <= net.edges@.len(),
                net.edges@.len() == old_edges.len(),
                old_edges == done.edges,
                net.nodes@.map_values(|n: AigType| n@) == done.nodes.update(0, done.nodes.last()).drop_last(),
                net.leaves@ == done.leaves,
                net.roots@ == done.roots,
                last == done.nodes.len() - 1,
                !used,
                done.nodes.len() > 1,
                d == data.model(),
                latches == 0,
                parse_records(records_view(records@), records@.len()) == Ok::<AigerModel, ReadError>(d),
                add_inputs(start_model(), d, d.inputs.len()) == Ok::<BuildModel, ReadError>(after_inputs),
                add_gates(after_inputs, d, d.gates.len()) == Ok::<BuildModel, ReadError>(after_gates),
                add_outputs(after_gates, d, d.outputs.len()) == Ok::<BuildModel, ReadError>(done),
                forall|j: int| 0 <= j < done.edges.len() ==> (#[trigger] done.edges[j]).1 != 0,
                forall|j: int| 0 <= j < e ==> #[trigger] net.edges@[j] == rename_edge(old_edges[j], last, 0),
                forall|j: int| e <= j < old_edges.len() ==> #[trigger] net.edges@[j] == old_edges[j],
            decreases net.edges.len() - e,
        {
            let (p, c) = net.edges[e];
            let p2 = if p == last {
                0
            } else {
                p
            };
            let c2 = if c == last {
                0
            } else {
                c
            };
            net.edges.set(e, (p2, c2));
            e = e + 1;
        }
        assert(net.edges@ =~= old_edges.map_values(|x: (usize, usize)| rename_edge(x, last, 0)));
    }
    Ok(net)
}


/// What the AIGER reader makes of a file's bytes: the header's latch count
/// and every record (or the reader's refusal of it), in file order up to a
/// comment line; or the refusal of the header.
pub uninterp spec fn aiger_read(bytes: Seq<u8>) -> Result<(usize, Seq<Result<RecordView, AigerErrorKind>>), AigerErrorKind>;

/// The library's form of an error of the AIGER reader (one arm per variant).
#[verifier::external_body]
fn error_kind(e: aiger::AigerError) -> AigerErrorKind {
    match e {
        aiger::AigerError::InvalidHeader => AigerErrorKind::InvalidHeader,
        aiger::AigerError::InvalidLiteral => AigerErrorKind::InvalidLiteral,
        aiger::AigerError::LiteralOutOfRange => AigerErrorKind::LiteralOutOfRange,
        aiger::AigerError::InvalidLiteralCount => AigerErrorKind::InvalidLiteralCount,
        aiger::AigerError::InvalidInverted => AigerErrorKind::InvalidInverted,
        aiger::AigerError::InvalidSymbol => AigerErrorKind::InvalidSymbol,
        aiger::AigerError::IoError => AigerErrorKind::IoError,
    }
}

/// The library's form of a record of the AIGER reader (one arm per variant,
/// literals as their numbers).
#[verifier::external_body]
fn record_of(a: aiger::Aiger) -> AigerRecord {
    match a {
        aiger::Aiger::Input(l) => AigerRecord::Input(l.0),
        aiger::Aiger::Latch { output, input } => AigerRecord::Latch { output: output.0, input: input.0 },
        aiger::Aiger::Output(l) => AigerRecord::Output(l.0),
        aiger::Aiger::AndGate { output, inputs } => AigerRecord::AndGate { output: output.0, inputs: [inputs[0].0, inputs[1].0] },
        aiger::Aiger::Symbol { type_spec, position, symbol } => AigerRecord::Symbol {
            type_spec: match type_spec {
                aiger::Symbol::Input => SymbolKind::Input,
                aiger::Symbol::Latch => SymbolKind::Latch,
                aiger::Symbol::Output => SymbolKind::Output,
            },
            position,
            symbol,
        },
    }
}

/// The index of the first line feed at or after `pos` (the length when
/// there is none).
pub open spec fn next_newline(b: Seq<u8>, pos: int) -> int
    decreases b.len() - pos,
{
    if pos >= b.len() {
        b.len() as int
    } else if b[pos] == 10u8 {
        pos
    } else {
        next_newline(b, pos + 1)
    }
}

pub proof fn lemma_next_newline_bounds(b: Seq<u8>, pos: int)
    requires
        0 <= pos,
    ensures
        pos <= next_newline(b, pos) || pos > b.len(),
        next_newline(b, pos) <= b.len() || pos > b.len(),
    decreases b.len() - pos,
{
    if pos < b.len() && b[pos] != 10u8 {
        lemma_next_newline_bounds(b, pos + 1);
    }
}

/// The line `b[pos..end]` as a line reader hands it out: without the
/// carriage return before its line feed.
pub open spec fn line_text(b: Seq<u8>, pos: int, end: int) -> Seq<u8> {
    let seg = b.subrange(pos, end);
    if end < b.len() && seg.len() > 0 && seg.last() == 13u8 {
        seg.drop_last()
    } else {
        seg
    }
}

/// From byte `pos` on, up to the first comment line (one that starts with
/// `c`): after `skip` record lines, every line is non-empty and starts
/// with an ASCII byte.
pub open spec fn symbol_lines_from(b: Seq<u8>, pos: int, skip: nat) -> bool
    decreases b.len() - pos,
{
    if pos < 0 || pos >= b.len() {
        true
    } else {
        let end = next_newline(b, pos);
        proof {
            lemma_next_newline_bounds(b, pos);
        }
        let t = line_text(b, pos, end);
        if t.len() > 0 && t[0] == 99u8 {
            true
        } else if skip > 0 {
            end >= b.len() || symbol_lines_from(b, end + 1, (skip - 1) as nat)
        } else {
            t.len() > 0 && t[0] < 128u8 && (end >= b.len() || symbol_lines_from(b, end + 1, 0))
        }
    }
}

/// Every line that the AIGER reader would read as a symbol (a line after
/// the header and the `records` record lines, before any comment line) is
/// non-empty and starts with an ASCII byte.
pub open spec fn aiger_lines_readable(b: Seq<u8>, records: nat) -> bool {
    symbol_lines_from(b, next_newline(b, 0) + 1, records)
}

/// The input, latch, output and and-gate counts of the AIGER header of a
/// file's bytes, or the reader's refusal of the header.
pub uninterp spec fn aiger_header(bytes: Seq<u8>) -> Result<(usize, usize, usize, usize), AigerErrorKind>;

/// `aiger::Reader::from_reader` on the bytes and its `header()`: the
/// counts `i`, `l`, `o`, `a`.  Trusted: the outcome is `aiger_header` of
/// the bytes, a function of the bytes alone.
#[verifier::external_body]
fn aiger_header_of(bytes: &[u8]) -> (r: Result<(usize, usize, usize, usize), AigerErrorKind>)
    ensures
        r == aiger_header(bytes@),
{
    let h = aiger::Reader::from_reader(bytes).map_err(error_kind)?.header();
    Ok((h.i, h.l, h.o, h.a))
}

/// `aiger::Reader::from_reader` on the bytes, then its header's latch
/// count and its records (`records()`), collected.  The contract claims
/// only that the outcome is `aiger_read` of the bytes: a function of the
/// bytes alone (reading a byte slice has no other input).  The reader
/// takes the first byte of every line after the counted records apart as
/// a symbol kind and panics on an empty line or one that starts with a
/// character of several bytes; `requires` leaves those files out.
#[verifier::external_body]
fn aiger_records_of(bytes: &[u8]) -> (r: Result<(usize, Vec<Result<AigerRecord, AigerErrorKind>>), AigerErrorKind>)
    requires
        aiger_header(bytes@) matches Ok(h) ==> aiger_lines_readable(bytes@, (h.0 + h.1 + h.2 + h.3) as nat),
    ensures
        match r {
            Ok((l, v)) => aiger_read(bytes@) == Ok::<(usize, Seq<Result<RecordView, AigerErrorKind>>), AigerErrorKind>((l, records_view(v@))),
            Err(e) => aiger_read(bytes@) == Err::<(usize, Seq<Result<RecordView, AigerErrorKind>>), AigerErrorKind>(e),
        },
{
    let reader = aiger::Reader::from_reader(bytes).map_err(error_kind)?;
    let latches = reader.header().l;
    Ok((latches, reader.records().map(|r| r.map(record_of).map_err(error_kind)).collect()))
}

/// The first line feed at or after `pos`.
fn newline_from(b: &[u8], pos: usize) -> (r: usize)
    requires
        pos <= b@.len(),
    ensures
        r as int == next_newline(b@, pos as int),
        pos <= r <= b@.len(),
{
    let mut i = pos;
    while i < b.len() && b[i] != 10u8
        invariant
            pos <= i <= b@.len(),
            next_newline(b@, pos as int) == next_newline(b@, i as int),
        decreases b.len() - i,
    {
        i = i + 1;
    }
    i
}

/// Whether the reader can take apart every symbol line (see
/// `aiger_lines_readable`).
pub fn aiger_lines_ok(bytes: &[u8], records: u128) -> (r: bool)
    ensures
        r == aiger_lines_readable(bytes@, records as nat),
{
    let len = bytes.len();
    let h = newline_from(bytes, 0);
    if h >= len {
        return true;
    }
    let mut pos = h + 1;
    let mut skip = records;
    loop
        invariant
            len == bytes@.len(),
            pos <= len,
            aiger_lines_readable(bytes@, records as nat) == symbol_lines_from(bytes@, pos as int, skip as nat),
        decreases len - pos,
    {
        if pos >= len {
            return true;
        }
        let end = newline_from(bytes, pos);
        let ghost t = line_text(bytes@, pos as int, end as int);
        let tlen = if end < len && end > pos && bytes[end - 1] == 13u8 {
            end - 1 - pos
        } else {
            end - pos
        };
        assert(t.len() == tlen);
        assert(tlen > 0 ==> t[0] == bytes@[pos as int]);
        if tlen > 0 && bytes[pos] == 99u8 {
            return true;
        }
        if skip > 0 {
            if end >= len {
                return true;
            }
            pos = end + 1;
            skip = skip - 1;
        } else {
            if !(tlen > 0 && bytes[pos] < 128u8) {
                return false;
            }
            if end >= len {
                return true;
            }
            pos = end + 1;
        }
    }
}

/// The and-inverter netlist of an ASCII AIGER file, from its bytes: the
/// reader's refusal of the header; a refusal of a line that the reader
/// could not take apart as a symbol; or the netlist that its latch count
/// and records give (see `aag_records_to_netlist`).
pub fn aag_bytes_to_netlist(bytes: &[u8]) -> (r: Result<Netlist<AigType>, ReadError>)
    ensures
        match aiger_header(bytes@) {
            Err(e) => r matches Err(ReadError::AigerError(x)) && x == e,
            Ok(h) => if !aiger_lines_readable(bytes@, (h.0 + h.1 + h.2 + h.3) as nat) {
                r matches Err(ReadError::UnreadableSymbolLine)
            } else {
                match aiger_read(bytes@) {
                    Err(e) => r matches Err(ReadError::AigerError(x)) && x == e,
                    Ok((l, rs)) => match aag_netlist(l, rs) {
                        Ok(m) => r matches Ok(net) && netlist_is(net, m),
                        Err(e) => r matches Err(x) && x == e,
                    },
                }
            },
        },
{
    let (i, l, o, a) = match aiger_header_of(bytes) {
        Err(e) => {
            return Err(ReadError::AigerError(e));
        },
        Ok(h) => h,
    };
    let records: u128 = i as u128 + l as u128 + o as u128 + a as u128;
    if !aiger_lines_ok(bytes, records) {
        return Err(ReadError::UnreadableSymbolLine);
    }
    match aiger_records_of(bytes) {
        Err(e) => Err(ReadError::AigerError(e)),
        Ok((latches, records)) => aag_records_to_netlist(latches, records),
    }
}

} // verus!
