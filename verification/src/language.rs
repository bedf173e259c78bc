//! Node weights of and-inverter and standard-cell netlists.
use vstd::prelude::*;

use crate::text::{copy_string, str_equals};

verus! {

/// A standard-cell netlist node: a constant, or a symbol (a cell name or a
/// primary input/output name).
#[derive(Debug, PartialEq, Eq)]
pub enum StdCellType {
    Bool(bool),
    Symbol(String),
}

/// The mathematical value of a standard-cell node weight.
pub enum CellModel {
    Bool(bool),
    Symbol(Seq<char>),
}

/// The text a constant or symbol is written as.
pub open spec fn cell_text(c: CellModel) -> Seq<char> {
    match c {
        CellModel::Bool(b) => if b {
            "1"@
        } else {
            "0"@
        },
        CellModel::Symbol(s) => s,
    }
}

/// The node weight that an operation name denotes.
pub open spec fn cell_from_text(op: Seq<char>) -> CellModel {
    if op == "true"@ {
        CellModel::Bool(true)
    } else if op == "false"@ {
        CellModel::Bool(false)
    } else {
        CellModel::Symbol(op)
    }
}

impl View for StdCellType {
    type V = CellModel;

    open spec fn view(&self) -> CellModel {
        match self {
            StdCellType::Bool(b) => CellModel::Bool(*b),
            StdCellType::Symbol(s) => CellModel::Symbol(s@),
        }
    }
}

impl StdCellType {
    /// The weight denoted by an operation name: `true` and `false` are
    /// constants, anything else is a symbol.
    pub fn from_op(op: &str) -> (r: StdCellType)
        ensures
            r@ == cell_from_text(op@),
    {
        if str_equals(op, "true") {
            StdCellType::Bool(true)
        } else if str_equals(op, "false") {
            StdCellType::Bool(false)
        } else {
            StdCellType::Symbol(op.to_owned())
        }
    }

    /// The text of the weight: `1`/`0` for constants, the name for symbols.
    pub fn to_string(&self) -> (r: String)
        ensures
            r@ == cell_text(self@),
    {
        match self {
            StdCellType::Bool(b) => if *b {
                "1".to_owned()
            } else {
                "0".to_owned()
            },
            StdCellType::Symbol(s) => copy_string(s),
        }
    }

    /// The name of a primary input or output; constants have none.
    pub fn to_string_as_io(&self) -> (r: Option<String>)
        ensures
            match self@ {
                CellModel::Bool(_) => r is None,
                CellModel::Symbol(s) => r matches Some(t) && t@ == s,
            },
    {
        match self {
            StdCellType::Bool(_) => None,
            StdCellType::Symbol(s) => Some(copy_string(s)),
        }
    }

    /// Constants have no fanin even when they are not primary inputs.
    pub fn is_constant(&self) -> (r: bool)
        ensures
            r == (self@ is Bool),
    {
        match self {
            StdCellType::Bool(_) => true,
            StdCellType::Symbol(_) => false,
        }
    }

    /// An equal copy of the weight.
    pub fn duplicate(&self) -> (r: StdCellType)
        ensures
            r@ == self@,
    {
        match self {
            StdCellType::Bool(b) => StdCellType::Bool(*b),
            StdCellType::Symbol(s) => StdCellType::Symbol(copy_string(s)),
        }
    }
}

/// An and-inverter graph node weight.
#[derive(Debug, PartialEq, Eq)]
pub enum AigType {
    Bool(bool),
    And,
    Not,
    Symbol(String),
}

/// The mathematical value of an and-inverter node weight.
pub enum AigModel {
    Bool(bool),
    And,
    Not,
    Symbol(Seq<char>),
}

impl View for AigType {
    type V = AigModel;

    open spec fn view(&self) -> AigModel {
        match self {
            AigType::Bool(b) => AigModel::Bool(*b),
            AigType::And => AigModel::And,
            AigType::Not => AigModel::Not,
            AigType::Symbol(s) => AigModel::Symbol(s@),
        }
    }
}

/// The and-inverter weight that an operation name denotes.
pub open spec fn aig_from_text(op: Seq<char>) -> AigModel {
    if op == "and"@ {
        AigModel::And
    } else if op == "not"@ {
        AigModel::Not
    } else if op == "true"@ {
        AigModel::Bool(true)
    } else if op == "false"@ {
        AigModel::Bool(false)
    } else {
        AigModel::Symbol(op)
    }
}

impl AigType {
    /// The weight denoted by an operation name.
    pub fn from_op(op: &str) -> (r: AigType)
        ensures
            r@ == aig_from_text(op@),
    {
        if str_equals(op, "and") {
            AigType::And
        } else if str_equals(op, "not") {
            AigType::Not
        } else if str_equals(op, "true") {
            AigType::Bool(true)
        } else if str_equals(op, "false") {
            AigType::Bool(false)
        } else {
            AigType::Symbol(op.to_owned())
        }
    }

    /// Constants have no fanin.
    pub fn is_constant(&self) -> (r: bool)
        ensures
            r == (self@ is Bool),
    {
        match self {
            AigType::Bool(_) => true,
            _ => false,
        }
    }
}

/// A node of the standard-cell e-graph language; children are e-class ids.
#[derive(Debug, Clone)]
pub enum StdCellLanguage {
    Bool(bool),
    Gate(String, Vec<usize>),
    Output(String, usize),
    Input(String),
    Symbol(String),
}

/// The mathematical value of a standard-cell language node.
pub enum LangModel {
    Bool(bool),
    Gate(Seq<char>, Seq<usize>),
    Output(Seq<char>, usize),
    Input(Seq<char>),
    Symbol(Seq<char>),
}

impl View for StdCellLanguage {
    type V = LangModel;

    open spec fn view(&self) -> LangModel {
        match self {
            StdCellLanguage::Bool(b) => LangModel::Bool(*b),
            StdCellLanguage::Gate(s, c) => LangModel::Gate(s@, c@),
            StdCellLanguage::Output(s, i) => LangModel::Output(s@, *i),
            StdCellLanguage::Input(s) => LangModel::Input(s@),
            StdCellLanguage::Symbol(s) => LangModel::Symbol(s@),
        }
    }
}

/// Whether two id lists are equal.
pub fn ids_equal(a: &Vec<usize>, b: &Vec<usize>) -> (r: bool)
    ensures
        r == (a@ == b@),
{
    if a.len() != b.len() {
        return false;
    }
    let mut i: usize = 0;
    while i < a.len()
        invariant
            0 <= i <= a@.len(),
            a@.len() == b@.len(),
            forall|j: int| 0 <= j < i ==> a@[j] == b@[j],
        decreases a.len() - i,
    {
        if a[i] != b[i] {
            return false;
        }
        i = i + 1;
    }
    assert(a@ =~= b@);
    true
}

impl StdCellLanguage {
    /// Whether two nodes are the same node.
    pub fn same_node(&self, other: &StdCellLanguage) -> (r: bool)
        ensures
            r == (self@ == other@),
    {
        match (self, other) {
            (StdCellLanguage::Bool(a), StdCellLanguage::Bool(b)) => *a == *b,
            (StdCellLanguage::Gate(a, x), StdCellLanguage::Gate(b, y)) => str_equals(a.as_str(), b.as_str())
                && ids_equal(x, y),
            (StdCellLanguage::Output(a, x), StdCellLanguage::Output(b, y)) => str_equals(
                a.as_str(),
                b.as_str(),
            ) && *x == *y,
            (StdCellLanguage::Input(a), StdCellLanguage::Input(b)) => str_equals(a.as_str(), b.as_str()),
            (StdCellLanguage::Symbol(a), StdCellLanguage::Symbol(b)) => str_equals(a.as_str(), b.as_str()),
            _ => false,
        }
    }
}

/// A node of the and-inverter e-graph language; children are e-class ids.
#[derive(Debug)]
pub enum AigLanguage {
    Bool(bool),
    And([usize; 2]),
    Not(usize),
    Output(String, usize),
    Input(String),
    Symbol(String),
}

/// The mathematical value of an and-inverter language node.
pub enum AigLangModel {
    Bool(bool),
    And(usize, usize),
    Not(usize),
    Output(Seq<char>, usize),
    Input(Seq<char>),
    Symbol(Seq<char>),
}

impl View for AigLanguage {
    type V = AigLangModel;

    open spec fn view(&self) -> AigLangModel {
        match self {
            AigLanguage::Bool(b) => AigLangModel::Bool(*b),
            AigLanguage::And(c) => AigLangModel::And(c[0], c[1]),
            AigLanguage::Not(c) => AigLangModel::Not(*c),
            AigLanguage::Output(s, i) => AigLangModel::Output(s@, *i),
            AigLanguage::Input(s) => AigLangModel::Input(s@),
            AigLanguage::Symbol(s) => AigLangModel::Symbol(s@),
        }
    }
}

/// The weight of an and-inverter language node: its constant, its gate
/// kind, or its name.
pub open spec fn aig_weight(l: AigLangModel) -> AigModel {
    match l {
        AigLangModel::Bool(b) => AigModel::Bool(b),
        AigLangModel::And(_, _) => AigModel::And,
        AigLangModel::Not(_) => AigModel::Not,
        AigLangModel::Output(s, _) => AigModel::Symbol(s),
        AigLangModel::Input(s) => AigModel::Symbol(s),
        AigLangModel::Symbol(s) => AigModel::Symbol(s),
    }
}

impl AigType {
    /// The netlist weight of a language node.
    pub fn from_lang(lang: AigLanguage) -> (r: AigType)
        ensures
            r@ == aig_weight(lang@),
    {
        match lang {
            AigLanguage::Bool(b) => AigType::Bool(b),
            AigLanguage::And(_) => AigType::And,
            AigLanguage::Not(_) => AigType::Not,
            AigLanguage::Output(s, _) => AigType::Symbol(s),
            AigLanguage::Input(s) => AigType::Symbol(s),
            AigLanguage::Symbol(s) => AigType::Symbol(s),
        }
    }

    /// The language node of a primary input: a constant or a named input.
    pub fn to_lang_input(&self) -> (r: AigLanguage)
        requires
            self@ is Bool || self@ is Symbol,
        ensures
            match self@ {
                AigModel::Bool(b) => r@ == AigLangModel::Bool(b),
                AigModel::Symbol(s) => r@ == AigLangModel::Input(s),
                _ => false,
            },
    {
        match self {
            AigType::Bool(b) => AigLanguage::Bool(*b),
            AigType::Symbol(s) => AigLanguage::Input(s.clone()),
            _ => vstd::pervasive::unreached(),
        }
    }

    /// The language node of a named primary output driven by `input`.
    pub fn to_lang_output(&self, input: usize) -> (r: AigLanguage)
        requires
            self@ is Symbol,
        ensures
            self@ matches AigModel::Symbol(s) && r@ == AigLangModel::Output(s, input),
    {
        match self {
            AigType::Symbol(s) => AigLanguage::Output(s.clone(), input),
            _ => vstd::pervasive::unreached(),
        }
    }

    /// The language node of a gate over `inputs`: two for an AND, the first
    /// for an inverter.
    pub fn to_lang_gate(&self, inputs: &Vec<usize>) -> (r: AigLanguage)
        requires
            self@ is And ==> inputs@.len() == 2,
            self@ is Not ==> inputs@.len() >= 1,
            self@ is And || self@ is Not,
        ensures
            self@ is And ==> r@ == AigLangModel::And(inputs@[0], inputs@[1]),
            self@ is Not ==> r@ == AigLangModel::Not(inputs@[0]),
    {
        match self {
            AigType::And => AigLanguage::And([inputs[0], inputs[1]]),
            AigType::Not => AigLanguage::Not(inputs[0]),
            _ => vstd::pervasive::unreached(),
        }
    }
}

/// The weight of a standard-cell language node: its constant or its name.
pub open spec fn cell_weight(l: LangModel) -> CellModel {
    match l {
        LangModel::Bool(b) => CellModel::Bool(b),
        LangModel::Gate(s, _) => CellModel::Symbol(s),
        LangModel::Output(s, _) => CellModel::Symbol(s),
        LangModel::Input(s) => CellModel::Symbol(s),
        LangModel::Symbol(s) => CellModel::Symbol(s),
    }
}

impl StdCellType {
    /// The netlist weight of a language node.
    pub fn from_lang(lang: StdCellLanguage) -> (r: StdCellType)
        ensures
            r@ == cell_weight(lang@),
    {
        match lang {
            StdCellLanguage::Bool(b) => StdCellType::Bool(b),
            StdCellLanguage::Gate(s, _) => StdCellType::Symbol(s),
            StdCellLanguage::Output(s, _) => StdCellType::Symbol(s),
            StdCellLanguage::Input(s) => StdCellType::Symbol(s),
            StdCellLanguage::Symbol(s) => StdCellType::Symbol(s),
        }
    }

    /// The language node of a primary input: a constant or a named input.
    pub fn to_lang_input(&self) -> (r: StdCellLanguage)
        ensures
            match self@ {
                CellModel::Bool(b) => r@ == LangModel::Bool(b),
                CellModel::Symbol(s) => r@ == LangModel::Input(s),
            },
    {
        match self {
            StdCellType::Bool(b) => StdCellLanguage::Bool(*b),
            StdCellType::Symbol(s) => StdCellLanguage::Input(s.clone()),
        }
    }

    /// The language node of a named primary output driven by `input`.
    pub fn to_lang_output(&self, input: usize) -> (r: StdCellLanguage)
        requires
            self@ is Symbol,
        ensures
            self@ matches CellModel::Symbol(s) && r@ == LangModel::Output(s, input),
    {
        match self {
            StdCellType::Symbol(s) => StdCellLanguage::Output(s.clone(), input),
            _ => vstd::pervasive::unreached(),
        }
    }

    /// The language node of a cell over `inputs`.
    pub fn to_lang_gate(&self, inputs: Vec<usize>) -> (r: StdCellLanguage)
        requires
            self@ is Symbol,
        ensures
            self@ matches CellModel::Symbol(s) && r@ == LangModel::Gate(s, inputs@),
    {
        match self {
            StdCellType::Symbol(s) => StdCellLanguage::Gate(s.clone(), inputs),
            _ => vstd::pervasive::unreached(),
        }
    }
}

} // verus!
