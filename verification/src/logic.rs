//! Liberty Boolean `function` strings: a recursive-descent evaluator and the
//! truth table of an output pin over its input pins.
//!
//! Grammar (whitespace may precede every token):
//! `expression := term ('+' term)*`, `term := unary ('*' unary)*`,
//! `unary := '!' unary | '(' expression ')' | identifier`, where an
//! identifier is a run of ASCII letters, digits, `_` and `$`; `0` and `1`
//! are constants and every other identifier names an input pin.
use vstd::prelude::*;

use crate::text::{chars_of, copy_chars};

verus! {

/// Why a Boolean function does not evaluate.
#[derive(Debug, PartialEq, Eq)]
pub enum LogicError {
    /// A `(` without its `)`.
    MissingParen,
    /// No identifier where one was expected.
    ExpectedIdentifier,
    /// An identifier that names no input pin.
    UnknownInput(String),
    /// Never produced: positions only move forward.
    Stalled,
}

/// The mathematical value of an evaluation failure.
pub enum LogicFault {
    MissingParen,
    ExpectedIdentifier,
    UnknownInput(Seq<char>),
    Stalled,
}

impl View for LogicError {
    type V = LogicFault;

    open spec fn view(&self) -> LogicFault {
        match self {
            LogicError::MissingParen => LogicFault::MissingParen,
            LogicError::ExpectedIdentifier => LogicFault::ExpectedIdentifier,
            LogicError::UnknownInput(s) => LogicFault::UnknownInput(s@),
            LogicError::Stalled => LogicFault::Stalled,
        }
    }
}

/// ASCII whitespace: space, tab, line feed, form feed, carriage return.
pub open spec fn is_space(c: char) -> bool {
    c == ' ' || c == '\t' || c == '\n' || c == '\x0C' || c == '\r'
}

/// A character of a Liberty identifier.
pub open spec fn is_ident_char(c: char) -> bool {
    ('a' <= c && c <= 'z') || ('A' <= c && c <= 'Z') || ('0' <= c && c <= '9') || c == '_'
        || c == '$'
}

/// The position after the whitespace starting at `p`.
pub open spec fn skip_ws(s: Seq<char>, p: nat) -> nat
    decreases s.len() - p,
{
    if p < s.len() && is_space(s[p as int]) {
        skip_ws(s, p + 1)
    } else {
        p
    }
}

/// The position after the identifier characters starting at `p`.
pub open spec fn scan_ident(s: Seq<char>, p: nat) -> nat
    decreases s.len() - p,
{
    if p < s.len() && is_ident_char(s[p as int]) {
        scan_ident(s, p + 1)
    } else {
        p
    }
}

/// Skips whitespace, then takes `tok` if it is next.
pub open spec fn take_token(s: Seq<char>, p: nat, tok: char) -> (bool, nat) {
    let q = skip_ws(s, p);
    if q < s.len() && s[q as int] == tok {
        (true, q + 1)
    } else {
        (false, q)
    }
}

/// Bit `i` of `assignment` as the value of input pin `i`.
pub open spec fn pin_bit(assignment: usize, i: nat) -> bool {
    assignment & (1usize << i) != 0
}

/// The value of the input named `name`: the bit of its last occurrence
/// among the pins.
pub open spec fn pin_value(pins: Seq<Seq<char>>, assignment: usize, name: Seq<char>) -> Option<bool>
    decreases pins.len(),
{
    if pins.len() == 0 {
        None
    } else if pins.last() == name {
        Some(pin_bit(assignment, (pins.len() - 1) as nat))
    } else {
        pin_value(pins.drop_last(), assignment, name)
    }
}

pub open spec fn measure(s: Seq<char>, p: nat) -> nat {
    if p <= s.len() {
        (s.len() - p) as nat
    } else {
        0
    }
}

/// The value of the expression starting at `p`, and the position after it.
pub open spec fn eval_expression(
    s: Seq<char>,
    pins: Seq<Seq<char>>,
    a: usize,
    p: nat,
) -> Result<(bool, nat), LogicFault>
    decreases measure(s, p), 4nat,
{
    match eval_term(s, pins, a, p) {
        Err(e) => Err(e),
        Ok((v, p1)) => if p1 < p || p1 > s.len() {
            Err(LogicFault::Stalled)
        } else {
            eval_expression_rest(s, pins, a, p1, v)
        },
    }
}

/// Continues an expression whose terms so far have value `acc`.
pub open spec fn eval_expression_rest(
    s: Seq<char>,
    pins: Seq<Seq<char>>,
    a: usize,
    p: nat,
    acc: bool,
) -> Result<(bool, nat), LogicFault>
    decreases measure(s, p), 0nat,
{
    let (plus, q) = take_token(s, p, '+');
    if !plus {
        Ok((acc, q))
    } else if q <= p || q > s.len() {
        Err(LogicFault::Stalled)
    } else {
        match eval_term(s, pins, a, q) {
            Err(e) => Err(e),
            Ok((v, p2)) => if p2 < q || p2 > s.len() {
                Err(LogicFault::Stalled)
            } else {
                eval_expression_rest(s, pins, a, p2, acc || v)
            },
        }
    }
}

/// The value of the term starting at `p`, and the position after it.
pub open spec fn eval_term(
    s: Seq<char>,
    pins: Seq<Seq<char>>,
    a: usize,
    p: nat,
) -> Result<(bool, nat), LogicFault>
    decreases measure(s, p), 3nat,
{
    match eval_unary(s, pins, a, p) {
        Err(e) => Err(e),
        Ok((v, p1)) => if p1 < p || p1 > s.len() {
            Err(LogicFault::Stalled)
        } else {
            eval_term_rest(s, pins, a, p1, v)
        },
    }
}

/// Continues a term whose factors so far have value `acc`.
pub open spec fn eval_term_rest(
    s: Seq<char>,
    pins: Seq<Seq<char>>,
    a: usize,
    p: nat,
    acc: bool,
) -> Result<(bool, nat), LogicFault>
    decreases measure(s, p), 1nat,
{
    let (times, q) = take_token(s, p, '*');
    if !times {
        Ok((acc, q))
    } else if q <= p || q > s.len() {
        Err(LogicFault::Stalled)
    } else {
        match eval_unary(s, pins, a, q) {
            Err(e) => Err(e),
            Ok((v, p2)) => if p2 < q || p2 > s.len() {
                Err(LogicFault::Stalled)
            } else {
                eval_term_rest(s, pins, a, p2, acc && v)
            },
        }
    }
}

/// The value of the unary starting at `p`, and the position after it.
pub open spec fn eval_unary(
    s: Seq<char>,
    pins: Seq<Seq<char>>,
    a: usize,
    p: nat,
) -> Result<(bool, nat), LogicFault>
    decreases measure(s, p), 2nat,
{
    let q = skip_ws(s, p);
    let (bang, q1) = take_token(s, q, '!');
    if bang {
        if q1 <= p || q1 > s.len() {
            Err(LogicFault::Stalled)
        } else {
            match eval_unary(s, pins, a, q1) {
                Err(e) => Err(e),
                Ok((v, p2)) => Ok((!v, p2)),
            }
        }
    } else {
        let (open, q2) = take_token(s, q1, '(');
        if open {
            if q2 <= p || q2 > s.len() {
                Err(LogicFault::Stalled)
            } else {
                match eval_expression(s, pins, a, q2) {
                    Err(e) => Err(e),
                    Ok((v, p2)) => {
                        let (close, p3) = take_token(s, p2, ')');
                        if close {
                            Ok((v, p3))
                        } else {
                            Err(LogicFault::MissingParen)
                        }
                    },
                }
            }
        } else {
            let end = scan_ident(s, q2);
            if end == q2 {
                Err(LogicFault::ExpectedIdentifier)
            } else {
                let name = s.subrange(q2 as int, end as int);
                if name == seq!['0'] {
                    Ok((false, end))
                } else if name == seq!['1'] {
                    Ok((true, end))
                } else {
                    match pin_value(pins, a, name) {
                        Some(v) => Ok((v, end)),
                        None => Err(LogicFault::UnknownInput(name)),
                    }
                }
            }
        }
    }
}

proof fn lemma_skip_ws_bounds(s: Seq<char>, p: nat)
    requires
        p <= s.len(),
    ensures
        p <= skip_ws(s, p) <= s.len(),
        skip_ws(s, skip_ws(s, p)) == skip_ws(s, p),
    decreases s.len() - p,
{
    if p < s.len() && is_space(s[p as int]) {
        lemma_skip_ws_bounds(s, p + 1);
    }
}

proof fn lemma_scan_ident_bounds(s: Seq<char>, p: nat)
    requires
        p <= s.len(),
    ensures
        p <= scan_ident(s, p) <= s.len(),
        forall|i: int| p <= i < scan_ident(s, p) ==> is_ident_char(#[trigger] s[i]),
        scan_ident(s, p) < s.len() ==> !is_ident_char(s[scan_ident(s, p) as int]),
    decreases s.len() - p,
{
    if p < s.len() && is_ident_char(s[p as int]) {
        lemma_scan_ident_bounds(s, p + 1);
    }
}

/// Evaluation only moves forward and stays inside the text, so the
/// `Stalled` failure never arises.
proof fn lemma_unary_forward(s: Seq<char>, pins: Seq<Seq<char>>, a: usize, p: nat)
    requires
        p <= s.len(),
    ensures
        eval_unary(s, pins, a, p) matches Ok((_, p2)) ==> p < p2 <= s.len(),
        !(eval_unary(s, pins, a, p) matches Err(LogicFault::Stalled)),
    decreases measure(s, p), 2nat,
{
    let q = skip_ws(s, p);
    lemma_skip_ws_bounds(s, p);
    lemma_skip_ws_bounds(s, q);
    let (bang, q1) = take_token(s, q, '!');
    if bang {
        lemma_unary_forward(s, pins, a, q1);
    } else {
        let (open, q2) = take_token(s, q1, '(');
        lemma_skip_ws_bounds(s, q1);
        if open {
            lemma_expression_forward(s, pins, a, q2);
            match eval_expression(s, pins, a, q2) {
                Err(e) => {},
                Ok((v, p2)) => {
                    lemma_skip_ws_bounds(s, p2);
                },
            }
        } else {
            lemma_scan_ident_bounds(s, q2);
        }
    }
}

proof fn lemma_term_forward(s: Seq<char>, pins: Seq<Seq<char>>, a: usize, p: nat)
    requires
        p <= s.len(),
    ensures
        eval_term(s, pins, a, p) matches Ok((_, p2)) ==> p < p2 <= s.len(),
        !(eval_term(s, pins, a, p) matches Err(LogicFault::Stalled)),
    decreases measure(s, p), 3nat,
{
    lemma_unary_forward(s, pins, a, p);
    match eval_unary(s, pins, a, p) {
        Err(e) => {},
        Ok((v, p1)) => {
            lemma_term_rest_forward(s, pins, a, p1, v);
        },
    }
}

proof fn lemma_term_rest_forward(s: Seq<char>, pins: Seq<Seq<char>>, a: usize, p: nat, acc: bool)
    requires
        p <= s.len(),
    ensures
        eval_term_rest(s, pins, a, p, acc) matches Ok((_, p2)) ==> p <= p2 <= s.len(),
        !(eval_term_rest(s, pins, a, p, acc) matches Err(LogicFault::Stalled)),
    decreases measure(s, p), 1nat,
{
    lemma_skip_ws_bounds(s, p);
    let (times, q) = take_token(s, p, '*');
    if times {
        lemma_unary_forward(s, pins, a, q);
        match eval_unary(s, pins, a, q) {
            Err(e) => {},
            Ok((v, p2)) => {
                lemma_term_rest_forward(s, pins, a, p2, acc && v);
            },
        }
    }
}

proof fn lemma_expression_forward(s: Seq<char>, pins: Seq<Seq<char>>, a: usize, p: nat)
    requires
        p <= s.len(),
    ensures
        eval_expression(s, pins, a, p) matches Ok((_, p2)) ==> p < p2 <= s.len(),
        !(eval_expression(s, pins, a, p) matches Err(LogicFault::Stalled)),
    decreases measure(s, p), 4nat,
{
    lemma_term_forward(s, pins, a, p);
    match eval_term(s, pins, a, p) {
        Err(e) => {},
        Ok((v, p1)) => {
            lemma_expression_rest_forward(s, pins, a, p1, v);
        },
    }
}

proof fn lemma_expression_rest_forward(
    s: Seq<char>,
    pins: Seq<Seq<char>>,
    a: usize,
    p: nat,
    acc: bool,
)
    requires
        p <= s.len(),
    ensures
        eval_expression_rest(s, pins, a, p, acc) matches Ok((_, p2)) ==> p <= p2 <= s.len(),
        !(eval_expression_rest(s, pins, a, p, acc) matches Err(LogicFault::Stalled)),
    decreases measure(s, p), 0nat,
{
    lemma_skip_ws_bounds(s, p);
    let (plus, q) = take_token(s, p, '+');
    if plus {
        lemma_term_forward(s, pins, a, q);
        match eval_term(s, pins, a, q) {
            Err(e) => {},
            Ok((v, p2)) => {
                lemma_expression_rest_forward(s, pins, a, p2, acc || v);
            },
        }
    }
}

/// The values of the `+`-separated terms that follow position `p` (each
/// one introduced by its `+`), and the position after them.
pub open spec fn sum_terms(s: Seq<char>, pins: Seq<Seq<char>>, a: usize, p: nat) -> Result<(Seq<bool>, nat), LogicFault>
    decreases measure(s, p),
{
    let (plus, q) = take_token(s, p, '+');
    if !plus {
        Ok((Seq::empty(), q))
    } else if q <= p || q > s.len() {
        Err(LogicFault::Stalled)
    } else {
        match eval_term(s, pins, a, q) {
            Err(e) => Err(e),
            Ok((v, p2)) => if p2 < q || p2 > s.len() {
                Err(LogicFault::Stalled)
            } else {
                match sum_terms(s, pins, a, p2) {
                    Err(e) => Err(e),
                    Ok((vs, p3)) => Ok((seq![v] + vs, p3)),
                }
            },
        }
    }
}

/// The values of all the terms of the sum that starts at `p`, and the
/// position after it.
pub open spec fn expression_terms(s: Seq<char>, pins: Seq<Seq<char>>, a: usize, p: nat) -> Result<(Seq<bool>, nat), LogicFault> {
    match eval_term(s, pins, a, p) {
        Err(e) => Err(e),
        Ok((t, p1)) => if p1 < p || p1 > s.len() {
            Err(LogicFault::Stalled)
        } else {
            match sum_terms(s, pins, a, p1) {
                Err(e) => Err(e),
                Ok((vs, q)) => Ok((seq![t] + vs, q)),
            }
        },
    }
}

/// The values of the `*`-separated factors that follow position `p` (each
/// one introduced by its `*`), and the position after them.
pub open spec fn product_factors(s: Seq<char>, pins: Seq<Seq<char>>, a: usize, p: nat) -> Result<(Seq<bool>, nat), LogicFault>
    decreases measure(s, p),
{
    let (times, q) = take_token(s, p, '*');
    if !times {
        Ok((Seq::empty(), q))
    } else if q <= p || q > s.len() {
        Err(LogicFault::Stalled)
    } else {
        match eval_unary(s, pins, a, q) {
            Err(e) => Err(e),
            Ok((v, p2)) => if p2 < q || p2 > s.len() {
                Err(LogicFault::Stalled)
            } else {
                match product_factors(s, pins, a, p2) {
                    Err(e) => Err(e),
                    Ok((vs, p3)) => Ok((seq![v] + vs, p3)),
                }
            },
        }
    }
}

/// The values of all the factors of the product that starts at `p`, and
/// the position after it.
pub open spec fn term_factors(s: Seq<char>, pins: Seq<Seq<char>>, a: usize, p: nat) -> Result<(Seq<bool>, nat), LogicFault> {
    match eval_unary(s, pins, a, p) {
        Err(e) => Err(e),
        Ok((t, p1)) => if p1 < p || p1 > s.len() {
            Err(LogicFault::Stalled)
        } else {
            match product_factors(s, pins, a, p1) {
                Err(e) => Err(e),
                Ok((vs, q)) => Ok((seq![t] + vs, q)),
            }
        },
    }
}

proof fn lemma_cons_contains(v: bool, vs: Seq<bool>, x: bool)
    ensures
        (seq![v] + vs).contains(x) <==> (v == x || vs.contains(x)),
{
    let w = seq![v] + vs;
    if vs.contains(x) {
        let i = choose|i: int| 0 <= i < vs.len() && vs[i] == x;
        assert(w[i + 1] == x);
    }
    if w.contains(x) {
        let i = choose|i: int| 0 <= i < w.len() && w[i] == x;
        if i > 0 {
            assert(vs[i - 1] == x);
        }
    }
    assert(w[0] == v);
}

/// The rest of a sum is true exactly when the terms before it or one of
/// its own terms are: `+` is Boolean or.
pub proof fn lemma_sum_rest_is_any_term(s: Seq<char>, pins: Seq<Seq<char>>, a: usize, p: nat, acc: bool)
    ensures
        eval_expression_rest(s, pins, a, p, acc) == match sum_terms(s, pins, a, p) {
            Err(e) => Err::<(bool, nat), LogicFault>(e),
            Ok((vs, q)) => Ok((acc || vs.contains(true), q)),
        },
    decreases measure(s, p),
{
    let (plus, q) = take_token(s, p, '+');
    if plus && q > p && q <= s.len() {
        match eval_term(s, pins, a, q) {
            Err(e) => {},
            Ok((v, p2)) => {
                if p2 >= q && p2 <= s.len() {
                    lemma_sum_rest_is_any_term(s, pins, a, p2, acc || v);
                    match sum_terms(s, pins, a, p2) {
                        Err(e) => {},
                        Ok((vs, p3)) => {
                            lemma_cons_contains(v, vs, true);
                        },
                    }
                }
            },
        }
    }
}

/// A sum is true exactly when one of its terms is true: `+` is Boolean or,
/// over all the terms of the expression.
pub proof fn lemma_sum_is_any_term(s: Seq<char>, pins: Seq<Seq<char>>, a: usize, p: nat)
    ensures
        eval_expression(s, pins, a, p) == match expression_terms(s, pins, a, p) {
            Err(e) => Err::<(bool, nat), LogicFault>(e),
            Ok((ts, q)) => Ok((ts.contains(true), q)),
        },
{
    match eval_term(s, pins, a, p) {
        Err(e) => {},
        Ok((t, p1)) => {
            if p1 >= p && p1 <= s.len() {
                lemma_sum_rest_is_any_term(s, pins, a, p1, t);
                match sum_terms(s, pins, a, p1) {
                    Err(e) => {},
                    Ok((vs, q)) => {
                        lemma_cons_contains(t, vs, true);
                    },
                }
            }
        },
    }
}

/// The rest of a product is true exactly when the factors before it and
/// all of its own factors are: `*` is Boolean and.
pub proof fn lemma_product_rest_is_all_factors(s: Seq<char>, pins: Seq<Seq<char>>, a: usize, p: nat, acc: bool)
    ensures
        eval_term_rest(s, pins, a, p, acc) == match product_factors(s, pins, a, p) {
            Err(e) => Err::<(bool, nat), LogicFault>(e),
            Ok((vs, q)) => Ok((acc && !vs.contains(false), q)),
        },
    decreases measure(s, p),
{
    let (times, q) = take_token(s, p, '*');
    if times && q > p && q <= s.len() {
        match eval_unary(s, pins, a, q) {
            Err(e) => {},
            Ok((v, p2)) => {
                if p2 >= q && p2 <= s.len() {
                    lemma_product_rest_is_all_factors(s, pins, a, p2, acc && v);
                    match product_factors(s, pins, a, p2) {
                        Err(e) => {},
                        Ok((vs, p3)) => {
                            lemma_cons_contains(v, vs, false);
                        },
                    }
                }
            },
        }
    }
}

/// A product is true exactly when all of its factors are true: `*` is
/// Boolean and.
pub proof fn lemma_product_is_all_factors(s: Seq<char>, pins: Seq<Seq<char>>, a: usize, p: nat)
    ensures
        eval_term(s, pins, a, p) == match term_factors(s, pins, a, p) {
            Err(e) => Err::<(bool, nat), LogicFault>(e),
            Ok((fs, q)) => Ok((!fs.contains(false), q)),
        },
{
    match eval_unary(s, pins, a, p) {
        Err(e) => {},
        Ok((t, p1)) => {
            if p1 >= p && p1 <= s.len() {
                lemma_product_rest_is_all_factors(s, pins, a, p1, t);
                match product_factors(s, pins, a, p1) {
                    Err(e) => {},
                    Ok((vs, q)) => {
                        lemma_cons_contains(t, vs, false);
                    },
                }
            }
        },
    }
}

/// A `!` negates what follows it: `!x` is true exactly when `x` is false,
/// and ends where `x` ends.
pub proof fn lemma_negation(s: Seq<char>, pins: Seq<Seq<char>>, a: usize, p: nat)
    requires
        take_token(s, skip_ws(s, p), '!').0,
        p < take_token(s, skip_ws(s, p), '!').1 <= s.len(),
    ensures
        eval_unary(s, pins, a, p) == match eval_unary(s, pins, a, take_token(s, skip_ws(s, p), '!').1) {
            Err(e) => Err::<(bool, nat), LogicFault>(e),
            Ok((v, p2)) => Ok((!v, p2)),
        },
{
}

/// The function of a two-input or cell, `A + B`, is true under an
/// assignment exactly when one of its inputs is.
pub proof fn lemma_or2_function(a: usize)
    ensures
        eval_function(seq!['A', ' ', '+', ' ', 'B'], seq![seq!['A'], seq!['B']], a) == Some(pin_bit(a, 0) || pin_bit(a, 1)),
{
    let s = seq!['A', ' ', '+', ' ', 'B'];
    let pins = seq![seq!['A'], seq!['B']];
    assert(pins.drop_last() =~= seq![seq!['A']]);
    assert(seq![seq!['A']].drop_last() =~= Seq::<Seq<char>>::empty());
    assert(s.subrange(0, 1) =~= seq!['A']);
    assert(s.subrange(4, 5) =~= seq!['B']);
    assert(seq!['A'] != seq!['B']) by {
        assert(seq!['A'][0] != seq!['B'][0]);
    }
    assert(seq!['A'] != seq!['0']) by {
        assert(seq!['A'][0] != seq!['0'][0]);
    }
    assert(seq!['A'] != seq!['1']) by {
        assert(seq!['A'][0] != seq!['1'][0]);
    }
    assert(seq!['B'] != seq!['0']) by {
        assert(seq!['B'][0] != seq!['0'][0]);
    }
    assert(seq!['B'] != seq!['1']) by {
        assert(seq!['B'][0] != seq!['1'][0]);
    }
    assert(pins.last() == seq!['B']);
    assert(seq![seq!['A']].last() == seq!['A']);
    assert(pin_value(seq![seq!['A']], a, seq!['A']) == Some(pin_bit(a, 0)));
    assert(pin_value(pins, a, seq!['A']) == Some(pin_bit(a, 0)));
    assert(pin_value(pins, a, seq!['B']) == Some(pin_bit(a, 1)));
    assert(skip_ws(s, 0) == 0);
    assert(scan_ident(s, 1) == 1);
    assert(scan_ident(s, 0) == 1);
    assert(skip_ws(s, 2) == 2);
    assert(skip_ws(s, 1) == 2);
    assert(eval_unary(s, pins, a, 0) == Ok::<(bool, nat), LogicFault>((pin_bit(a, 0), 1)));
    assert(eval_term_rest(s, pins, a, 1, pin_bit(a, 0)) == Ok::<(bool, nat), LogicFault>((pin_bit(a, 0), 2)));
    assert(eval_term(s, pins, a, 0) == Ok::<(bool, nat), LogicFault>((pin_bit(a, 0), 2)));
    assert(skip_ws(s, 4) == 4);
    assert(skip_ws(s, 3) == 4);
    assert(scan_ident(s, 5) == 5);
    assert(scan_ident(s, 4) == 5);
    assert(skip_ws(s, 5) == 5);
    assert(eval_unary(s, pins, a, 3) == Ok::<(bool, nat), LogicFault>((pin_bit(a, 1), 5)));
    assert(eval_term_rest(s, pins, a, 5, pin_bit(a, 1)) == Ok::<(bool, nat), LogicFault>((pin_bit(a, 1), 5)));
    assert(eval_term(s, pins, a, 3) == Ok::<(bool, nat), LogicFault>((pin_bit(a, 1), 5)));
    assert(eval_expression_rest(s, pins, a, 5, pin_bit(a, 0) || pin_bit(a, 1)) == Ok::<(bool, nat), LogicFault>(
        (pin_bit(a, 0) || pin_bit(a, 1), 5),
    ));
    assert(eval_expression_rest(s, pins, a, 2, pin_bit(a, 0)) == Ok::<(bool, nat), LogicFault>(
        (pin_bit(a, 0) || pin_bit(a, 1), 5),
    ));
    assert(eval_expression(s, pins, a, 0) == Ok::<(bool, nat), LogicFault>((pin_bit(a, 0) || pin_bit(a, 1), 5)));
}

/// A recursive-descent evaluator of one Boolean function under one
/// assignment of the input pins.
pub struct LogicFunctionParser {
    pub bytes: Vec<char>,
    pub cursor: usize,
    pub pins: Vec<Vec<char>>,
    pub assignment: usize,
}

fn is_space_exec(c: char) -> (r: bool)
    ensures
        r == is_space(c),
{
    c == ' ' || c == '\t' || c == '\n' || c == '\x0C' || c == '\r'
}

fn is_ident_exec(c: char) -> (r: bool)
    ensures
        r == is_ident_char(c),
{
    ('a' <= c && c <= 'z') || ('A' <= c && c <= 'Z') || ('0' <= c && c <= '9') || c == '_'
        || c == '$'
}

impl LogicFunctionParser {
    pub open spec fn pin_names(&self) -> Seq<Seq<char>> {
        self.pins@.map_values(|p: Vec<char>| p@)
    }

    /// Skips ASCII whitespace.
    pub fn skip_space(&mut self)
        requires
            old(self).cursor <= old(self).bytes@.len(),
        ensures
            final(self).cursor == skip_ws(old(self).bytes@, old(self).cursor as nat),
            final(self).bytes == old(self).bytes,
            final(self).pins == old(self).pins,
            final(self).assignment == old(self).assignment,
    {
        proof {
            lemma_skip_ws_bounds(self.bytes@, self.cursor as nat);
        }
        while self.cursor < self.bytes.len() && is_space_exec(self.bytes[self.cursor])
            invariant
                self.cursor <= self.bytes@.len(),
                skip_ws(self.bytes@, self.cursor as nat) == skip_ws(
                    old(self).bytes@,
                    old(self).cursor as nat,
                ),
                self.bytes == old(self).bytes,
                self.pins == old(self).pins,
                self.assignment == old(self).assignment,
            decreases self.bytes@.len() - self.cursor,
        {
            self.cursor = self.cursor + 1;
        }
    }

    /// Skips whitespace, then takes `token` if it is next.
    pub fn consume(&mut self, token: char) -> (r: bool)
        requires
            old(self).cursor <= old(self).bytes@.len(),
        ensures
            (r, final(self).cursor as nat) == take_token(old(self).bytes@, old(self).cursor as nat, token),
            final(self).cursor <= final(self).bytes@.len(),
            final(self).bytes == old(self).bytes,
            final(self).pins == old(self).pins,
            final(self).assignment == old(self).assignment,
    {
        proof {
            lemma_skip_ws_bounds(self.bytes@, self.cursor as nat);
        }
        self.skip_space();
        if self.cursor < self.bytes.len() && self.bytes[self.cursor] == token {
            self.cursor = self.cursor + 1;
            true
        } else {
            false
        }
    }

    fn input_value(&self, name: &Vec<char>) -> (r: Option<bool>)
        requires
            self.pins@.len() < usize::BITS,
        ensures
            r == pin_value(self.pin_names(), self.assignment, name@),
    {
        let mut i: usize = self.pins.len();
        assert(self.pin_names().take(i as int) =~= self.pin_names());
        while i > 0
            invariant
                0 <= i <= self.pins@.len(),
                self.pins@.len() < usize::BITS,
                pin_value(self.pin_names(), self.assignment, name@) == pin_value(
                    self.pin_names().take(i as int),
                    self.assignment,
                    name@,
                ),
            decreases i,
        {
            let ghost prefix = self.pin_names().take(i as int);
            assert(prefix.last() == self.pins@[i - 1]@);
            assert(prefix.drop_last() =~= self.pin_names().take(i - 1));
            if crate::text::chars_equal(&self.pins[i - 1], name) {
                let one: usize = 1;
                return Some(self.assignment & (one << (i - 1)) != 0);
            }
            i = i - 1;
        }
        None
    }

    /// Evaluates `expression := term ('+' term)*`.
    pub fn expression(&mut self) -> (r: Result<bool, LogicError>)
        requires
            old(self).cursor <= old(self).bytes@.len(),
            old(self).pins@.len() < usize::BITS,
        ensures
            final(self).bytes == old(self).bytes,
            final(self).pins == old(self).pins,
            final(self).assignment == old(self).assignment,
            match eval_expression(
                old(self).bytes@,
                old(self).pin_names(),
                old(self).assignment,
                old(self).cursor as nat,
            ) {
                Ok((v, p)) => r == Ok::<bool, LogicError>(v) && final(self).cursor == p,
                Err(e) => r matches Err(x) && x@ == e,
            },
        decreases measure(old(self).bytes@, old(self).cursor as nat), 4nat,
    {
        let ghost s = self.bytes@;
        let ghost pins = self.pin_names();
        let ghost a = self.assignment;
        let ghost p0 = self.cursor as nat;
        proof {
            lemma_expression_forward(s, pins, a, p0);
            lemma_term_forward(s, pins, a, p0);
        }
        let mut value = match self.term() {
            Ok(v) => v,
            Err(e) => {
                return Err(e);
            },
        };
        proof {
            lemma_skip_ws_bounds(s, self.cursor as nat);
        }
        while self.consume('+')
            invariant
                self.bytes@ == s,
                self.pin_names() == pins,
                self.assignment == a,
                self.pins@.len() < usize::BITS,
                p0 < self.cursor <= s.len(),
                self.cursor as nat <= skip_ws(s, self.cursor as nat) <= s.len(),
                s == old(self).bytes@,
                p0 == old(self).cursor as nat,
                self.bytes == old(self).bytes,
                self.pins == old(self).pins,
                self.assignment == old(self).assignment,
                eval_expression(s, pins, a, p0) == eval_expression_rest(
                    s,
                    pins,
                    a,
                    self.cursor as nat,
                    value,
                ),
            decreases s.len() - self.cursor,
        {
            proof {
                lemma_term_forward(s, pins, a, self.cursor as nat);
            }
            match self.term() {
                Ok(v) => {
                    value = value || v;
                },
                Err(e) => {
                    return Err(e);
                },
            }
            proof {
                lemma_skip_ws_bounds(s, self.cursor as nat);
            }
        }
        Ok(value)
    }

    /// Evaluates `term := unary ('*' unary)*`.
    pub fn term(&mut self) -> (r: Result<bool, LogicError>)
        requires
            old(self).cursor <= old(self).bytes@.len(),
            old(self).pins@.len() < usize::BITS,
        ensures
            final(self).bytes == old(self).bytes,
            final(self).pins == old(self).pins,
            final(self).assignment == old(self).assignment,
            match eval_term(
                old(self).bytes@,
                old(self).pin_names(),
                old(self).assignment,
                old(self).cursor as nat,
            ) {
                Ok((v, p)) => r == Ok::<bool, LogicError>(v) && final(self).cursor == p,
                Err(e) => r matches Err(x) && x@ == e,
            },
        decreases measure(old(self).bytes@, old(self).cursor as nat), 3nat,
    {
        let ghost s = self.bytes@;
        let ghost pins = self.pin_names();
        let ghost a = self.assignment;
        let ghost p0 = self.cursor as nat;
        proof {
            lemma_term_forward(s, pins, a, p0);
            lemma_unary_forward(s, pins, a, p0);
        }
        let mut value = match self.unary() {
            Ok(v) => v,
            Err(e) => {
                return Err(e);
            },
        };
        proof {
            lemma_skip_ws_bounds(s, self.cursor as nat);
        }
        while self.consume('*')
            invariant
                self.bytes@ == s,
                self.pin_names() == pins,
                self.assignment == a,
                self.pins@.len() < usize::BITS,
                p0 < self.cursor <= s.len(),
                self.cursor as nat <= skip_ws(s, self.cursor as nat) <= s.len(),
                s == old(self).bytes@,
                p0 == old(self).cursor as nat,
                self.bytes == old(self).bytes,
                self.pins == old(self).pins,
                self.assignment == old(self).assignment,
                eval_term(s, pins, a, p0) == eval_term_rest(s, pins, a, self.cursor as nat, value),
            decreases s.len() - self.cursor,
        {
            proof {
                lemma_unary_forward(s, pins, a, self.cursor as nat);
            }
            match self.unary() {
                Ok(v) => {
                    value = value && v;
                },
                Err(e) => {
                    return Err(e);
                },
            }
            proof {
                lemma_skip_ws_bounds(s, self.cursor as nat);
            }
        }
        Ok(value)
    }

    /// Evaluates `unary := '!' unary | '(' expression ')' | identifier`.
    pub fn unary(&mut self) -> (r: Result<bool, LogicError>)
        requires
            old(self).cursor <= old(self).bytes@.len(),
            old(self).pins@.len() < usize::BITS,
        ensures
            final(self).bytes == old(self).bytes,
            final(self).pins == old(self).pins,
            final(self).assignment == old(self).assignment,
            match eval_unary(
                old(self).bytes@,
                old(self).pin_names(),
                old(self).assignment,
                old(self).cursor as nat,
            ) {
                Ok((v, p)) => r == Ok::<bool, LogicError>(v) && final(self).cursor == p,
                Err(e) => r matches Err(x) && x@ == e,
            },
        decreases measure(old(self).bytes@, old(self).cursor as nat), 2nat,
    {
        let ghost s = self.bytes@;
        let ghost pins = self.pin_names();
        let ghost a = self.assignment;
        let ghost p0 = self.cursor as nat;
        proof {
            lemma_unary_forward(s, pins, a, p0);
            lemma_skip_ws_bounds(s, p0);
            lemma_skip_ws_bounds(s, skip_ws(s, p0));
        }
        self.skip_space();
        if self.consume('!') {
            return match self.unary() {
                Ok(v) => Ok(!v),
                Err(e) => Err(e),
            };
        }
        if self.consume('(') {
            proof {
                lemma_expression_forward(s, pins, a, self.cursor as nat);
            }
            let value = match self.expression() {
                Ok(v) => v,
                Err(e) => {
                    return Err(e);
                },
            };
            if !self.consume(')') {
                return Err(LogicError::MissingParen);
            }
            return Ok(value);
        }
        let start = self.cursor;
        proof {
            lemma_scan_ident_bounds(s, start as nat);
        }
        while self.cursor < self.bytes.len() && is_ident_exec(self.bytes[self.cursor])
            invariant
                start <= self.cursor <= s.len(),
                self.bytes@ == s,
                self.bytes == old(self).bytes,
                self.pins == old(self).pins,
                self.assignment == old(self).assignment,
                scan_ident(s, self.cursor as nat) == scan_ident(s, start as nat),
            decreases s.len() - self.cursor,
        {
            self.cursor = self.cursor + 1;
        }
        if start == self.cursor {
            return Err(LogicError::ExpectedIdentifier);
        }
        let mut name: Vec<char> = Vec::new();
        let mut k: usize = start;
        while k < self.cursor
            invariant
                start <= k <= self.cursor,
                self.cursor <= s.len(),
                self.bytes@ == s,
                name@ == s.subrange(start as int, k as int),
            decreases self.cursor - k,
        {
            name.push(self.bytes[k]);
            assert(s.subrange(start as int, k + 1) =~= s.subrange(start as int, k as int).push(s[k as int]));
            k = k + 1;
        }
        if name.len() == 1 && name[0] == '0' {
            assert(name@ =~= seq!['0']);
            return Ok(false);
        }
        if name.len() == 1 && name[0] == '1' {
            assert(name@ =~= seq!['1']);
            return Ok(true);
        }
        proof {
            if name@.len() == 1 {
                assert(name@ != seq!['0']);
                assert(name@ != seq!['1']);
            }
        }
        match self.input_value(&name) {
            Some(v) => Ok(v),
            None => Err(LogicError::UnknownInput(crate::text::string_of(&name))),
        }
    }
}

/// The value of a whole function under one assignment, if the text is one
/// well-formed expression.
pub open spec fn eval_function(s: Seq<char>, pins: Seq<Seq<char>>, a: usize) -> Option<bool> {
    match eval_expression(s, pins, a, 0) {
        Ok((v, p)) => if skip_ws(s, p) == s.len() {
            Some(v)
        } else {
            None
        },
        Err(_) => None,
    }
}

/// The truth table of a function over its input pins: row `a` is its value
/// when pin `i` takes bit `i` of `a`.  It is empty when there are too many
/// pins for a row index or when some row does not evaluate.
pub open spec fn truth_table(s: Seq<char>, pins: Seq<Seq<char>>) -> Seq<bool> {
    if pins.len() >= usize::BITS {
        Seq::empty()
    } else {
        let rows = (1usize << (pins.len() as u32)) as nat;
        if forall|a: usize| a < rows ==> (#[trigger] eval_function(s, pins, a)) is Some {
            Seq::new(rows, |a: int| eval_function(s, pins, a as usize)->0)
        } else {
            Seq::empty()
        }
    }
}

/// The quoted text of the first `function : "..."` attribute of a pin
/// body, as found by the pattern `\bfunction\s*:\s*"([^"]+)"`.
pub uninterp spec fn function_attribute(content: Seq<char>) -> Option<Seq<char>>;

/// Runs `regex::Regex::captures` with the pattern of `function_attribute`
/// over `content` and returns the text of its first group.  Trusted: the
/// result is the named value `function_attribute(content@)`; what the
/// pattern matches is not stated here.
#[verifier::external_body]
fn find_function_attribute(content: &str) -> (r: Option<String>)
    ensures
        match r {
            Some(f) => function_attribute(content@) == Some(f@),
            None => function_attribute(content@) is None,
        },
{
    let pattern = regex::Regex::new(r#"\bfunction\s*:\s*\"([^\"]+)\""#).expect("static function regex");
    match pattern.captures(content) {
        Some(captures) => captures.get(1).map(|found| found.as_str().to_string()),
        None => None,
    }
}

/// A copy of a list of names.
fn copy_names(v: &Vec<Vec<char>>) -> (r: Vec<Vec<char>>)
    ensures
        r@.map_values(|p: Vec<char>| p@) == v@.map_values(|p: Vec<char>| p@),
        r@.len() == v@.len(),
{
    let mut r: Vec<Vec<char>> = Vec::new();
    let mut i: usize = 0;
    while i < v.len()
        invariant
            0 <= i <= v.len(),
            r@.len() == i,
            forall|j: int| 0 <= j < i ==> (#[trigger] r@[j])@ == v@[j]@,
        decreases v.len() - i,
    {
        let c = copy_chars(&v[i]);
        r.push(c);
        i = i + 1;
    }
    assert(r@.map_values(|p: Vec<char>| p@) =~= v@.map_values(|p: Vec<char>| p@));
    r
}

/// Evaluates `function` under assignment `a` of the pins: the whole text
/// must be one expression, up to trailing whitespace.
pub fn evaluate_function(function: &Vec<char>, pins: &Vec<Vec<char>>, a: usize) -> (r: Option<bool>)
    requires
        pins@.len() < usize::BITS,
    ensures
        r == eval_function(function@, pins@.map_values(|p: Vec<char>| p@), a),
{
    let mut parser = LogicFunctionParser {
        bytes: copy_chars(function),
        cursor: 0,
        pins: copy_names(pins),
        assignment: a,
    };
    proof {
        lemma_expression_forward(function@, pins@.map_values(|p: Vec<char>| p@), a, 0);
    }
    match parser.expression() {
        Ok(v) => {
            parser.skip_space();
            if parser.cursor == parser.bytes.len() {
                Some(v)
            } else {
                None
            }
        },
        Err(_) => None,
    }
}

/// The truth table of `function` over `pins` (see `truth_table`).
pub fn logic_truth_table(function: &Vec<char>, pins: &Vec<Vec<char>>) -> (r: Vec<bool>)
    requires
        pins@.len() <= u32::MAX,
    ensures
        r@ == truth_table(function@, pins@.map_values(|p: Vec<char>| p@)),
{
    let ghost names = pins@.map_values(|p: Vec<char>| p@);
    let shift = pins.len() as u32;
    if shift >= usize::BITS {
        return Vec::new();
    }
    let rows: usize = 1usize << shift;
    let mut out: Vec<bool> = Vec::new();
    let mut a: usize = 0;
    while a < rows
        invariant
            0 <= a <= rows,
            rows == 1usize << (pins@.len() as u32),
            pins@.len() < usize::BITS,
            names == pins@.map_values(|p: Vec<char>| p@),
            forall|i: usize| i < a ==> (#[trigger] eval_function(function@, names, i)) is Some,
            out@ == Seq::new(a as nat, |i: int| eval_function(function@, names, i as usize)->0),
        decreases rows - a,
    {
        match evaluate_function(function, pins, a) {
            Some(v) => {
                out.push(v);
                assert(out@ =~= Seq::new(
                    (a + 1) as nat,
                    |i: int| eval_function(function@, names, i as usize)->0,
                ));
            },
            None => {
                return Vec::new();
            },
        }
        a = a + 1;
    }
    out
}

/// The truth table of the `function` attribute of an output pin's body
/// over the cell's input pins; empty when the pin has no such attribute.
pub fn parse_logic_truth_table(pin_content: &str, pins: &Vec<String>) -> (r: Vec<bool>)
    requires
        pins@.len() <= u32::MAX,
    ensures
        r@ == match function_attribute(pin_content@) {
            Some(f) => truth_table(f, pins@.map_values(|p: String| p@)),
            None => Seq::empty(),
        },
{
    let function = match find_function_attribute(pin_content) {
        Some(f) => chars_of(f.as_str()),
        None => {
            return Vec::new();
        },
    };
    let mut names: Vec<Vec<char>> = Vec::new();
    let mut i: usize = 0;
    while i < pins.len()
        invariant
            0 <= i <= pins@.len(),
            names@.len() == i,
            forall|j: int| 0 <= j < i ==> (#[trigger] names@[j])@ == pins@[j]@,
        decreases pins@.len() - i,
    {
        names.push(chars_of(pins[i].as_str()));
        i = i + 1;
    }
    assert(names@.map_values(|p: Vec<char>| p@) =~= pins@.map_values(|p: String| p@));
    logic_truth_table(&function, &names)
}

} // verus!
