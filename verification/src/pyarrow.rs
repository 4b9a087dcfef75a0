//! Predicates as text for a foreign arrow engine.

use vstd::prelude::*;
use vstd::string::StringExecFns;

use crate::aexpr::{AExpr, AExprView, LiteralValue, Operator};
use crate::arena::{Arena, Node};

verus! {

/// The text of one decimal digit.
pub open spec fn digit_text(d: nat) -> Seq<char> {
    if d == 0 {
        "0"@
    } else if d == 1 {
        "1"@
    } else if d == 2 {
        "2"@
    } else if d == 3 {
        "3"@
    } else if d == 4 {
        "4"@
    } else if d == 5 {
        "5"@
    } else if d == 6 {
        "6"@
    } else if d == 7 {
        "7"@
    } else if d == 8 {
        "8"@
    } else {
        "9"@
    }
}

/// A natural number in decimal, without leading zeros.
pub open spec fn spec_decimal(n: nat) -> Seq<char>
    decreases n,
{
    if n < 10 {
        digit_text(n)
    } else {
        spec_decimal(n / 10) + digit_text(n % 10)
    }
}

/// An integer in decimal, with a minus sign if it is negative.
pub open spec fn spec_signed_decimal(n: int) -> Seq<char> {
    if n < 0 {
        "-"@ + spec_decimal((-n) as nat)
    } else {
        spec_decimal(n as nat)
    }
}

fn digit_str(d: u64) -> (res: &'static str)
    requires
        d < 10,
    ensures
        res@ == digit_text(d as nat),
{
    if d == 0 {
        "0"
    } else if d == 1 {
        "1"
    } else if d == 2 {
        "2"
    } else if d == 3 {
        "3"
    } else if d == 4 {
        "4"
    } else if d == 5 {
        "5"
    } else if d == 6 {
        "6"
    } else if d == 7 {
        "7"
    } else if d == 8 {
        "8"
    } else {
        "9"
    }
}

/// A number in decimal.
pub fn decimal(n: u64) -> (res: String)
    ensures
        res@ == spec_decimal(n as nat),
    decreases n,
{
    if n < 10 {
        String::from_str(digit_str(n))
    } else {
        let mut s = decimal(n / 10);
        s.append(digit_str(n % 10));
        s
    }
}

/// An integer in decimal.
pub fn signed_decimal(n: i64) -> (res: String)
    ensures
        res@ == spec_signed_decimal(n as int),
{
    if n < 0 {
        let magnitude: u64 = ((-(n + 1)) as u64) + 1;
        let mut s = String::from_str("-");
        let digits = decimal(magnitude);
        s.append(digits.as_str());
        s
    } else {
        decimal(n as u64)
    }
}

/// The sign that the engine uses for an operator, if it has one.
pub open spec fn spec_operator_text(op: Operator) -> Option<Seq<char>> {
    match op {
        Operator::Eq => Some("=="@),
        Operator::NotEq => Some("!="@),
        Operator::Lt => Some("<"@),
        Operator::LtEq => Some("<="@),
        Operator::Gt => Some(">"@),
        Operator::GtEq => Some(">="@),
        Operator::Plus => Some("+"@),
        Operator::Minus => Some("-"@),
        Operator::Multiply => Some("*"@),
        Operator::Divide => Some("/"@),
        Operator::And => Some("&"@),
        Operator::Or => Some("|"@),
        Operator::Xor => None,
    }
}

fn operator_text(op: Operator) -> (res: Option<&'static str>)
    ensures
        match spec_operator_text(op) {
            Some(t) => res matches Some(r) && r@ == t,
            None => res is None,
        },
{
    match op {
        Operator::Eq => Some("=="),
        Operator::NotEq => Some("!="),
        Operator::Lt => Some("<"),
        Operator::LtEq => Some("<="),
        Operator::Gt => Some(">"),
        Operator::GtEq => Some(">="),
        Operator::Plus => Some("+"),
        Operator::Minus => Some("-"),
        Operator::Multiply => Some("*"),
        Operator::Divide => Some("/"),
        Operator::And => Some("&"),
        Operator::Or => Some("|"),
        Operator::Xor => None,
    }
}

/// The text of a constant, if the engine can read it.
pub open spec fn spec_literal_text(v: LiteralValue) -> Option<Seq<char>> {
    match v {
        LiteralValue::Null => None,
        LiteralValue::Boolean(b) => Some(
            if b {
                "True"@
            } else {
                "False"@
            },
        ),
        LiteralValue::Int64(i) => Some(spec_signed_decimal(i as int)),
        LiteralValue::UInt64(u) => Some(spec_decimal(u as nat)),
    }
}

/// The expression at `h` in the engine's notation: a column as
/// `pa.compute.field('name')`, a binary expression as `(left op right)`,
/// a negation as `~(inner)`, constants in decimal or as `True` and
/// `False`. `None` for an expression with any other part.
pub open spec fn spec_predicate_to_pa(es: Seq<AExprView>, h: int) -> Option<Seq<char>>
    decreases h,
{
    if !(0 <= h < es.len()) {
        None
    } else {
        match es[h] {
            AExprView::Column(name) => Some("pa.compute.field('"@ + name + "')"@),
            AExprView::Literal(v) => spec_literal_text(v),
            AExprView::BinaryExpr { left, op, right } => {
                if left.0 < h && right.0 < h {
                    match (
                        spec_operator_text(op),
                        spec_predicate_to_pa(es, left.0 as int),
                        spec_predicate_to_pa(es, right.0 as int),
                    ) {
                        (Some(sign), Some(l), Some(r)) => Some(
                            "("@ + l + " "@ + sign + " "@ + r + ")"@,
                        ),
                        _ => None,
                    }
                } else {
                    None
                }
            },
            AExprView::Not(e) => {
                if e.0 < h {
                    match spec_predicate_to_pa(es, e.0 as int) {
                        Some(inner) => Some("~("@ + inner + ")"@),
                        None => None,
                    }
                } else {
                    None
                }
            },
            _ => None,
        }
    }
}

/// The predicate at `node` in the engine's notation, if the engine can
/// evaluate it.
pub fn predicate_to_pa(node: Node, arena: &Arena<AExpr>) -> (res: Option<String>)
    requires
        arena.wf(),
        node.0 < arena@.len(),
    ensures
        match spec_predicate_to_pa(arena.exprs(), node.0 as int) {
            Some(t) => res matches Some(r) && r@ == t,
            None => res is None,
        },
    decreases node.0,
{
    let e = arena.expr(node);
    assert(arena.exprs()[node.0 as int].inputs_below(node.0 as int));
    match e {
        AExpr::Column(name) => {
            let mut s = String::from_str("pa.compute.field('");
            s.append(name.as_str());
            s.append("')");
            Some(s)
        },
        AExpr::Literal(v) => match v {
            LiteralValue::Null => None,
            LiteralValue::Boolean(b) => Some(
                if *b {
                    String::from_str("True")
                } else {
                    String::from_str("False")
                },
            ),
            LiteralValue::Int64(i) => Some(signed_decimal(*i)),
            LiteralValue::UInt64(u) => Some(decimal(*u)),
        },
        AExpr::BinaryExpr { left, op, right } => {
            assert(arena.exprs()[node.0 as int].nodes()[0] == *left);
            assert(arena.exprs()[node.0 as int].nodes()[1] == *right);
            let sign = match operator_text(*op) {
                Some(sign) => sign,
                None => {
                    return None;
                },
            };
            let l = match predicate_to_pa(*left, arena) {
                Some(l) => l,
                None => {
                    return None;
                },
            };
            let r = match predicate_to_pa(*right, arena) {
                Some(r) => r,
                None => {
                    return None;
                },
            };
            let mut s = String::from_str("(");
            s.append(l.as_str());
            s.append(" ");
            s.append(sign);
            s.append(" ");
            s.append(r.as_str());
            s.append(")");
            Some(s)
        },
        AExpr::Not(inner) => {
            assert(arena.exprs()[node.0 as int].nodes()[0] == *inner);
            match predicate_to_pa(*inner, arena) {
                Some(text) => {
                    let mut s = String::from_str("~(");
                    s.append(text.as_str());
                    s.append(")");
                    Some(s)
                },
                None => None,
            }
        },
        _ => None,
    }
}

} // verus!
