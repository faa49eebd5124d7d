//! The formula grammar and its parser.
//!
//! A formula is an equals sign followed by one expression.  Addition
//! and subtraction bind loosest and associate left; multiplication and
//! division next, also left; exponentiation binds tighter and
//! associates right; unary minus binds tighter still; primaries are
//! number literals, cell references, function calls with comma-
//! separated arguments, and parenthesized expressions.  Trailing
//! tokens, unbalanced parentheses or an unknown character make the
//! whole text unparsable -- parsing never partially succeeds.

use vstd::prelude::*;
use crate::ast::{BinOp, Expr, ExprV, UnOp, expr_view, exprs_view};
use crate::errors::FormulaError;
use crate::eval::{ValueMap, eval_expr, spec_eval};
use crate::text::str_to_chars;
use crate::tokens::{Token, spec_tokenize, tok_view, tokenize, toks_views};

verus! {

/// The additive level: products joined by `+` and `-`, left to right.
pub open spec fn spec_additive(ts: Seq<Token<Seq<char>>>, p: int) -> Option<(ExprV, int)>
    decreases ts.len() - p, 5int,
{
    match spec_mult(ts, p) {
        None => None,
        Some((e, p1)) => if p1 <= p || p1 > ts.len() {
            None
        } else {
            spec_additive_rest(e, ts, p1)
        },
    }
}

/// Further `+` and `-` steps after a first product.
pub open spec fn spec_additive_rest(acc: ExprV, ts: Seq<Token<Seq<char>>>, p: int) -> Option<
    (ExprV, int),
>
    decreases ts.len() - p, 6int,
{
    if 0 <= p < ts.len() && (ts[p] is Plus || ts[p] is Minus) {
        let op = if ts[p] is Plus {
            BinOp::Add
        } else {
            BinOp::Sub
        };
        match spec_mult(ts, p + 1) {
            None => None,
            Some((r, p2)) => if p2 <= p + 1 || p2 > ts.len() {
                None
            } else {
                spec_additive_rest(
                    ExprV::BinaryOp { op, lhs: Box::new(acc), rhs: Box::new(r) },
                    ts,
                    p2,
                )
            },
        }
    } else {
        Some((acc, p))
    }
}

/// The multiplicative level: powers joined by `*` and `/`, left to
/// right.
pub open spec fn spec_mult(ts: Seq<Token<Seq<char>>>, p: int) -> Option<(ExprV, int)>
    decreases ts.len() - p, 3int,
{
    match spec_power(ts, p) {
        None => None,
        Some((e, p1)) => if p1 <= p || p1 > ts.len() {
            None
        } else {
            spec_mult_rest(e, ts, p1)
        },
    }
}

/// Further `*` and `/` steps after a first power.
pub open spec fn spec_mult_rest(acc: ExprV, ts: Seq<Token<Seq<char>>>, p: int) -> Option<
    (ExprV, int),
>
    decreases ts.len() - p, 4int,
{
    if 0 <= p < ts.len() && (ts[p] is Star || ts[p] is Slash) {
        let op = if ts[p] is Star {
            BinOp::Mul
        } else {
            BinOp::Div
        };
        match spec_power(ts, p + 1) {
            None => None,
            Some((r, p2)) => if p2 <= p + 1 || p2 > ts.len() {
                None
            } else {
                spec_mult_rest(
                    ExprV::BinaryOp { op, lhs: Box::new(acc), rhs: Box::new(r) },
                    ts,
                    p2,
                )
            },
        }
    } else {
        Some((acc, p))
    }
}

/// The power level: `^` associates to the right.
pub open spec fn spec_power(ts: Seq<Token<Seq<char>>>, p: int) -> Option<(ExprV, int)>
    decreases ts.len() - p, 2int,
{
    match spec_unary(ts, p) {
        None => None,
        Some((b, p1)) => if p1 <= p || p1 > ts.len() {
            None
        } else if p1 < ts.len() && ts[p1] is Caret {
            match spec_power(ts, p1 + 1) {
                None => None,
                Some((ex, p2)) => Some(
                    (ExprV::BinaryOp { op: BinOp::Pow, lhs: Box::new(b), rhs: Box::new(ex) }, p2),
                ),
            }
        } else {
            Some((b, p1))
        },
    }
}

/// Unary minus, binding tighter than `^`.
pub open spec fn spec_unary(ts: Seq<Token<Seq<char>>>, p: int) -> Option<(ExprV, int)>
    decreases ts.len() - p, 1int,
{
    if 0 <= p < ts.len() && ts[p] is Minus {
        match spec_unary(ts, p + 1) {
            None => None,
            Some((o, p1)) => Some(
                (ExprV::UnaryOp { op: UnOp::Neg, operand: Box::new(o) }, p1),
            ),
        }
    } else {
        spec_primary(ts, p)
    }
}

/// A primary: a number, a cell reference, a function call, or a
/// parenthesized expression.
pub open spec fn spec_primary(ts: Seq<Token<Seq<char>>>, p: int) -> Option<(ExprV, int)>
    decreases ts.len() - p, 0int,
{
    if p < 0 || p >= ts.len() {
        None
    } else {
        match ts[p] {
            Token::Num(n) => Some((ExprV::Number(n), p + 1)),
            Token::Ref(r) => Some((ExprV::CellRef(r), p + 1)),
            Token::Name(nm) => if p + 1 < ts.len() && ts[p + 1] is LParen {
                if p + 2 < ts.len() && ts[p + 2] is RParen {
                    Some((ExprV::Function { name: nm, args: Seq::empty() }, p + 3))
                } else {
                    match spec_args(ts, p + 2) {
                        None => None,
                        Some((es, p3)) => if p3 < ts.len() && ts[p3] is RParen {
                            Some((ExprV::Function { name: nm, args: es }, p3 + 1))
                        } else {
                            None
                        },
                    }
                }
            } else {
                None
            },
            Token::LParen => match spec_additive(ts, p + 1) {
                None => None,
                Some((e, p1)) => if p1 < ts.len() && ts[p1] is RParen {
                    Some((e, p1 + 1))
                } else {
                    None
                },
            },
            _ => None,
        }
    }
}

/// One or more comma-separated argument expressions.
pub open spec fn spec_args(ts: Seq<Token<Seq<char>>>, p: int) -> Option<(Seq<ExprV>, int)>
    decreases ts.len() - p, 7int,
{
    match spec_additive(ts, p) {
        None => None,
        Some((e, p1)) => if p1 <= p || p1 > ts.len() {
            None
        } else if p1 < ts.len() && ts[p1] is Comma {
            match spec_args(ts, p1 + 1) {
                None => None,
                Some((es, p2)) => Some((seq![e] + es, p2)),
            }
        } else {
            Some((seq![e], p1))
        },
    }
}

/// The tree a formula text parses to: an equals sign, one expression,
/// nothing after it.
pub open spec fn spec_parse_formula(s: Seq<char>) -> Option<ExprV> {
    match spec_tokenize(s) {
        None => None,
        Some(ts) => if ts.len() >= 1 && ts[0] is Eq {
            match spec_additive(ts, 1) {
                None => None,
                Some((e, p)) => if p == ts.len() {
                    Some(e)
                } else {
                    None
                },
            }
        } else {
            None
        },
    }
}

/// How an executable parse result must mirror the specification's.
pub open spec fn parse_rel(sr: Option<(ExprV, int)>, r: Option<(Expr, usize)>) -> bool {
    match sr {
        None => r is None,
        Some((ev, np)) => r is Some && expr_view((r->0).0) == ev && (r->0).1 == np,
    }
}

/// The same, for an argument list.
pub open spec fn args_rel(sr: Option<(Seq<ExprV>, int)>, r: Option<(Vec<Expr>, usize)>) -> bool {
    match sr {
        None => r is None,
        Some((es, np)) => r is Some && exprs_view((r->0).0@) == es && (r->0).1 == np,
    }
}

fn p_additive(toks: &Vec<Token<Vec<char>>>, p: usize) -> (r: Option<(Expr, usize)>)
    requires
        p <= toks@.len(),
    ensures
        parse_rel(spec_additive(toks_views(toks@), p as int), r),
    decreases toks@.len() - p, 5int,
{
    let (e, p1) = match p_mult(toks, p) {
        None => {
            return None;
        },
        Some(x) => x,
    };
    if p1 <= p || p1 > toks.len() {
        return None;
    }
    p_additive_rest(e, toks, p1)
}

fn p_additive_rest(acc: Expr, toks: &Vec<Token<Vec<char>>>, p: usize) -> (r: Option<
    (Expr, usize),
>)
    requires
        p <= toks@.len(),
    ensures
        parse_rel(spec_additive_rest(expr_view(acc), toks_views(toks@), p as int), r),
    decreases toks@.len() - p, 6int,
{
    if p < toks.len() {
        let op: Option<BinOp> = match &toks[p] {
            Token::Plus => Some(BinOp::Add),
            Token::Minus => Some(BinOp::Sub),
            _ => None,
        };
        match op {
            None => Some((acc, p)),
            Some(op) => {
                let (r0, p2) = match p_mult(toks, p + 1) {
                    None => {
                        return None;
                    },
                    Some(x) => x,
                };
                if p2 <= p + 1 || p2 > toks.len() {
                    return None;
                }
                p_additive_rest(
                    Expr::BinaryOp { op, lhs: Box::new(acc), rhs: Box::new(r0) },
                    toks,
                    p2,
                )
            },
        }
    } else {
        Some((acc, p))
    }
}

fn p_mult(toks: &Vec<Token<Vec<char>>>, p: usize) -> (r: Option<(Expr, usize)>)
    requires
        p <= toks@.len(),
    ensures
        parse_rel(spec_mult(toks_views(toks@), p as int), r),
    decreases toks@.len() - p, 3int,
{
    let (e, p1) = match p_power(toks, p) {
        None => {
            return None;
        },
        Some(x) => x,
    };
    if p1 <= p || p1 > toks.len() {
        return None;
    }
    p_mult_rest(e, toks, p1)
}

fn p_mult_rest(acc: Expr, toks: &Vec<Token<Vec<char>>>, p: usize) -> (r: Option<(Expr, usize)>)
    requires
        p <= toks@.len(),
    ensures
        parse_rel(spec_mult_rest(expr_view(acc), toks_views(toks@), p as int), r),
    decreases toks@.len() - p, 4int,
{
    if p < toks.len() {
        let op: Option<BinOp> = match &toks[p] {
            Token::Star => Some(BinOp::Mul),
            Token::Slash => Some(BinOp::Div),
            _ => None,
        };
        match op {
            None => Some((acc, p)),
            Some(op) => {
                let (r0, p2) = match p_power(toks, p + 1) {
                    None => {
                        return None;
                    },
                    Some(x) => x,
                };
                if p2 <= p + 1 || p2 > toks.len() {
                    return None;
                }
                p_mult_rest(
                    Expr::BinaryOp { op, lhs: Box::new(acc), rhs: Box::new(r0) },
                    toks,
                    p2,
                )
            },
        }
    } else {
        Some((acc, p))
    }
}

fn p_power(toks: &Vec<Token<Vec<char>>>, p: usize) -> (r: Option<(Expr, usize)>)
    requires
        p <= toks@.len(),
    ensures
        parse_rel(spec_power(toks_views(toks@), p as int), r),
    decreases toks@.len() - p, 2int,
{
    let (b, p1) = match p_unary(toks, p) {
        None => {
            return None;
        },
        Some(x) => x,
    };
    if p1 <= p || p1 > toks.len() {
        return None;
    }
    let caret = p1 < toks.len() && matches!(&toks[p1], Token::Caret);
    if caret {
        let (ex, p2) = match p_power(toks, p1 + 1) {
            None => {
                return None;
            },
            Some(x) => x,
        };
        Some((Expr::BinaryOp { op: BinOp::Pow, lhs: Box::new(b), rhs: Box::new(ex) }, p2))
    } else {
        Some((b, p1))
    }
}

fn p_unary(toks: &Vec<Token<Vec<char>>>, p: usize) -> (r: Option<(Expr, usize)>)
    requires
        p <= toks@.len(),
    ensures
        parse_rel(spec_unary(toks_views(toks@), p as int), r),
    decreases toks@.len() - p, 1int,
{
    let minus = p < toks.len() && matches!(&toks[p], Token::Minus);
    if minus {
        let (o, p1) = match p_unary(toks, p + 1) {
            None => {
                return None;
            },
            Some(x) => x,
        };
        Some((Expr::UnaryOp { op: UnOp::Neg, operand: Box::new(o) }, p1))
    } else {
        p_primary(toks, p)
    }
}

fn p_primary(toks: &Vec<Token<Vec<char>>>, p: usize) -> (r: Option<(Expr, usize)>)
    requires
        p <= toks@.len(),
    ensures
        parse_rel(spec_primary(toks_views(toks@), p as int), r),
    decreases toks@.len() - p, 0int,
{
    if p >= toks.len() {
        return None;
    }
    proof {
        assert(toks_views(toks@)[p as int] == tok_view(toks@[p as int]));
    }
    match &toks[p] {
        Token::Num(n) => Some((Expr::Number(*n), p + 1)),
        Token::Ref(cr) => Some((Expr::CellRef(crate::eval::copy_chars(cr)), p + 1)),
        Token::Name(nm) => {
            let lparen = p + 1 < toks.len() && matches!(&toks[p + 1], Token::LParen);
            if lparen {
                let empty = p + 2 < toks.len() && matches!(&toks[p + 2], Token::RParen);
                if empty {
                    let name = crate::eval::copy_chars(nm);
                    let args0: Vec<Expr> = Vec::new();
                    proof {
                        assert(args0@ =~= Seq::<Expr>::empty());
                        assert(exprs_view(args0@) =~= Seq::<ExprV>::empty());
                    }
                    Some((Expr::Function { name, args: args0 }, p + 3))
                } else {
                    let (es, p3) = match p_args(toks, p + 2) {
                        None => {
                            return None;
                        },
                        Some(x) => x,
                    };
                    let rparen = p3 < toks.len() && matches!(&toks[p3], Token::RParen);
                    if rparen {
                        let name = crate::eval::copy_chars(nm);
                        Some((Expr::Function { name, args: es }, p3 + 1))
                    } else {
                        None
                    }
                }
            } else {
                None
            }
        },
        Token::LParen => {
            let (e, p1) = match p_additive(toks, p + 1) {
                None => {
                    return None;
                },
                Some(x) => x,
            };
            let rparen = p1 < toks.len() && matches!(&toks[p1], Token::RParen);
            if rparen {
                Some((e, p1 + 1))
            } else {
                None
            }
        },
        _ => None,
    }
}

fn p_args(toks: &Vec<Token<Vec<char>>>, p: usize) -> (r: Option<(Vec<Expr>, usize)>)
    requires
        p <= toks@.len(),
    ensures
        args_rel(spec_args(toks_views(toks@), p as int), r),
    decreases toks@.len() - p, 7int,
{
    let (e, p1) = match p_additive(toks, p) {
        None => {
            return None;
        },
        Some(x) => x,
    };
    if p1 <= p || p1 > toks.len() {
        return None;
    }
    let comma = p1 < toks.len() && matches!(&toks[p1], Token::Comma);
    if comma {
        let (mut es, p2) = match p_args(toks, p1 + 1) {
            None => {
                return None;
            },
            Some(x) => x,
        };
        let ghost es_prev = es@;
        es.insert(0, e);
        proof {
            assert(es@[0] == e);
            assert(es@.drop_first() =~= es_prev);
        }
        Some((es, p2))
    } else {
        let mut one: Vec<Expr> = Vec::new();
        one.push(e);
        proof {
            reveal_with_fuel(exprs_view, 3);
            assert(one@[0] == e);
            assert(one@.drop_first() =~= Seq::<Expr>::empty());
            assert(exprs_view(one@) =~= seq![expr_view(e)]);
        }
        Some((one, p1))
    }
}

/// Parses a formula text (beginning with `=`) into its expression
/// tree, or reports that the text is malformed.
pub fn parse_formula(input: &str) -> (r: Result<Expr, FormulaError>)
    ensures
        (match spec_parse_formula(input@) {
            None => r == Err::<Expr, FormulaError>(FormulaError::ParsingError),
            Some(ev) => r is Ok && expr_view(r->Ok_0) == ev,
        }),
{
    let cs = str_to_chars(input);
    let toks = match tokenize(&cs) {
        None => {
            return Err(FormulaError::ParsingError);
        },
        Some(ts) => ts,
    };
    let eq_first = toks.len() >= 1 && matches!(&toks[0], Token::Eq);
    if !eq_first {
        return Err(FormulaError::ParsingError);
    }
    match p_additive(&toks, 1) {
        None => Err(FormulaError::ParsingError),
        Some((e, p)) => if p == toks.len() {
            Ok(e)
        } else {
            Err(FormulaError::ParsingError)
        },
    }
}

/// What a whole formula text is worth against a table of cell values.
pub open spec fn spec_calculate(s: Seq<char>, env: Map<Seq<char>, i64>) -> Result<
    i64,
    FormulaError,
> {
    match spec_parse_formula(s) {
        None => Err(FormulaError::ParsingError),
        Some(e) => spec_eval(e, env),
    }
}

/// Parses and evaluates a formula text (beginning with `=`) against a
/// table of cell values, exactly as `spec_calculate` describes.
pub fn calculate(input: &str, vals: &ValueMap) -> (r: Result<i64, FormulaError>)
    ensures
        r == spec_calculate(input@, vals@),
{
    match parse_formula(input) {
        Err(er) => Err(er),
        Ok(ast) => eval_expr(&ast, vals),
    }
}

} // verus!
