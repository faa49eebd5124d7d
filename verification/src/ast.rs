//! The expression tree a formula parses to.
//!
//! The executable tree holds its text as `Vec<char>`; its mathematical
//! shadow `ExprV` holds `Seq<char>`, and every contract about parsing
//! and evaluation is stated over the shadow.

use vstd::prelude::*;

verus! {

/// Binary operators of the grammar.
#[derive(Clone, Copy, PartialEq, Eq, Structural, Debug)]
pub enum BinOp {
    Add,
    Sub,
    Mul,
    Div,
    Pow,
}

/// Unary operators of the grammar.
#[derive(Clone, Copy, PartialEq, Eq, Structural, Debug)]
pub enum UnOp {
    Neg,
}

/// A parsed formula: numbers, cell references, operators and function
/// calls.  Built fresh for each evaluation, never cached.
#[derive(Debug)]
pub enum Expr {
    Number(i64),
    CellRef(Vec<char>),
    BinaryOp { op: BinOp, lhs: Box<Expr>, rhs: Box<Expr> },
    UnaryOp { op: UnOp, operand: Box<Expr> },
    Function { name: Vec<char>, args: Vec<Expr> },
}

/// The mathematical form of an expression tree.
pub enum ExprV {
    Number(i64),
    CellRef(Seq<char>),
    BinaryOp { op: BinOp, lhs: Box<ExprV>, rhs: Box<ExprV> },
    UnaryOp { op: UnOp, operand: Box<ExprV> },
    Function { name: Seq<char>, args: Seq<ExprV> },
}

/// What an executable expression tree stands for.
pub open spec fn expr_view(e: Expr) -> ExprV
    decreases e,
{
    match e {
        Expr::Number(n) => ExprV::Number(n),
        Expr::CellRef(r) => ExprV::CellRef(r@),
        Expr::BinaryOp { op, lhs, rhs } => ExprV::BinaryOp {
            op,
            lhs: Box::new(expr_view(*lhs)),
            rhs: Box::new(expr_view(*rhs)),
        },
        Expr::UnaryOp { op, operand } => ExprV::UnaryOp {
            op,
            operand: Box::new(expr_view(*operand)),
        },
        Expr::Function { name, args } => ExprV::Function {
            name: name@,
            args: exprs_view(args@),
        },
    }
}

/// What a list of argument trees stands for.
pub open spec fn exprs_view(es: Seq<Expr>) -> Seq<ExprV>
    decreases es,
{
    if es.len() == 0 {
        Seq::empty()
    } else {
        seq![expr_view(es[0])] + exprs_view(es.drop_first())
    }
}

/// The cell references an expression mentions, in evaluation order,
/// duplicates kept.  These are the dependencies a formula cell acquires.
pub open spec fn refs_of(e: ExprV) -> Seq<Seq<char>>
    decreases e,
{
    match e {
        ExprV::Number(_) => Seq::empty(),
        ExprV::CellRef(r) => seq![r],
        ExprV::BinaryOp { op, lhs, rhs } => refs_of(*lhs) + refs_of(*rhs),
        ExprV::UnaryOp { op, operand } => refs_of(*operand),
        ExprV::Function { name, args } => refs_of_list(args),
    }
}

/// The references of a list of argument expressions, left to right.
pub open spec fn refs_of_list(es: Seq<ExprV>) -> Seq<Seq<char>>
    decreases es,
{
    if es.len() == 0 {
        Seq::empty()
    } else {
        refs_of(es[0]) + refs_of_list(es.drop_first())
    }
}

} // verus!
