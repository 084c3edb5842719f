//! The part of the syntax tree that the lint rules read: expressions down to
//! names, field paths, literals, binary operators and calls, and statements as
//! expression statements or anything else. Every node carries its span.

use vstd::prelude::*;
use crate::source_map::SourceSpan;

verus! {

/// A literal as written. A float literal is recorded by its kind alone.
#[derive(Debug, Clone)]
pub enum Literal {
    Int(i64),
    Float,
    String(String),
    Bool(bool),
    Nil,
}

/// A binary operator.
#[derive(Debug, Clone, Copy, PartialEq, Eq, Structural)]
pub enum BinOp {
    Add,
    Sub,
    Mul,
    Div,
    Mod,
    Eq,
    Ne,
    Lt,
    Le,
    Gt,
    Ge,
    And,
    Or,
    Coalesce,
}

/// An expression's form.
#[derive(Debug)]
pub enum ExprKind {
    Literal(Literal),
    Ident(String),
    FieldAccess { object: Box<Expr>, field: String },
    BinaryOp { op: BinOp, left: Box<Expr>, right: Box<Expr> },
    Call { function: Box<Expr>, args: Vec<Expr> },
    /// Any other form (a call, an index, a block, …).
    Other,
}

/// An expression and the source it was parsed from.
#[derive(Debug)]
pub struct Expr {
    pub kind: ExprKind,
    pub span: SourceSpan,
}

/// A statement's form.
#[derive(Debug)]
pub enum StmtKind {
    Expr(Expr),
    /// Any other statement (a binding, an assignment, a loop, …).
    Other,
}

/// A statement and the source it was parsed from.
#[derive(Debug)]
pub struct Stmt {
    pub kind: StmtKind,
    pub span: SourceSpan,
}

} // verus!
