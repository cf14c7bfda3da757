//! The abstract syntax consumed by type inference. The parser that
//! produces it is an external collaborator; tests and drivers build these
//! nodes directly.

use vstd::prelude::*;

verus! {

/// A variable binder or occurrence: its dense identity and display name.
/// During inference, occurrences are rewritten to carry their binder.
#[derive(Debug)]
pub struct Var {
    pub id: u32,
    pub name: String,
}

impl Var {
    /// Deep copy of a variable.
    pub fn duplicate(&self) -> (r: Var)
        ensures
            r.id == self.id,
            r.name@ == self.name@,
    {
        Var { id: self.id, name: self.name.clone() }
    }
}

/// Expressions of the source language.
#[derive(Debug)]
pub enum Expr {
    Unit,
    Bool(bool),
    Int(i64),
    /// A floating-point literal, carried by bit pattern.
    Float(u64),
    Not(Box<Expr>),
    Neg(Box<Expr>),
    Add(Box<Expr>, Box<Expr>),
    Sub(Box<Expr>, Box<Expr>),
    FNeg(Box<Expr>),
    FAdd(Box<Expr>, Box<Expr>),
    FSub(Box<Expr>, Box<Expr>),
    FMul(Box<Expr>, Box<Expr>),
    FDiv(Box<Expr>, Box<Expr>),
    Eq(Box<Expr>, Box<Expr>),
    Le(Box<Expr>, Box<Expr>),
    If(Box<Expr>, Box<Expr>, Box<Expr>),
    Let { bndr: Var, rhs: Box<Expr>, body: Box<Expr> },
    Var(Var),
    LetRec { bndr: Var, args: Vec<Var>, rhs: Box<Expr>, body: Box<Expr> },
    App { fun: Box<Expr>, args: Vec<Expr> },
    Tuple(Vec<Expr>),
    LetTuple { bndrs: Vec<Var>, rhs: Box<Expr>, body: Box<Expr> },
    Array(Box<Expr>, Box<Expr>),
    Get(Box<Expr>, Box<Expr>),
    Put(Box<Expr>, Box<Expr>, Box<Expr>),
}

} // verus!
