//! Functions of the lowered IR: basic blocks of statements with explicit
//! exits, as the code generator consumes them.

use vstd::prelude::*;

verus! {

use crate::cg_types::RepType;
use crate::common::BinOp;
use crate::common::Cmp;
use crate::common::FloatBinOp;
use crate::common::IntBinOp;
use crate::ctx::VarId;

/// A block label.
#[derive(Debug, Clone, Copy, PartialEq, Eq, Structural)]
pub struct Label(pub u32);

/// Atomic expressions.
#[derive(Debug, Clone, Copy, PartialEq, Eq, Structural)]
pub enum Atom {
    Unit,
    Int(i64),
    /// A float constant, carried by bit pattern.
    Float(u64),
    Var(VarId),
}

/// Right-hand sides of statements.
#[derive(Debug)]
pub enum Expr {
    Atom(Atom),
    IBinOp(BinOp<IntBinOp>),
    FBinOp(BinOp<FloatBinOp>),
    Neg(VarId),
    FNeg(VarId),
    /// Indirect application: function value, arguments, and the
    /// representation of the result.
    App(VarId, Vec<VarId>, RepType),
    /// Allocate a tuple of `len` slots.
    Tuple { len: usize },
    TuplePut(VarId, usize, VarId),
    TupleGet(VarId, usize),
    /// Allocate an array and fill every slot with `elem`.
    ArrayAlloc { len: VarId, elem: VarId },
    ArrayGet(VarId, VarId),
    ArrayPut(VarId, VarId, VarId),
}

/// An assignment of an expression to a variable.
#[derive(Debug)]
pub struct Asgn {
    pub lhs: VarId,
    pub rhs: Expr,
}

/// A statement: an assignment, or an expression evaluated for effect.
#[derive(Debug)]
pub enum Stmt {
    Asgn(Asgn),
    Expr(Expr),
}

/// A block terminator.
#[derive(Debug, Clone, Copy, PartialEq, Eq, Structural)]
pub enum Exit {
    Return(VarId),
    Branch { v1: VarId, v2: VarId, cond: Cmp, then_label: Label, else_label: Label },
    Jump(Label),
}

/// A basic block of the lowered IR: straight-line statements and one
/// exit.
#[derive(Debug)]
pub struct Block {
    pub label: Label,
    pub stmts: Vec<Stmt>,
    pub exit: Exit,
}

/// A function of the lowered IR. The first block is the entry.
#[derive(Debug)]
pub struct Fun {
    pub name: VarId,
    pub args: Vec<VarId>,
    pub blocks: Vec<Block>,
    pub return_type: RepType,
}

/// The signature of a function of the lowered IR.
#[derive(Debug)]
pub struct FunSig {
    pub name: VarId,
    pub args: Vec<VarId>,
    pub return_type: RepType,
}

} // verus!
