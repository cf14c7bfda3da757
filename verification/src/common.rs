//! Operators and comparison codes shared by the lowered IR and the code
//! generator.

use vstd::prelude::*;

verus! {

use crate::ctx::VarId;

/// Integer binary operators.
#[derive(Debug, Clone, Copy, PartialEq, Eq, Structural)]
pub enum IntBinOp {
    Add,
    Sub,
    Mul,
    Div,
}

/// Float binary operators.
#[derive(Debug, Clone, Copy, PartialEq, Eq, Structural)]
pub enum FloatBinOp {
    Add,
    Sub,
    Mul,
    Div,
}

/// Comparison operators of branches.
#[derive(Debug, Clone, Copy, PartialEq, Eq, Structural)]
pub enum Cmp {
    Equal,
    NotEqual,
    LessThan,
    LessThanOrEqual,
    GreaterThan,
    GreaterThanOrEqual,
}

/// A binary operation on two variables.
#[derive(Debug, Clone, Copy, PartialEq, Eq, Structural)]
pub struct BinOp<O> {
    pub op: O,
    pub arg1: VarId,
    pub arg2: VarId,
}

} // verus!
