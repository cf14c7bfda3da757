//! A compiler core for a small, statically typed functional language:
//! Hindley-Milner type inference with unification and an occurs check,
//! and machine-code generation from a lowered basic-block IR through an
//! instruction-selection back end.

pub mod ast;
pub mod cg_types;
pub mod codegen;
pub mod common;
pub mod ctx;
pub mod lower;
pub mod seq_ext;
pub mod type_check;
