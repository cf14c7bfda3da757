//! The lowered intermediate representation: functions in basic-block
//! form, consumed by the code generator.

pub mod block;
pub mod fun;
pub mod instr;
