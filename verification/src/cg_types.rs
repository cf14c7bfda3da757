//! Representation types: the two-element domain that classifies how a
//! value is passed and stored by the back end.

use vstd::prelude::*;

verus! {

use crate::type_check::Ty;
use crate::type_check::Type;
use crate::type_check::tyv;

/// How a value is represented: a 64-bit integer or pointer word, or a
/// 64-bit float.
#[derive(Debug, Clone, Copy, PartialEq, Eq, Structural)]
pub enum RepType {
    Word,
    Float,
}

/// The representation of a source type: everything is a word except
/// floats.
pub open spec fn spec_rep_type_of(t: Ty) -> RepType {
    if t is Float {
        RepType::Float
    } else {
        RepType::Word
    }
}

/// Collapse a source type to its representation.
pub fn rep_type_of(t: &Type) -> (r: RepType)
    ensures
        r == spec_rep_type_of(tyv(*t)),
{
    match t {
        Type::Float => RepType::Float,
        _ => RepType::Word,
    }
}

} // verus!
