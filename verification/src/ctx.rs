//! The compilation-unit context: the variable table mapping identities to
//! names, types and representations, and the fresh-name supply.

use vstd::prelude::*;

verus! {

use crate::cg_types::RepType;
use crate::cg_types::rep_type_of;
use crate::type_check::Type;
use crate::type_check::tyv;

/// The identity of a binder, a dense index into the context's table.
pub type VarId = u32;

/// What the context records of one variable.
#[derive(Debug)]
pub struct Var {
    /// Display name.
    pub name: String,
    /// Name used for linkage.
    pub symbol_name: String,
    /// Source type, when one was inferred.
    pub ty: Option<Type>,
    /// Representation used by the back end.
    pub rep: RepType,
}

/// The per-compilation-unit context.
#[derive(Debug)]
pub struct Ctx {
    pub vars: Vec<Var>,
}

impl Ctx {
    /// An empty context.
    pub fn new() -> (c: Ctx)
        ensures
            c.vars@.len() == 0,
    {
        Ctx { vars: Vec::new() }
    }

    /// Record a variable with a known source type; its representation is
    /// derived from the type. Returns its identity.
    pub fn add_var(&mut self, name: String, symbol_name: String, ty: Type) -> (v: VarId)
        requires
            old(self).vars@.len() < 0xffff_ffff,
        ensures
            v as int == old(self).vars@.len(),
            final(self).vars@.len() == old(self).vars@.len() + 1,
            final(self).vars@.drop_last() == old(self).vars@,
            final(self).vars@.last().name == name,
            final(self).vars@.last().symbol_name == symbol_name,
            final(self).vars@.last().ty == Some(ty),
            final(self).vars@.last().rep == crate::cg_types::spec_rep_type_of(
                crate::type_check::tyv(ty),
            ),
    {
        let n = self.vars.len();
        let rep = rep_type_of(&ty);
        self.vars.push(Var { name, symbol_name, ty: Some(ty), rep });
        #[verifier::truncate] (n as VarId)
    }

    /// A fresh anonymous word-represented variable; its dense index
    /// doubles as the back end's local slot number.
    pub fn fresh_uniq(&mut self) -> (v: VarId)
        requires
            old(self).vars@.len() < 0xffff_ffff,
        ensures
            v as int == old(self).vars@.len(),
            final(self).vars@.len() == old(self).vars@.len() + 1,
            final(self).vars@.drop_last() == old(self).vars@,
            final(self).vars@.last().rep == RepType::Word,
    {
        let n = self.vars.len();
        self.vars.push(
            Var {
                name: String::new(),
                symbol_name: String::new(),
                ty: None,
                rep: RepType::Word,
            },
        );
        #[verifier::truncate] (n as VarId)
    }

    /// The record of a variable.
    pub fn get_var(&self, v: VarId) -> (r: &Var)
        requires
            (v as int) < self.vars@.len(),
        ensures
            *r == self.vars@[v as int],
    {
        &self.vars[v as usize]
    }

    /// The source type of a variable, if one was recorded.
    pub fn var_type(&self, v: VarId) -> (r: &Option<Type>)
        requires
            (v as int) < self.vars@.len(),
        ensures
            *r == self.vars@[v as int].ty,
    {
        &self.vars[v as usize].ty
    }

    /// The representation of a variable.
    pub fn var_rep_type(&self, v: VarId) -> (r: RepType)
        requires
            (v as int) < self.vars@.len(),
        ensures
            r == self.vars@[v as int].rep,
    {
        self.vars[v as usize].rep
    }

    /// How many variables the context knows.
    pub fn len(&self) -> (n: usize)
        ensures
            n as int == self.vars@.len(),
    {
        self.vars.len()
    }
}

} // verus!
