//! Hindley-Milner type inference: types, the substitution environment,
//! unification with an occurs check, and normalization of inferred types.
//!
//! The substitution environment maps type variables to types and is kept
//! *solved*: every type stored in it mentions only unbound type variables.
//! Binding a variable rewrites the stored entries, so dereferencing a
//! variable is a single table lookup and no chains ever form.

use vstd::prelude::*;

verus! {

use crate::ast::Expr;

use crate::seq_ext::seq_ext;

broadcast use
    vstd::std_specs::vec::axiom_vec_index_decreases,
    vstd::string::to_string_from_display_ensures_for_str,
    crate::seq_ext::lemma_seq_ext_trans,
    crate::seq_ext::lemma_seq_ext_push;

/// Type variables are represented as unique integers, densely assigned by
/// the substitution environment that created them.
pub type TyVar = u32;

/// Source-language types.
#[derive(Debug, PartialEq, Eq)]
pub enum Type {
    Unit,
    Bool,
    Int,
    Float,
    Fun { args: Vec<Type>, ret: Box<Type> },
    Tuple(Vec<Type>),
    Array(Box<Type>),
    Var(TyVar),
}

impl Type {
    /// Is this an array type?
    pub fn is_array(&self) -> (r: bool)
        ensures
            r == (tyv(*self) is Array),
    {
        match self {
            Type::Array(_) => true,
            _ => false,
        }
    }
}

/// Mathematical mirror of `Type`, used in specifications.
pub enum Ty {
    Unit,
    Bool,
    Int,
    Float,
    Fun { args: Seq<Ty>, ret: Box<Ty> },
    Tuple(Seq<Ty>),
    Array(Box<Ty>),
    Var(int),
}

/// The mathematical value of a source type.
pub open spec fn tyv(t: Type) -> Ty
    decreases t,
{
    match t {
        Type::Unit => Ty::Unit,
        Type::Bool => Ty::Bool,
        Type::Int => Ty::Int,
        Type::Float => Ty::Float,
        Type::Fun { args, ret } => Ty::Fun {
            args: tyv_seq(args@),
            ret: Box::new(tyv(*ret)),
        },
        Type::Tuple(args) => Ty::Tuple(tyv_seq(args@)),
        Type::Array(elem) => Ty::Array(Box::new(tyv(*elem))),
        Type::Var(v) => Ty::Var(v as int),
    }
}

/// The mathematical values of a sequence of source types.
pub open spec fn tyv_seq(s: Seq<Type>) -> Seq<Ty>
    decreases s,
{
    if s.len() == 0 {
        Seq::empty()
    } else {
        seq![tyv(s[0])] + tyv_seq(s.subrange(1, s.len() as int))
    }
}

/// Size of a type term, the measure for structural recursion.
pub open spec fn ty_size(t: Ty) -> nat
    decreases t,
{
    match t {
        Ty::Fun { args, ret } => 1 + tys_size(args) + ty_size(*ret),
        Ty::Tuple(args) => 1 + tys_size(args),
        Ty::Array(e) => 1 + ty_size(*e),
        _ => 1,
    }
}

/// Total size of a sequence of type terms.
pub open spec fn tys_size(s: Seq<Ty>) -> nat
    decreases s,
{
    if s.len() == 0 {
        0
    } else {
        ty_size(s[0]) + tys_size(s.subrange(1, s.len() as int))
    }
}

/// Does type variable `v` occur syntactically in `t`?
pub open spec fn has_tyvar(t: Ty, v: int) -> bool
    decreases t,
{
    match t {
        Ty::Fun { args, ret } => has_tyvar_seq(args, v) || has_tyvar(*ret, v),
        Ty::Tuple(args) => has_tyvar_seq(args, v),
        Ty::Array(e) => has_tyvar(*e, v),
        Ty::Var(w) => w == v,
        _ => false,
    }
}

/// Does `v` occur syntactically in any element of `s`?
pub open spec fn has_tyvar_seq(s: Seq<Ty>, v: int) -> bool
    decreases s,
{
    if s.len() == 0 {
        false
    } else {
        has_tyvar(s[0], v) || has_tyvar_seq(s.subrange(1, s.len() as int), v)
    }
}

/// A substitution environment, viewed mathematically: position `v` holds
/// the type bound to variable `v`, or `None` while `v` is unbound.
pub type Subst = Seq<Option<Ty>>;

/// Is `v` bound in `m`?
pub open spec fn bound(m: Subst, v: int) -> bool {
    0 <= v < m.len() && m[v] is Some
}

/// The type bound to `v` in `m`.
pub open spec fn entry(m: Subst, v: int) -> Ty
    recommends
        bound(m, v),
{
    m[v]->Some_0
}

/// `t` mentions no variable that is bound in `m` (it is fully resolved).
pub open spec fn no_bound_vars(m: Subst, t: Ty) -> bool
    decreases t,
{
    match t {
        Ty::Fun { args, ret } => (forall|i: int|
            0 <= i < args.len() ==> no_bound_vars(m, #[trigger] args[i])) && no_bound_vars(m, *ret),
        Ty::Tuple(args) => forall|i: int| 0 <= i < args.len() ==> no_bound_vars(m, #[trigger] args[i]),
        Ty::Array(e) => no_bound_vars(m, *e),
        Ty::Var(w) => !bound(m, w),
        _ => true,
    }
}

/// All variables of `t` are below `n`.
pub open spec fn vars_below(t: Ty, n: int) -> bool
    decreases t,
{
    match t {
        Ty::Fun { args, ret } => (forall|i: int|
            0 <= i < args.len() ==> vars_below(#[trigger] args[i], n)) && vars_below(*ret, n),
        Ty::Tuple(args) => forall|i: int| 0 <= i < args.len() ==> vars_below(#[trigger] args[i], n),
        Ty::Array(e) => vars_below(*e, n),
        Ty::Var(w) => 0 <= w < n,
        _ => true,
    }
}

/// Well-formedness of the substitution environment: every stored type is
/// fully resolved and mentions only variables the environment knows.
pub open spec fn wf_subst(m: Subst) -> bool {
    forall|v: int|
        bound(m, v) ==> no_bound_vars(m, #[trigger] entry(m, v)) && vars_below(
            entry(m, v),
            m.len() as int,
        )
}

/// Apply the substitution to `t`: replace every bound variable by its
/// entry. Under `wf_subst` this is full resolution, since entries are
/// themselves resolved.
pub open spec fn resolve(m: Subst, t: Ty) -> Ty
    decreases t,
{
    match t {
        Ty::Fun { args, ret } => Ty::Fun {
            args: resolve_seq(m, args),
            ret: Box::new(resolve(m, *ret)),
        },
        Ty::Tuple(args) => Ty::Tuple(resolve_seq(m, args)),
        Ty::Array(e) => Ty::Array(Box::new(resolve(m, *e))),
        Ty::Var(w) => if bound(m, w) {
            entry(m, w)
        } else {
            t
        },
        _ => t,
    }
}

/// Apply the substitution to every element of `s`.
pub open spec fn resolve_seq(m: Subst, s: Seq<Ty>) -> Seq<Ty>
    decreases s,
{
    if s.len() == 0 {
        Seq::empty()
    } else {
        seq![resolve(m, s[0])] + resolve_seq(m, s.subrange(1, s.len() as int))
    }
}

/// Replace every occurrence of variable `v` in `t` by `r`.
pub open spec fn subst_one(t: Ty, v: int, r: Ty) -> Ty
    decreases t,
{
    match t {
        Ty::Fun { args, ret } => Ty::Fun {
            args: subst_one_seq(args, v, r),
            ret: Box::new(subst_one(*ret, v, r)),
        },
        Ty::Tuple(args) => Ty::Tuple(subst_one_seq(args, v, r)),
        Ty::Array(e) => Ty::Array(Box::new(subst_one(*e, v, r))),
        Ty::Var(w) => if w == v {
            r
        } else {
            t
        },
        _ => t,
    }
}

/// Replace `v` by `r` in every element of `s`.
pub open spec fn subst_one_seq(s: Seq<Ty>, v: int, r: Ty) -> Seq<Ty>
    decreases s,
{
    if s.len() == 0 {
        Seq::empty()
    } else {
        seq![subst_one(s[0], v, r)] + subst_one_seq(s.subrange(1, s.len() as int), v, r)
    }
}

/// Does `v` occur in `t` once the substitution is applied? This is what
/// the occurs check decides.
pub open spec fn occurs(m: Subst, v: int, t: Ty) -> bool {
    has_tyvar(resolve(m, t), v)
}

/// One-step dereference: the root of `t` after following a binding.
pub open spec fn deref1(m: Subst, t: Ty) -> Ty {
    match t {
        Ty::Var(w) => if bound(m, w) {
            entry(m, w)
        } else {
            t
        },
        _ => t,
    }
}

/// `t` contains no type variables at all.
pub open spec fn ground(t: Ty) -> bool
    decreases t,
{
    match t {
        Ty::Fun { args, ret } => (forall|i: int| 0 <= i < args.len() ==> ground(#[trigger] args[i]))
            && ground(*ret),
        Ty::Tuple(args) => forall|i: int| 0 <= i < args.len() ==> ground(#[trigger] args[i]),
        Ty::Array(e) => ground(*e),
        Ty::Var(_) => false,
        _ => true,
    }
}

/// The environment produced by binding `v` to `r`: every stored entry has
/// `v` substituted away, and position `v` now holds `r`.
pub open spec fn bind_step(m: Subst, v: int, r: Ty) -> Subst {
    Seq::new(
        m.len(),
        |i: int|
            if i == v {
                Some(r)
            } else {
                match m[i] {
                    Some(s) => Some(subst_one(s, v, r)),
                    None => None,
                }
            },
    )
}

/// `m2` is a later state of `m1`: everything `m1` had bound is still
/// bound, to a type with the same resolution.
pub open spec fn subst_extends(m2: Subst, m1: Subst) -> bool {
    &&& m1.len() <= m2.len()
    &&& forall|v: int|
        bound(m1, v) ==> bound(m2, v) && entry(m2, v) == resolve(m2, #[trigger] entry(m1, v))
}

/// The number of unbound positions in `m`, the measure that every
/// variable binding decreases.
pub open spec fn unbound_count(m: Subst) -> nat
    decreases m,
{
    if m.len() == 0 {
        0
    } else {
        unbound_count(m.subrange(0, m.len() - 1)) + if m[m.len() - 1] is None {
            1nat
        } else {
            0nat
        }
    }
}

/// `tyv_seq` maps `tyv` over the sequence, element by element.
pub proof fn lemma_tyv_seq(s: Seq<Type>)
    ensures
        tyv_seq(s).len() == s.len(),
        forall|i: int| 0 <= i < s.len() ==> #[trigger] tyv_seq(s)[i] == tyv(s[i]),
    decreases s,
{
    if s.len() > 0 {
        lemma_tyv_seq(s.subrange(1, s.len() as int));
    }
}

/// `resolve_seq` maps `resolve` over the sequence, element by element.
pub proof fn lemma_resolve_seq(m: Subst, s: Seq<Ty>)
    ensures
        resolve_seq(m, s).len() == s.len(),
        forall|i: int| 0 <= i < s.len() ==> #[trigger] resolve_seq(m, s)[i] == resolve(m, s[i]),
    decreases s,
{
    if s.len() > 0 {
        lemma_resolve_seq(m, s.subrange(1, s.len() as int));
    }
}

/// `subst_one_seq` maps `subst_one` over the sequence, element by element.
pub proof fn lemma_subst_one_seq(s: Seq<Ty>, v: int, r: Ty)
    ensures
        subst_one_seq(s, v, r).len() == s.len(),
        forall|i: int|
            0 <= i < s.len() ==> #[trigger] subst_one_seq(s, v, r)[i] == subst_one(s[i], v, r),
    decreases s,
{
    if s.len() > 0 {
        lemma_subst_one_seq(s.subrange(1, s.len() as int), v, r);
    }
}

/// An element never outweighs the whole sequence.
pub proof fn lemma_tys_size_index(s: Seq<Ty>, i: int)
    requires
        0 <= i < s.len(),
    ensures
        ty_size(s[i]) <= tys_size(s),
    decreases s,
{
    if i > 0 {
        lemma_tys_size_index(s.subrange(1, s.len() as int), i - 1);
    }
}

/// `has_tyvar_seq` is the pointwise disjunction over the sequence.
pub proof fn lemma_has_tyvar_seq(s: Seq<Ty>, v: int)
    ensures
        has_tyvar_seq(s, v) == exists|i: int| 0 <= i < s.len() && has_tyvar(#[trigger] s[i], v),
    decreases s,
{
    if s.len() > 0 {
        let sub = s.subrange(1, s.len() as int);
        lemma_has_tyvar_seq(sub, v);
        if has_tyvar(s[0], v) {
            assert(has_tyvar(s[0], v) && 0 <= 0 < s.len());
        } else if has_tyvar_seq(sub, v) {
            let k = choose|k: int| 0 <= k < sub.len() && has_tyvar(#[trigger] sub[k], v);
            assert(s[k + 1] == sub[k]);
            assert(0 <= k + 1 < s.len() && has_tyvar(s[k + 1], v));
        } else {
            assert forall|i: int| 0 <= i < s.len() implies !has_tyvar(#[trigger] s[i], v) by {
                if i > 0 {
                    assert(sub[i - 1] == s[i]);
                }
            }
        }
    }
}

/// The size of one element's value, bounded by the whole sequence.
pub proof fn lemma_ty_size_elem(args: Seq<Type>, j: int)
    requires
        0 <= j < args.len(),
    ensures
        ty_size(tyv(args[j])) <= tys_size(tyv_seq(args)),
{
    lemma_tyv_seq(args);
    lemma_tys_size_index(tyv_seq(args), j);
}

/// Resolution does not touch a fully resolved type.
pub proof fn lemma_resolve_no_bound(m: Subst, t: Ty)
    requires
        no_bound_vars(m, t),
    ensures
        resolve(m, t) == t,
    decreases t,
{
    match t {
        Ty::Fun { args, ret } => {
            lemma_resolve_no_bound_seq(m, args);
            lemma_resolve_no_bound(m, *ret);
        },
        Ty::Tuple(args) => {
            lemma_resolve_no_bound_seq(m, args);
        },
        Ty::Array(e) => {
            lemma_resolve_no_bound(m, *e);
        },
        _ => {},
    }
}

/// Resolution does not touch a sequence of fully resolved types.
pub proof fn lemma_resolve_no_bound_seq(m: Subst, s: Seq<Ty>)
    requires
        forall|i: int| 0 <= i < s.len() ==> no_bound_vars(m, #[trigger] s[i]),
    ensures
        resolve_seq(m, s) == s,
    decreases s,
{
    lemma_resolve_seq(m, s);
    assert forall|i: int| 0 <= i < s.len() implies #[trigger] resolve_seq(m, s)[i] == s[i] by {
        lemma_resolve_no_bound(m, s[i]);
    }
    assert(resolve_seq(m, s) =~= s);
}

/// In a well-formed environment, resolving leaves no bound variables.
pub proof fn lemma_resolve_resolved(m: Subst, t: Ty)
    requires
        wf_subst(m),
    ensures
        no_bound_vars(m, resolve(m, t)),
    decreases t,
{
    match t {
        Ty::Fun { args, ret } => {
            lemma_resolve_resolved_seq(m, args);
            lemma_resolve_resolved(m, *ret);
            assert(no_bound_vars(
                m,
                Ty::Fun { args: resolve_seq(m, args), ret: Box::new(resolve(m, *ret)) },
            ));
        },
        Ty::Tuple(args) => {
            lemma_resolve_resolved_seq(m, args);
            assert(no_bound_vars(m, Ty::Tuple(resolve_seq(m, args))));
        },
        Ty::Array(e) => {
            lemma_resolve_resolved(m, *e);
        },
        _ => {},
    }
}

/// Sequence version of `lemma_resolve_resolved`.
pub proof fn lemma_resolve_resolved_seq(m: Subst, s: Seq<Ty>)
    requires
        wf_subst(m),
    ensures
        forall|i: int|
            0 <= i < resolve_seq(m, s).len() ==> no_bound_vars(m, #[trigger] resolve_seq(m, s)[i]),
    decreases s,
{
    lemma_resolve_seq(m, s);
    assert forall|i: int|
        0 <= i < resolve_seq(m, s).len() implies no_bound_vars(
        m,
        #[trigger] resolve_seq(m, s)[i],
    ) by {
        lemma_resolve_resolved(m, s[i]);
    }
}

/// Resolving keeps all variables below the environment's size.
pub proof fn lemma_resolve_vars_below(m: Subst, t: Ty)
    requires
        wf_subst(m),
        vars_below(t, m.len() as int),
    ensures
        vars_below(resolve(m, t), m.len() as int),
    decreases t,
{
    match t {
        Ty::Fun { args, ret } => {
            lemma_resolve_vars_below_seq(m, args);
            lemma_resolve_vars_below(m, *ret);
            assert(vars_below(
                Ty::Fun { args: resolve_seq(m, args), ret: Box::new(resolve(m, *ret)) },
                m.len() as int,
            ));
        },
        Ty::Tuple(args) => {
            lemma_resolve_vars_below_seq(m, args);
            assert(vars_below(Ty::Tuple(resolve_seq(m, args)), m.len() as int));
        },
        Ty::Array(e) => {
            lemma_resolve_vars_below(m, *e);
        },
        _ => {},
    }
}

/// Sequence version of `lemma_resolve_vars_below`.
pub proof fn lemma_resolve_vars_below_seq(m: Subst, s: Seq<Ty>)
    requires
        wf_subst(m),
        forall|i: int| 0 <= i < s.len() ==> vars_below(#[trigger] s[i], m.len() as int),
    ensures
        forall|i: int|
            0 <= i < resolve_seq(m, s).len() ==> vars_below(
                #[trigger] resolve_seq(m, s)[i],
                m.len() as int,
            ),
    decreases s,
{
    lemma_resolve_seq(m, s);
    assert forall|i: int|
        0 <= i < resolve_seq(m, s).len() implies vars_below(
        #[trigger] resolve_seq(m, s)[i],
        m.len() as int,
    ) by {
        lemma_resolve_vars_below(m, s[i]);
    }
}

/// A type that avoids both the bound variables of `m` and `v` also avoids
/// the bound variables of `bind_step(m, v, r)`.
pub proof fn lemma_no_bound_after_bind(m: Subst, v: int, r: Ty, t: Ty)
    requires
        no_bound_vars(m, t),
        !has_tyvar(t, v),
    ensures
        no_bound_vars(bind_step(m, v, r), t),
    decreases t,
{
    match t {
        Ty::Fun { args, ret } => {
            assert forall|i: int|
                0 <= i < args.len() implies no_bound_vars(bind_step(m, v, r), #[trigger] args[i]) by {
                lemma_has_tyvar_seq(args, v);
                lemma_no_bound_after_bind(m, v, r, args[i]);
            }
            lemma_no_bound_after_bind(m, v, r, *ret);
        },
        Ty::Tuple(args) => {
            assert forall|i: int|
                0 <= i < args.len() implies no_bound_vars(bind_step(m, v, r), #[trigger] args[i]) by {
                lemma_has_tyvar_seq(args, v);
                lemma_no_bound_after_bind(m, v, r, args[i]);
            }
        },
        Ty::Array(e) => {
            lemma_no_bound_after_bind(m, v, r, *e);
        },
        _ => {},
    }
}

/// Substituting `v` away in a resolved type yields a type resolved for the
/// new environment.
pub proof fn lemma_subst_no_bound(m: Subst, v: int, r: Ty, t: Ty)
    requires
        no_bound_vars(m, t),
        no_bound_vars(m, r),
        !has_tyvar(r, v),
    ensures
        no_bound_vars(bind_step(m, v, r), subst_one(t, v, r)),
    decreases t,
{
    match t {
        Ty::Fun { args, ret } => {
            lemma_subst_one_seq(args, v, r);
            assert forall|i: int|
                0 <= i < args.len() implies no_bound_vars(
                bind_step(m, v, r),
                #[trigger] subst_one_seq(args, v, r)[i],
            ) by {
                lemma_subst_no_bound(m, v, r, args[i]);
            }
            lemma_subst_no_bound(m, v, r, *ret);
        },
        Ty::Tuple(args) => {
            lemma_subst_one_seq(args, v, r);
            assert forall|i: int|
                0 <= i < args.len() implies no_bound_vars(
                bind_step(m, v, r),
                #[trigger] subst_one_seq(args, v, r)[i],
            ) by {
                lemma_subst_no_bound(m, v, r, args[i]);
            }
        },
        Ty::Array(e) => {
            lemma_subst_no_bound(m, v, r, *e);
        },
        Ty::Var(w) => {
            if w == v {
                lemma_no_bound_after_bind(m, v, r, r);
            }
        },
        _ => {},
    }
}

/// Substitution keeps all variables below `n`.
pub proof fn lemma_subst_vars_below(t: Ty, v: int, r: Ty, n: int)
    requires
        vars_below(t, n),
        vars_below(r, n),
    ensures
        vars_below(subst_one(t, v, r), n),
    decreases t,
{
    match t {
        Ty::Fun { args, ret } => {
            lemma_subst_one_seq(args, v, r);
            assert forall|i: int|
                0 <= i < args.len() implies vars_below(
                #[trigger] subst_one_seq(args, v, r)[i],
                n,
            ) by {
                lemma_subst_vars_below(args[i], v, r, n);
            }
            lemma_subst_vars_below(*ret, v, r, n);
        },
        Ty::Tuple(args) => {
            lemma_subst_one_seq(args, v, r);
            assert forall|i: int|
                0 <= i < args.len() implies vars_below(
                #[trigger] subst_one_seq(args, v, r)[i],
                n,
            ) by {
                lemma_subst_vars_below(args[i], v, r, n);
            }
        },
        Ty::Array(e) => {
            lemma_subst_vars_below(*e, v, r, n);
        },
        _ => {},
    }
}

/// Binding a fresh, resolved type keeps the environment well-formed.
pub proof fn lemma_bind_wf(m: Subst, v: int, r: Ty)
    requires
        wf_subst(m),
        0 <= v < m.len(),
        !bound(m, v),
        no_bound_vars(m, r),
        !has_tyvar(r, v),
        vars_below(r, m.len() as int),
    ensures
        wf_subst(bind_step(m, v, r)),
{
    let m2 = bind_step(m, v, r);
    assert forall|w: int|
        bound(m2, w) implies no_bound_vars(m2, #[trigger] entry(m2, w)) && vars_below(
        entry(m2, w),
        m2.len() as int,
    ) by {
        if w == v {
            lemma_no_bound_after_bind(m, v, r, r);
        } else {
            assert(bound(m, w));
            lemma_subst_no_bound(m, v, r, entry(m, w));
            lemma_subst_vars_below(entry(m, w), v, r, m.len() as int);
        }
    }
}

/// Resolving against the extended environment is substituting `v` in the
/// old resolution.
pub proof fn lemma_bind_resolve(m: Subst, v: int, r: Ty, t: Ty)
    requires
        wf_subst(m),
        0 <= v < m.len(),
        !bound(m, v),
        no_bound_vars(m, r),
        !has_tyvar(r, v),
    ensures
        resolve(bind_step(m, v, r), t) == subst_one(resolve(m, t), v, r),
    decreases t,
{
    let m2 = bind_step(m, v, r);
    match t {
        Ty::Fun { args, ret } => {
            lemma_resolve_seq(m, args);
            lemma_resolve_seq(m2, args);
            lemma_subst_one_seq(resolve_seq(m, args), v, r);
            assert forall|i: int|
                0 <= i < args.len() implies #[trigger] resolve_seq(m2, args)[i] == subst_one_seq(
                resolve_seq(m, args),
                v,
                r,
            )[i] by {
                lemma_bind_resolve(m, v, r, args[i]);
            }
            assert(resolve_seq(m2, args) =~= subst_one_seq(resolve_seq(m, args), v, r));
            lemma_bind_resolve(m, v, r, *ret);
        },
        Ty::Tuple(args) => {
            lemma_resolve_seq(m, args);
            lemma_resolve_seq(m2, args);
            lemma_subst_one_seq(resolve_seq(m, args), v, r);
            assert forall|i: int|
                0 <= i < args.len() implies #[trigger] resolve_seq(m2, args)[i] == subst_one_seq(
                resolve_seq(m, args),
                v,
                r,
            )[i] by {
                lemma_bind_resolve(m, v, r, args[i]);
            }
            assert(resolve_seq(m2, args) =~= subst_one_seq(resolve_seq(m, args), v, r));
        },
        Ty::Array(e) => {
            lemma_bind_resolve(m, v, r, *e);
        },
        Ty::Var(w) => {
            if bound(m, w) {
                assert(resolve(m2, t) == subst_one(entry(m, w), v, r));
            } else if w == v {
                assert(resolve(m2, t) == r);
            }
        },
        _ => {},
    }
}

/// Binding a variable extends the environment.
pub proof fn lemma_bind_extends(m: Subst, v: int, r: Ty)
    requires
        wf_subst(m),
        0 <= v < m.len(),
        !bound(m, v),
        no_bound_vars(m, r),
        !has_tyvar(r, v),
    ensures
        subst_extends(bind_step(m, v, r), m),
{
    let m2 = bind_step(m, v, r);
    assert forall|w: int|
        bound(m, w) implies bound(m2, w) && entry(m2, w) == resolve(m2, #[trigger] entry(m, w)) by {
        lemma_bind_resolve(m, v, r, entry(m, w));
        lemma_resolve_no_bound(m, entry(m, w));
    }
}

/// Chained resolution collapses when one environment extends another.
pub proof fn lemma_extends_resolve(m2: Subst, m1: Subst, t: Ty)
    requires
        subst_extends(m2, m1),
    ensures
        resolve(m2, resolve(m1, t)) == resolve(m2, t),
    decreases t,
{
    match t {
        Ty::Fun { args, ret } => {
            lemma_resolve_seq(m1, args);
            lemma_resolve_seq(m2, args);
            lemma_resolve_seq(m2, resolve_seq(m1, args));
            assert forall|i: int|
                0 <= i < args.len() implies #[trigger] resolve_seq(m2, resolve_seq(m1, args))[i]
                == resolve_seq(m2, args)[i] by {
                lemma_extends_resolve(m2, m1, args[i]);
            }
            assert(resolve_seq(m2, resolve_seq(m1, args)) =~= resolve_seq(m2, args));
            lemma_extends_resolve(m2, m1, *ret);
        },
        Ty::Tuple(args) => {
            lemma_resolve_seq(m1, args);
            lemma_resolve_seq(m2, args);
            lemma_resolve_seq(m2, resolve_seq(m1, args));
            assert forall|i: int|
                0 <= i < args.len() implies #[trigger] resolve_seq(m2, resolve_seq(m1, args))[i]
                == resolve_seq(m2, args)[i] by {
                lemma_extends_resolve(m2, m1, args[i]);
            }
            assert(resolve_seq(m2, resolve_seq(m1, args)) =~= resolve_seq(m2, args));
        },
        Ty::Array(e) => {
            lemma_extends_resolve(m2, m1, *e);
        },
        _ => {},
    }
}

/// Extension is reflexive on well-formed environments.
pub proof fn lemma_extends_refl(m: Subst)
    requires
        wf_subst(m),
    ensures
        subst_extends(m, m),
{
    assert forall|v: int|
        bound(m, v) implies bound(m, v) && entry(m, v) == resolve(m, #[trigger] entry(m, v)) by {
        lemma_resolve_no_bound(m, entry(m, v));
    }
}

/// Extension is transitive.
pub proof fn lemma_extends_trans(m3: Subst, m2: Subst, m1: Subst)
    requires
        subst_extends(m3, m2),
        subst_extends(m2, m1),
    ensures
        subst_extends(m3, m1),
{
    assert forall|v: int|
        bound(m1, v) implies bound(m3, v) && entry(m3, v) == resolve(m3, #[trigger] entry(m1, v)) by {
        lemma_extends_resolve(m3, m2, entry(m1, v));
    }
}

/// Two environments with the same pattern of bindings have the same count
/// of unbound positions.
proof fn lemma_unbound_count_congruent(m1: Subst, m2: Subst)
    requires
        m1.len() == m2.len(),
        forall|i: int| 0 <= i < m1.len() ==> (m1[i] is None <==> #[trigger] m2[i] is None),
    ensures
        unbound_count(m1) == unbound_count(m2),
    decreases m1,
{
    if m1.len() > 0 {
        lemma_unbound_count_congruent(
            m1.subrange(0, m1.len() - 1),
            m2.subrange(0, m2.len() - 1),
        );
    }
}

/// Binding one unbound variable decreases the unbound count by one.
pub proof fn lemma_bind_unbound_count(m: Subst, v: int, r: Ty)
    requires
        0 <= v < m.len(),
        !bound(m, v),
    ensures
        unbound_count(bind_step(m, v, r)) + 1 == unbound_count(m),
{
    lemma_unbound_count_drop(m, bind_step(m, v, r), v);
}

/// Helper: counting when exactly one `None` position becomes `Some`.
proof fn lemma_unbound_count_drop(m1: Subst, m2: Subst, v: int)
    requires
        m1.len() == m2.len(),
        0 <= v < m1.len(),
        m1[v] is None,
        m2[v] is Some,
        forall|i: int|
            0 <= i < m1.len() && i != v ==> (m1[i] is None <==> #[trigger] m2[i] is None),
    ensures
        unbound_count(m2) + 1 == unbound_count(m1),
    decreases m1,
{
    if v == m1.len() - 1 {
        lemma_unbound_count_congruent(m1.subrange(0, m1.len() - 1), m2.subrange(0, m2.len() - 1));
    } else {
        lemma_unbound_count_drop(m1.subrange(0, m1.len() - 1), m2.subrange(0, m2.len() - 1), v);
    }
}

/// Substituting a variable that does not occur is a no-op.
pub proof fn lemma_subst_absent(t: Ty, v: int, r: Ty)
    requires
        !has_tyvar(t, v),
    ensures
        subst_one(t, v, r) == t,
    decreases t,
{
    match t {
        Ty::Fun { args, ret } => {
            lemma_subst_one_seq(args, v, r);
            assert forall|i: int|
                0 <= i < args.len() implies #[trigger] subst_one_seq(args, v, r)[i] == args[i] by {
                lemma_has_tyvar_seq(args, v);
                lemma_subst_absent(args[i], v, r);
            }
            assert(subst_one_seq(args, v, r) =~= args);
            lemma_subst_absent(*ret, v, r);
        },
        Ty::Tuple(args) => {
            lemma_subst_one_seq(args, v, r);
            assert forall|i: int|
                0 <= i < args.len() implies #[trigger] subst_one_seq(args, v, r)[i] == args[i] by {
                lemma_has_tyvar_seq(args, v);
                lemma_subst_absent(args[i], v, r);
            }
            assert(subst_one_seq(args, v, r) =~= args);
        },
        Ty::Array(e) => {
            lemma_subst_absent(*e, v, r);
        },
        _ => {},
    }
}

/// Two environments that bind the same variables agree on resolvedness.
pub proof fn lemma_no_bound_same(m1: Subst, m2: Subst, t: Ty)
    requires
        forall|w: int| bound(m1, w) <==> bound(m2, w),
        no_bound_vars(m1, t),
    ensures
        no_bound_vars(m2, t),
    decreases t,
{
    match t {
        Ty::Fun { args, ret } => {
            assert forall|i: int|
                0 <= i < args.len() implies no_bound_vars(m2, #[trigger] args[i]) by {
                lemma_no_bound_same(m1, m2, args[i]);
            }
            lemma_no_bound_same(m1, m2, *ret);
        },
        Ty::Tuple(args) => {
            assert forall|i: int|
                0 <= i < args.len() implies no_bound_vars(m2, #[trigger] args[i]) by {
                lemma_no_bound_same(m1, m2, args[i]);
            }
        },
        Ty::Array(e) => {
            lemma_no_bound_same(m1, m2, *e);
        },
        _ => {},
    }
}

/// A bound on the variables of `t` weakens upward.
pub proof fn lemma_vars_below_mono(t: Ty, n1: int, n2: int)
    requires
        vars_below(t, n1),
        n1 <= n2,
    ensures
        vars_below(t, n2),
    decreases t,
{
    match t {
        Ty::Fun { args, ret } => {
            assert forall|i: int| 0 <= i < args.len() implies vars_below(#[trigger] args[i], n2) by {
                lemma_vars_below_mono(args[i], n1, n2);
            }
            lemma_vars_below_mono(*ret, n1, n2);
        },
        Ty::Tuple(args) => {
            assert forall|i: int| 0 <= i < args.len() implies vars_below(#[trigger] args[i], n2) by {
                lemma_vars_below_mono(args[i], n1, n2);
            }
        },
        Ty::Array(e) => {
            lemma_vars_below_mono(*e, n1, n2);
        },
        _ => {},
    }
}

/// Appending an unbound position keeps the environment well-formed and
/// extends it.
pub proof fn lemma_wf_push_none(m: Subst)
    requires
        wf_subst(m),
    ensures
        wf_subst(m.push(None)),
        subst_extends(m.push(None), m),
        unbound_count(m.push(None)) == unbound_count(m) + 1,
{
    let m2 = m.push(None);
    assert(forall|w: int| bound(m, w) <==> bound(m2, w));
    assert forall|v: int|
        bound(m2, v) implies no_bound_vars(m2, #[trigger] entry(m2, v)) && vars_below(
        entry(m2, v),
        m2.len() as int,
    ) by {
        assert(bound(m, v));
        lemma_no_bound_same(m, m2, entry(m, v));
        lemma_vars_below_mono(entry(m, v), m.len() as int, m2.len() as int);
    }
    assert forall|v: int|
        bound(m, v) implies bound(m2, v) && entry(m2, v) == resolve(m2, #[trigger] entry(m, v)) by {
        lemma_no_bound_same(m, m2, entry(m, v));
        lemma_resolve_no_bound(m2, entry(m, v));
    }
    assert(m2.subrange(0, m2.len() - 1) =~= m);
}

/// Resolution ignores the one-step dereference.
pub proof fn lemma_deref1_resolve(m: Subst, t: Ty)
    requires
        wf_subst(m),
    ensures
        resolve(m, deref1(m, t)) == resolve(m, t),
{
    match t {
        Ty::Var(w) => {
            if bound(m, w) {
                lemma_resolve_no_bound(m, entry(m, w));
            }
        },
        _ => {},
    }
}

/// The mathematical value of a substitution environment.
pub open spec fn sv(m: Seq<Option<Type>>) -> Subst {
    Seq::new(
        m.len(),
        |i: int|
            match m[i] {
                Some(t) => Some(tyv(t)),
                None => None,
            },
    )
}

/// The substitution environment: position `v` holds what type variable
/// `v` is bound to. Fresh variables are the next unused position.
pub type SubstEnv = Vec<Option<Type>>;

/// Allocate a fresh, unbound type variable.
pub fn fresh_tyvar(subst_env: &mut SubstEnv) -> (v: TyVar)
    requires
        old(subst_env)@.len() < 0xffff_ffff,
        wf_subst(sv(old(subst_env)@)),
    ensures
        v as int == old(subst_env)@.len(),
        sv(final(subst_env)@) =~= sv(old(subst_env)@).push(None),
        wf_subst(sv(final(subst_env)@)),
        subst_extends(sv(final(subst_env)@), sv(old(subst_env)@)),
        unbound_count(sv(final(subst_env)@)) == unbound_count(sv(old(subst_env)@)) + 1,
        !bound(sv(final(subst_env)@), v as int),
    decreases 0nat,
{
    let v = subst_env.len();
    subst_env.push(None);
    proof {
        assert(sv(subst_env@) =~= sv(old(subst_env)@).push(None));
        lemma_wf_push_none(sv(old(subst_env)@));
    }
    #[verifier::truncate] (v as TyVar)
}

/// Deep copy of a type.
#[verifier::loop_isolation(false)]
pub fn clone_type(t: &Type) -> (r: Type)
    ensures
        tyv(r) == tyv(*t),
    decreases ty_size(tyv(*t)),
{
    match t {
        Type::Unit => Type::Unit,
        Type::Bool => Type::Bool,
        Type::Int => Type::Int,
        Type::Float => Type::Float,
        Type::Var(v) => Type::Var(*v),
        Type::Array(e) => Type::Array(Box::new(clone_type(&**e))),
        Type::Tuple(args) => {
            let mut out: Vec<Type> = Vec::new();
            let mut j: usize = 0;
            while j < args.len()
                invariant
                    j <= args.len(),
                    out@.len() == j as nat,
                    forall|k: int| 0 <= k < j ==> tyv(#[trigger] out@[k]) == tyv(args@[k]),
                decreases args.len() - j,
            {
                proof {
                    lemma_ty_size_elem(args@, j as int);
                }
                let c = clone_type(&args[j]);
                out.push(c);
                j += 1;
            }
            proof {
                lemma_tyv_seq(out@);
                lemma_tyv_seq(args@);
                assert(tyv_seq(out@) =~= tyv_seq(args@));
            }
            Type::Tuple(out)
        },
        Type::Fun { args, ret } => {
            let mut out: Vec<Type> = Vec::new();
            let mut j: usize = 0;
            while j < args.len()
                invariant
                    j <= args.len(),
                    out@.len() == j as nat,
                    forall|k: int| 0 <= k < j ==> tyv(#[trigger] out@[k]) == tyv(args@[k]),
                decreases args.len() - j,
            {
                proof {
                    lemma_ty_size_elem(args@, j as int);
                }
                let c = clone_type(&args[j]);
                out.push(c);
                j += 1;
            }
            proof {
                lemma_tyv_seq(out@);
                lemma_tyv_seq(args@);
                assert(tyv_seq(out@) =~= tyv_seq(args@));
            }
            Type::Fun { args: out, ret: Box::new(clone_type(&**ret)) }
        },
    }
}

/// Follow at most one binding: the representative of `ty` in the
/// substitution environment.
pub fn deref_ty(subst: &SubstEnv, ty: &Type) -> (r: Type)
    ensures
        tyv(r) == deref1(sv(subst@), tyv(*ty)),
{
    match ty {
        Type::Var(v) => {
            if (*v as usize) < subst.len() {
                match &subst[*v as usize] {
                    Some(e) => clone_type(e),
                    None => Type::Var(*v),
                }
            } else {
                Type::Var(*v)
            }
        },
        _ => clone_type(ty),
    }
}

/// Does `v` occur syntactically in `t`?
#[verifier::loop_isolation(false)]
pub fn contains_tyvar(t: &Type, v: TyVar) -> (r: bool)
    ensures
        r == has_tyvar(tyv(*t), v as int),
    decreases ty_size(tyv(*t)),
{
    match t {
        Type::Unit | Type::Bool | Type::Int | Type::Float => false,
        Type::Var(w) => *w == v,
        Type::Array(e) => contains_tyvar(&**e, v),
        Type::Tuple(args) => {
            let mut j: usize = 0;
            let mut found: bool = false;
            while j < args.len()
                invariant
                    j <= args.len(),
                    found == exists|k: int| 0 <= k < j && has_tyvar(tyv(#[trigger] args@[k]), v as int),
                decreases args.len() - j,
            {
                proof {
                    lemma_ty_size_elem(args@, j as int);
                }
                if contains_tyvar(&args[j], v) {
                    found = true;
                }
                j += 1;
            }
            proof {
                lemma_tyv_seq(args@);
                lemma_has_tyvar_seq(tyv_seq(args@), v as int);
                if found {
                    let k = choose|k: int|
                        0 <= k < args@.len() && has_tyvar(tyv(#[trigger] args@[k]), v as int);
                    assert(0 <= k < tyv_seq(args@).len());
                    assert(has_tyvar(tyv_seq(args@)[k], v as int));
                } else {
                    assert forall|i: int|
                        0 <= i < tyv_seq(args@).len() implies !has_tyvar(
                        #[trigger] tyv_seq(args@)[i],
                        v as int,
                    ) by {
                        assert(tyv_seq(args@)[i] == tyv(args@[i]));
                    }
                }
                assert(found == has_tyvar_seq(tyv_seq(args@), v as int));
            }
            found
        },
        Type::Fun { args, ret } => {
            let mut j: usize = 0;
            let mut found: bool = false;
            while j < args.len()
                invariant
                    j <= args.len(),
                    found == exists|k: int| 0 <= k < j && has_tyvar(tyv(#[trigger] args@[k]), v as int),
                decreases args.len() - j,
            {
                proof {
                    lemma_ty_size_elem(args@, j as int);
                }
                if contains_tyvar(&args[j], v) {
                    found = true;
                }
                j += 1;
            }
            let in_ret = contains_tyvar(&**ret, v);
            proof {
                lemma_tyv_seq(args@);
                lemma_has_tyvar_seq(tyv_seq(args@), v as int);
                if found {
                    let k = choose|k: int|
                        0 <= k < args@.len() && has_tyvar(tyv(#[trigger] args@[k]), v as int);
                    assert(0 <= k < tyv_seq(args@).len());
                    assert(has_tyvar(tyv_seq(args@)[k], v as int));
                } else {
                    assert forall|i: int|
                        0 <= i < tyv_seq(args@).len() implies !has_tyvar(
                        #[trigger] tyv_seq(args@)[i],
                        v as int,
                    ) by {
                        assert(tyv_seq(args@)[i] == tyv(args@[i]));
                    }
                }
                assert(found == has_tyvar_seq(tyv_seq(args@), v as int));
            }
            found || in_ret
        },
    }
}

/// The occurs check: does `var` occur in `ty` once the substitution is
/// applied? Binding `var` to such a `ty` would build an infinite type.
#[verifier::loop_isolation(false)]
pub fn occurs_check(subst: &SubstEnv, var: TyVar, ty: &Type) -> (r: bool)
    ensures
        r == occurs(sv(subst@), var as int, tyv(*ty)),
    decreases ty_size(tyv(*ty)),
{
    match ty {
        Type::Unit | Type::Bool | Type::Int | Type::Float => {
            proof {
                assert(resolve(sv(subst@), tyv(*ty)) == tyv(*ty));
                assert(!has_tyvar(tyv(*ty), var as int));
            }
            false
        },
        Type::Var(w) => {
            let r: bool = if (*w as usize) < subst.len() {
                match &subst[*w as usize] {
                    Some(e) => contains_tyvar(e, var),
                    None => *w == var,
                }
            } else {
                *w == var
            };
            proof {
                assert(r == occurs(sv(subst@), var as int, tyv(*ty)));
            }
            r
        },
        Type::Array(e) => {
            let r: bool = occurs_check(subst, var, &**e);
            proof {
                assert(r == occurs(sv(subst@), var as int, tyv(*ty)));
            }
            r
        },
        Type::Tuple(args) => {
            let ghost m = sv(subst@);
            let mut j: usize = 0;
            let mut found: bool = false;
            while j < args.len()
                invariant
                    j <= args.len(),
                    found == exists|k: int|
                        0 <= k < j && occurs(m, var as int, tyv(#[trigger] args@[k])),
                    m == sv(subst@),
                decreases args.len() - j,
            {
                proof {
                    lemma_ty_size_elem(args@, j as int);
                }
                if occurs_check(subst, var, &args[j]) {
                    found = true;
                }
                j += 1;
            }
            proof {
                lemma_tyv_seq(args@);
                lemma_resolve_seq(m, tyv_seq(args@));
                let rs = resolve_seq(m, tyv_seq(args@));
                if found {
                    let k = choose|k: int|
                        0 <= k < args@.len() && occurs(m, var as int, tyv(#[trigger] args@[k]));
                    assert(rs[k] == resolve(m, tyv_seq(args@)[k]));
                    assert(has_tyvar(rs[k], var as int));
                    assert(0 <= k < rs.len());
                } else {
                    assert forall|i: int|
                        0 <= i < rs.len() implies !has_tyvar(#[trigger] rs[i], var as int) by {
                        assert(tyv_seq(args@)[i] == tyv(args@[i]));
                        assert(rs[i] == resolve(m, tyv_seq(args@)[i]));
                        assert(rs[i] == resolve(m, tyv(args@[i])));
                    }
                }
                lemma_has_tyvar_seq(rs, var as int);
                assert(found == has_tyvar_seq(rs, var as int));
                assert(found == has_tyvar(Ty::Tuple(rs), var as int));
                assert(tyv(*ty) == Ty::Tuple(tyv_seq(args@)));
                assert(resolve(m, tyv(*ty)) == Ty::Tuple(rs));
            }
            found
        },
        Type::Fun { args, ret } => {
            let ghost m = sv(subst@);
            let mut j: usize = 0;
            let mut found: bool = false;
            while j < args.len()
                invariant
                    j <= args.len(),
                    found == exists|k: int|
                        0 <= k < j && occurs(m, var as int, tyv(#[trigger] args@[k])),
                    m == sv(subst@),
                decreases args.len() - j,
            {
                proof {
                    lemma_ty_size_elem(args@, j as int);
                }
                if occurs_check(subst, var, &args[j]) {
                    found = true;
                }
                j += 1;
            }
            let in_ret = occurs_check(subst, var, &**ret);
            proof {
                lemma_tyv_seq(args@);
                lemma_resolve_seq(m, tyv_seq(args@));
                let rs = resolve_seq(m, tyv_seq(args@));
                if found {
                    let k = choose|k: int|
                        0 <= k < args@.len() && occurs(m, var as int, tyv(#[trigger] args@[k]));
                    assert(rs[k] == resolve(m, tyv_seq(args@)[k]));
                    assert(has_tyvar(rs[k], var as int));
                    assert(0 <= k < rs.len());
                    assert(exists|i: int|
                        0 <= i < rs.len() && has_tyvar(#[trigger] rs[i], var as int));
                } else {
                    assert forall|i: int|
                        0 <= i < rs.len() implies !has_tyvar(#[trigger] rs[i], var as int) by {
                        assert(tyv_seq(args@)[i] == tyv(args@[i]));
                        assert(rs[i] == resolve(m, tyv_seq(args@)[i]));
                        assert(rs[i] == resolve(m, tyv(args@[i])));
                    }
                }
                let whole = Ty::Fun { args: rs, ret: Box::new(resolve(m, tyv(*(*ret)))) };
                lemma_has_tyvar_seq(rs, var as int);
                assert(found == has_tyvar_seq(rs, var as int));
                assert(*Box::new(resolve(m, tyv(*(*ret)))) == resolve(m, tyv(*(*ret))));
                assert(in_ret == has_tyvar(resolve(m, tyv(*(*ret))), var as int));
                assert((found || in_ret) == has_tyvar(whole, var as int));
                assert(tyv(*ty) == Ty::Fun { args: tyv_seq(args@), ret: Box::new(tyv(*(*ret))) });
                assert(resolve(m, tyv(*ty)) == whole);
            }
            found || in_ret
        },
    }
}

/// Apply the whole substitution to a type, producing its resolution.
#[verifier::loop_isolation(false)]
pub fn resolve_ty(subst: &SubstEnv, ty: &Type) -> (r: Type)
    ensures
        tyv(r) == resolve(sv(subst@), tyv(*ty)),
    decreases ty_size(tyv(*ty)),
{
    match ty {
        Type::Unit => Type::Unit,
        Type::Bool => Type::Bool,
        Type::Int => Type::Int,
        Type::Float => Type::Float,
        Type::Var(v) => {
            if (*v as usize) < subst.len() {
                match &subst[*v as usize] {
                    Some(e) => clone_type(e),
                    None => Type::Var(*v),
                }
            } else {
                Type::Var(*v)
            }
        },
        Type::Array(e) => Type::Array(Box::new(resolve_ty(subst, &**e))),
        Type::Tuple(args) => {
            let ghost m = sv(subst@);
            let mut out: Vec<Type> = Vec::new();
            let mut j: usize = 0;
            while j < args.len()
                invariant
                    j <= args.len(),
                    out@.len() == j as nat,
                    forall|k: int|
                        0 <= k < j ==> tyv(#[trigger] out@[k]) == resolve(m, tyv(args@[k])),
                    m == sv(subst@),
                decreases args.len() - j,
            {
                proof {
                    lemma_ty_size_elem(args@, j as int);
                }
                let c = resolve_ty(subst, &args[j]);
                out.push(c);
                j += 1;
            }
            proof {
                lemma_tyv_seq(out@);
                lemma_tyv_seq(args@);
                lemma_resolve_seq(m, tyv_seq(args@));
                assert(tyv_seq(out@) =~= resolve_seq(m, tyv_seq(args@)));
            }
            Type::Tuple(out)
        },
        Type::Fun { args, ret } => {
            let ghost m = sv(subst@);
            let mut out: Vec<Type> = Vec::new();
            let mut j: usize = 0;
            while j < args.len()
                invariant
                    j <= args.len(),
                    out@.len() == j as nat,
                    forall|k: int|
                        0 <= k < j ==> tyv(#[trigger] out@[k]) == resolve(m, tyv(args@[k])),
                    m == sv(subst@),
                decreases args.len() - j,
            {
                proof {
                    lemma_ty_size_elem(args@, j as int);
                }
                let c = resolve_ty(subst, &args[j]);
                out.push(c);
                j += 1;
            }
            let new_ret = resolve_ty(subst, &**ret);
            proof {
                lemma_tyv_seq(out@);
                lemma_tyv_seq(args@);
                lemma_resolve_seq(m, tyv_seq(args@));
                assert(tyv_seq(out@) =~= resolve_seq(m, tyv_seq(args@)));
            }
            Type::Fun { args: out, ret: Box::new(new_ret) }
        },
    }
}

/// Replace occurrences of variable `v` in `t` by `r`.
#[verifier::loop_isolation(false)]
fn subst_ty(t: &Type, v: TyVar, r: &Type) -> (out: Type)
    ensures
        tyv(out) == subst_one(tyv(*t), v as int, tyv(*r)),
    decreases ty_size(tyv(*t)),
{
    match t {
        Type::Unit => Type::Unit,
        Type::Bool => Type::Bool,
        Type::Int => Type::Int,
        Type::Float => Type::Float,
        Type::Var(w) => {
            if *w == v {
                clone_type(r)
            } else {
                Type::Var(*w)
            }
        },
        Type::Array(e) => Type::Array(Box::new(subst_ty(&**e, v, r))),
        Type::Tuple(args) => {
            let mut out: Vec<Type> = Vec::new();
            let mut j: usize = 0;
            while j < args.len()
                invariant
                    j <= args.len(),
                    out@.len() == j as nat,
                    forall|k: int|
                        0 <= k < j ==> tyv(#[trigger] out@[k]) == subst_one(
                            tyv(args@[k]),
                            v as int,
                            tyv(*r),
                        ),
                decreases args.len() - j,
            {
                proof {
                    lemma_ty_size_elem(args@, j as int);
                }
                let c = subst_ty(&args[j], v, r);
                out.push(c);
                j += 1;
            }
            proof {
                lemma_tyv_seq(out@);
                lemma_tyv_seq(args@);
                lemma_subst_one_seq(tyv_seq(args@), v as int, tyv(*r));
                assert(tyv_seq(out@) =~= subst_one_seq(tyv_seq(args@), v as int, tyv(*r)));
            }
            Type::Tuple(out)
        },
        Type::Fun { args, ret } => {
            let mut out: Vec<Type> = Vec::new();
            let mut j: usize = 0;
            while j < args.len()
                invariant
                    j <= args.len(),
                    out@.len() == j as nat,
                    forall|k: int|
                        0 <= k < j ==> tyv(#[trigger] out@[k]) == subst_one(
                            tyv(args@[k]),
                            v as int,
                            tyv(*r),
                        ),
                decreases args.len() - j,
            {
                proof {
                    lemma_ty_size_elem(args@, j as int);
                }
                let c = subst_ty(&args[j], v, r);
                out.push(c);
                j += 1;
            }
            let new_ret = subst_ty(&**ret, v, r);
            proof {
                lemma_tyv_seq(out@);
                lemma_tyv_seq(args@);
                lemma_subst_one_seq(tyv_seq(args@), v as int, tyv(*r));
                assert(tyv_seq(out@) =~= subst_one_seq(tyv_seq(args@), v as int, tyv(*r)));
            }
            Type::Fun { args: out, ret: Box::new(new_ret) }
        },
    }
}

/// Record `v := r` and rewrite every stored entry so that `v` no longer
/// occurs anywhere in the environment.
#[verifier::loop_isolation(false)]
fn bind_var(subst_env: &mut SubstEnv, v: TyVar, r: &Type)
    requires
        wf_subst(sv(old(subst_env)@)),
        (v as int) < old(subst_env)@.len(),
        !bound(sv(old(subst_env)@), v as int),
        no_bound_vars(sv(old(subst_env)@), tyv(*r)),
        !has_tyvar(tyv(*r), v as int),
        vars_below(tyv(*r), old(subst_env)@.len() as int),
    ensures
        sv(final(subst_env)@) == bind_step(sv(old(subst_env)@), v as int, tyv(*r)),
        final(subst_env)@.len() == old(subst_env)@.len(),
{
    let ghost m0 = sv(old(subst_env)@);
    let mut j: usize = 0;
    while j < subst_env.len()
        invariant
            j <= subst_env@.len(),
            subst_env@.len() == old(subst_env)@.len(),
            forall|k: int|
                j <= k < subst_env@.len() ==> #[trigger] subst_env@[k] == old(subst_env)@[k],
            forall|k: int|
                0 <= k < j ==> ((#[trigger] subst_env@[k]) is Some <==> old(subst_env)@[k] is Some),
            forall|k: int|
                0 <= k < j && old(subst_env)@[k] is Some ==> tyv(
                    (#[trigger] subst_env@[k])->Some_0,
                ) == subst_one(tyv(old(subst_env)@[k]->Some_0), v as int, tyv(*r)),
            m0 == sv(old(subst_env)@),
        decreases subst_env@.len() - j,
    {
        let new_entry: Option<Type> = match &subst_env[j] {
            Some(e) => Some(subst_ty(e, v, r)),
            None => None,
        };
        subst_env.set(j, new_entry);
        j += 1;
    }
    let rc = clone_type(r);
    subst_env.set(v as usize, Some(rc));
    proof {
        assert(sv(subst_env@) =~= bind_step(m0, v as int, tyv(*r)));
    }
}

/// A variable occurring in a resolved type is unbound.
pub proof fn lemma_has_tyvar_not_bound(m: Subst, t: Ty, v: int)
    requires
        no_bound_vars(m, t),
        has_tyvar(t, v),
    ensures
        !bound(m, v),
    decreases t,
{
    match t {
        Ty::Fun { args, ret } => {
            lemma_has_tyvar_seq(args, v);
            if has_tyvar_seq(args, v) {
                let k = choose|k: int| 0 <= k < args.len() && has_tyvar(#[trigger] args[k], v);
                lemma_has_tyvar_not_bound(m, args[k], v);
            } else {
                lemma_has_tyvar_not_bound(m, *ret, v);
            }
        },
        Ty::Tuple(args) => {
            lemma_has_tyvar_seq(args, v);
            let k = choose|k: int| 0 <= k < args.len() && has_tyvar(#[trigger] args[k], v);
            lemma_has_tyvar_not_bound(m, args[k], v);
        },
        Ty::Array(e) => {
            lemma_has_tyvar_not_bound(m, *e, v);
        },
        _ => {},
    }
}

/// A variable that passes the occurs check is unbound.
pub proof fn lemma_occurs_unbound(m: Subst, v: int, t: Ty)
    requires
        wf_subst(m),
        occurs(m, v, t),
    ensures
        !bound(m, v),
{
    lemma_resolve_resolved(m, t);
    lemma_has_tyvar_not_bound(m, resolve(m, t), v);
}

/// One-step dereference keeps variables in range.
pub proof fn lemma_deref1_vars_below(m: Subst, t: Ty)
    requires
        wf_subst(m),
        vars_below(t, m.len() as int),
    ensures
        vars_below(deref1(m, t), m.len() as int),
{
}

/// The components of a function or tuple resolution are smaller than the
/// whole.
pub proof fn lemma_resolve_component_size(m: Subst, s: Seq<Ty>, i: int)
    requires
        0 <= i < s.len(),
    ensures
        ty_size(resolve(m, s[i])) <= tys_size(resolve_seq(m, s)),
{
    lemma_resolve_seq(m, s);
    lemma_tys_size_index(resolve_seq(m, s), i);
}

/// Errors that abort type inference.
#[derive(Debug)]
pub enum TypeErr {
    /// The two types cannot be unified.
    UnifyError(Type, Type),
    /// The occurs check failed: unification would build an infinite type.
    InfiniteType(Type, Type),
    /// A variable is not in scope.
    UnboundVar(crate::ast::Var),
}

/// Do two types have the same outermost constructor?
pub open spec fn same_head(a: Ty, b: Ty) -> bool {
    ||| (a is Unit && b is Unit)
    ||| (a is Bool && b is Bool)
    ||| (a is Int && b is Int)
    ||| (a is Float && b is Float)
    ||| (a is Fun && b is Fun)
    ||| (a is Tuple && b is Tuple)
    ||| (a is Array && b is Array)
    ||| (a is Var && b is Var)
}

/// The arity of a function or tuple head.
pub open spec fn head_arity(t: Ty) -> nat {
    match t {
        Ty::Fun { args, ret: _ } => args.len(),
        Ty::Tuple(args) => args.len(),
        _ => 0,
    }
}

/// A variable at the root of a dereference is unbound.
pub proof fn lemma_deref1_var_unbound(m: Subst, t: Ty, v: int)
    requires
        wf_subst(m),
        deref1(m, t) == Ty::Var(v),
    ensures
        !bound(m, v),
{
    match t {
        Ty::Var(w) => {
            if bound(m, w) {
                assert(no_bound_vars(m, entry(m, w)));
            }
        },
        _ => {},
    }
}

/// The premise of the occurs-check law: the left type is the variable
/// `v`, `v` occurs in the right type, and the right type does not itself
/// stand for `v`.
pub open spec fn infinite_unify(m: Subst, t1: Ty, t2: Ty) -> bool {
    t1 matches Ty::Var(v) && occurs(m, v, t2) && deref1(m, t2) != t1
}

/// Bind the unbound variable `v` to the representative `other`, after the
/// occurs check.
#[verifier::loop_isolation(false)]
fn unify_var(m: SubstEnv, v: TyVar, other: &Type) -> (res: (SubstEnv, Result<(), TypeErr>))
    requires
        wf_subst(sv(m@)),
        !bound(sv(m@), v as int),
        (v as int) < m@.len(),
        vars_below(tyv(*other), m@.len() as int),
        tyv(*other) != Ty::Var(v as int),
    ensures
        res.0@.len() == m@.len(),
        wf_subst(sv(res.0@)),
        subst_extends(sv(res.0@), sv(m@)),
        unbound_count(sv(res.0@)) <= unbound_count(sv(m@)),
        res.1 is Ok ==> unbound_count(sv(res.0@)) < unbound_count(sv(m@)),
        res.1 is Ok ==> resolve(sv(res.0@), Ty::Var(v as int)) == resolve(sv(res.0@), tyv(*other)),
        occurs(sv(m@), v as int, tyv(*other)) <==> res.1 matches Err(TypeErr::InfiniteType(_, _)),
        !occurs(sv(m@), v as int, tyv(*other)) ==> res.1 is Ok,
        res.1 is Err ==> res.0@ == m@,
{
    let ghost m0 = sv(m@);
    proof {
        lemma_extends_refl(m0);
    }
    let occ = occurs_check(&m, v, other);
    if occ {
        (m, Err(TypeErr::InfiniteType(Type::Var(v), clone_type(other))))
    } else {
        let r = resolve_ty(&m, other);
        proof {
            lemma_resolve_resolved(m0, tyv(*other));
            lemma_resolve_vars_below(m0, tyv(*other));
        }
        let mut m2 = m;
        bind_var(&mut m2, v, &r);
        proof {
            let rv = tyv(r);
            let m1 = sv(m2@);
            lemma_bind_wf(m0, v as int, rv);
            lemma_bind_extends(m0, v as int, rv);
            lemma_bind_unbound_count(m0, v as int, rv);
            lemma_bind_resolve(m0, v as int, rv, tyv(*other));
            lemma_subst_absent(rv, v as int, rv);
            assert(resolve(m1, Ty::Var(v as int)) == rv);
            assert(resolve(m0, tyv(*other)) == rv);
            assert(resolve(m1, tyv(*other)) == subst_one(rv, v as int, rv));
        }
        (m2, Ok(()))
    }
}

/// Unify two types: make them equal under the substitution environment,
/// binding unbound variables as needed. On success the two types resolve
/// to the same type; a substitution that already unifies them is returned
/// unchanged; and a unification that would build an infinite type fails
/// with `InfiniteType`.
#[verifier::loop_isolation(false)]
#[verifier::rlimit(100)]
pub fn unify(m: SubstEnv, ty1: &Type, ty2: &Type) -> (res: (SubstEnv, Result<(), TypeErr>))
    requires
        wf_subst(sv(m@)),
        vars_below(tyv(*ty1), m@.len() as int),
        vars_below(tyv(*ty2), m@.len() as int),
    ensures
        res.0@.len() == m@.len(),
        wf_subst(sv(res.0@)),
        subst_extends(sv(res.0@), sv(m@)),
        unbound_count(sv(res.0@)) <= unbound_count(sv(m@)),
        unbound_count(sv(res.0@)) == unbound_count(sv(m@)) ==> sv(res.0@) == sv(m@),
        res.1 is Ok ==> resolve(sv(res.0@), tyv(*ty1)) == resolve(sv(res.0@), tyv(*ty2)),
        resolve(sv(m@), tyv(*ty1)) == resolve(sv(m@), tyv(*ty2)) ==> res.1 is Ok && sv(res.0@)
            == sv(m@),
        infinite_unify(sv(m@), tyv(*ty1), tyv(*ty2)) ==> res.1 matches Err(
            TypeErr::InfiniteType(_, _),
        ),
        infinite_unify(sv(m@), tyv(*ty1), tyv(*ty2)) ==> res.0@ == m@,
        (!(deref1(sv(m@), tyv(*ty1)) is Var) && !(deref1(sv(m@), tyv(*ty2)) is Var) && !same_head(
            deref1(sv(m@), tyv(*ty1)),
            deref1(sv(m@), tyv(*ty2)),
        )) ==> (res.1 matches Err(TypeErr::UnifyError(a, b)) && tyv(a) == deref1(
            sv(m@),
            tyv(*ty1),
        ) && tyv(b) == deref1(sv(m@), tyv(*ty2))),
        (deref1(sv(m@), tyv(*ty1)) is Fun && deref1(sv(m@), tyv(*ty2)) is Fun && head_arity(
            deref1(sv(m@), tyv(*ty1)),
        ) != head_arity(deref1(sv(m@), tyv(*ty2)))) ==> (res.1 matches Err(
            TypeErr::UnifyError(_, _),
        )),
        (deref1(sv(m@), tyv(*ty1)) is Tuple && deref1(sv(m@), tyv(*ty2)) is Tuple && head_arity(
            deref1(sv(m@), tyv(*ty1)),
        ) != head_arity(deref1(sv(m@), tyv(*ty2)))) ==> (res.1 matches Err(
            TypeErr::UnifyError(_, _),
        )),
        (deref1(sv(m@), tyv(*ty1)) matches Ty::Var(v) && !occurs(sv(m@), v, tyv(*ty2)))
            ==> res.1 is Ok,
        (deref1(sv(m@), tyv(*ty2)) matches Ty::Var(v) && !occurs(sv(m@), v, tyv(*ty1)))
            ==> res.1 is Ok,
        (same_head(deref1(sv(m@), tyv(*ty1)), deref1(sv(m@), tyv(*ty2))) && (deref1(
            sv(m@),
            tyv(*ty1),
        ) is Unit || deref1(sv(m@), tyv(*ty1)) is Bool || deref1(sv(m@), tyv(*ty1)) is Int
            || deref1(sv(m@), tyv(*ty1)) is Float)) ==> res.1 is Ok,
    decreases
            unbound_count(sv(m@)),
            ty_size(resolve(sv(m@), tyv(*ty1))) + ty_size(resolve(sv(m@), tyv(*ty2))),
{
    let ghost m0 = sv(m@);
    let d1 = deref_ty(&m, ty1);
    let d2 = deref_ty(&m, ty2);
    proof {
        lemma_deref1_resolve(m0, tyv(*ty1));
        lemma_deref1_resolve(m0, tyv(*ty2));
        lemma_deref1_vars_below(m0, tyv(*ty1));
        lemma_deref1_vars_below(m0, tyv(*ty2));
        lemma_extends_refl(m0);
        match tyv(*ty1) {
            Ty::Var(u) => {
                if occurs(m0, u, tyv(*ty2)) {
                    lemma_occurs_unbound(m0, u, tyv(*ty2));
                }
            },
            _ => {},
        }
    }
    match (&d1, &d2) {
        (Type::Unit, Type::Unit)
        | (Type::Bool, Type::Bool)
        | (Type::Int, Type::Int)
        | (Type::Float, Type::Float) => (m, Ok(())),
        (Type::Var(v1), Type::Var(v2)) if *v1 == *v2 => (m, Ok(())),
        (Type::Var(v1), _) => {
            let v: TyVar = *v1;
            proof {
                assert(occurs(m0, v as int, tyv(d2)) == occurs(m0, v as int, tyv(*ty2)));
                match tyv(d2) {
                    Ty::Var(v2) => {
                        lemma_deref1_var_unbound(m0, tyv(*ty2), v2);
                        assert(resolve(m0, tyv(d2)) == Ty::Var(v2));
                        assert(occurs(m0, v2, tyv(*ty1)) == has_tyvar(
                            resolve(m0, tyv(*ty1)),
                            v2,
                        ));
                        assert(resolve(m0, tyv(*ty1)) == resolve(m0, tyv(d1)));
                    },
                    _ => {},
                }
                if bound(m0, v as int) {
                    assert(deref1(m0, tyv(*ty1)) == tyv(d1));
                    assert(tyv(*ty1) matches Ty::Var(u) ==> bound(m0, u) && entry(m0, u)
                        == Ty::Var(v as int));
                    assert(false);
                }
            }
            let (m2, r) = unify_var(m, v, &d2);
            proof {
                let m1 = sv(m2@);
                if r is Ok {
                    lemma_extends_resolve(m1, m0, tyv(*ty1));
                    lemma_extends_resolve(m1, m0, tyv(*ty2));
                    lemma_extends_resolve(m1, m0, tyv(d2));
                }
            }
            (m2, r)
        },
        (_, Type::Var(v2)) => {
            let v: TyVar = *v2;
            proof {
                lemma_deref1_var_unbound(m0, tyv(*ty2), v as int);
                assert(occurs(m0, v as int, tyv(d1)) == occurs(m0, v as int, tyv(*ty1)));
                if bound(m0, v as int) {
                    assert(false);
                }
            }
            let (m2, r) = unify_var(m, v, &d1);
            proof {
                let m1 = sv(m2@);
                if r is Ok {
                    lemma_extends_resolve(m1, m0, tyv(*ty1));
                    lemma_extends_resolve(m1, m0, tyv(*ty2));
                    lemma_extends_resolve(m1, m0, tyv(d1));
                }
            }
            (m2, r)
        },
        (Type::Array(e1), Type::Array(e2)) => {
            proof {
                assert(resolve(m0, tyv(d1)) == Ty::Array(Box::new(resolve(m0, tyv(*(*e1))))));
                assert(resolve(m0, tyv(d2)) == Ty::Array(Box::new(resolve(m0, tyv(*(*e2))))));
            }
            let (m2, r) = unify(m, &**e1, &**e2);
            proof {
                let m1 = sv(m2@);
                if r is Ok {
                    lemma_extends_resolve(m1, m0, tyv(*ty1));
                    lemma_extends_resolve(m1, m0, tyv(*ty2));
                    lemma_extends_resolve(m1, m0, tyv(d1));
                    lemma_extends_resolve(m1, m0, tyv(d2));
                    assert(resolve(m1, tyv(d1)) == Ty::Array(
                        Box::new(resolve(m1, tyv(*(*e1)))),
                    ));
                    assert(resolve(m1, tyv(d2)) == Ty::Array(
                        Box::new(resolve(m1, tyv(*(*e2)))),
                    ));
                }
            }
            (m2, r)
        },
        (Type::Fun { args: a1, ret: r1 }, Type::Fun { args: a2, ret: r2 }) => {
            let ghost len0 = m@.len();
            let ghost aa1 = tyv_seq(a1@);
            let ghost aa2 = tyv_seq(a2@);
            proof {
                lemma_tyv_seq(a1@);
                lemma_tyv_seq(a2@);
                lemma_resolve_seq(m0, aa1);
                lemma_resolve_seq(m0, aa2);
                assert(vars_below(tyv(d1), len0 as int));
                assert(vars_below(tyv(d2), len0 as int));
                assert forall|k: int|
                    0 <= k < a1@.len() implies vars_below(tyv(#[trigger] a1@[k]), len0 as int) by {
                    assert(aa1[k] == tyv(a1@[k]));
                }
                assert forall|k: int|
                    0 <= k < a2@.len() implies vars_below(tyv(#[trigger] a2@[k]), len0 as int) by {
                    assert(aa2[k] == tyv(a2@[k]));
                }
            }
            if a1.len() != a2.len() {
                return (m, Err(TypeErr::UnifyError(clone_type(&d1), clone_type(&d2))));
            }
            let mut mc = m;
            let mut i: usize = 0;
            while i < a1.len()
                invariant
                    i <= a1@.len(),
                    a1@.len() == a2@.len(),
                    mc@.len() == len0,
                    wf_subst(sv(mc@)),
                    subst_extends(sv(mc@), m0),
                    unbound_count(sv(mc@)) <= unbound_count(m0),
                    unbound_count(sv(mc@)) == unbound_count(m0) ==> sv(mc@) == m0,
                    forall|k: int|
                        0 <= k < i ==> resolve(sv(mc@), tyv(#[trigger] a1@[k])) == resolve(
                            sv(mc@),
                            tyv(a2@[k]),
                        ),
                    resolve(m0, tyv(*ty1)) == resolve(m0, tyv(*ty2)) ==> sv(mc@) == m0,
                decreases a1@.len() - i,
            {
                let ghost mprev = sv(mc@);
                proof {
                    if mprev == m0 {
                        lemma_resolve_component_size(m0, aa1, i as int);
                        lemma_resolve_component_size(m0, aa2, i as int);
                    }
                    if resolve(m0, tyv(*ty1)) == resolve(m0, tyv(*ty2)) {
                        assert(resolve_seq(m0, aa1) =~= resolve_seq(m0, aa2));
                        assert(resolve(m0, tyv(a1@[i as int])) == resolve(
                            m0,
                            tyv(a2@[i as int]),
                        ));
                    }
                }
                let (mcx, ri) = unify(mc, &a1[i], &a2[i]);
                mc = mcx;
                proof {
                    lemma_extends_trans(sv(mc@), mprev, m0);
                }
                if let Err(e) = ri {
                    return (mc, Err(e));
                }
                proof {
                    assert forall|k: int|
                        0 <= k < i + 1 implies resolve(sv(mc@), tyv(#[trigger] a1@[k]))
                        == resolve(sv(mc@), tyv(a2@[k])) by {
                        if k < i {
                            lemma_extends_resolve(sv(mc@), mprev, tyv(a1@[k]));
                            lemma_extends_resolve(sv(mc@), mprev, tyv(a2@[k]));
                        }
                    }
                }
                i += 1;
            }
            let ghost mmid = sv(mc@);
            proof {
                if mmid == m0 {
                    assert(ty_size(resolve(m0, tyv(d1))) == 1 + tys_size(resolve_seq(m0, aa1))
                        + ty_size(resolve(m0, tyv(*(*r1)))));
                    assert(ty_size(resolve(m0, tyv(d2))) == 1 + tys_size(resolve_seq(m0, aa2))
                        + ty_size(resolve(m0, tyv(*(*r2)))));
                }
                if resolve(m0, tyv(*ty1)) == resolve(m0, tyv(*ty2)) {
                    assert(*Box::new(resolve(m0, tyv(*(*r1)))) == resolve(m0, tyv(*(*r1))));
                    assert(*Box::new(resolve(m0, tyv(*(*r2)))) == resolve(m0, tyv(*(*r2))));
                    assert(resolve(m0, tyv(*(*r1))) == resolve(m0, tyv(*(*r2))));
                }
            }
            let (mcr, rr) = unify(mc, &**r1, &**r2);
            mc = mcr;
            proof {
                lemma_extends_trans(sv(mc@), mmid, m0);
            }
            if let Err(e) = rr {
                return (mc, Err(e));
            }
            proof {
                let mf = sv(mc@);
                assert forall|k: int|
                    0 <= k < a1@.len() implies resolve(mf, tyv(#[trigger] a1@[k])) == resolve(
                    mf,
                    tyv(a2@[k]),
                ) by {
                    lemma_extends_resolve(mf, mmid, tyv(a1@[k]));
                    lemma_extends_resolve(mf, mmid, tyv(a2@[k]));
                }
                lemma_resolve_seq(mf, aa1);
                lemma_resolve_seq(mf, aa2);
                assert(resolve_seq(mf, aa1) =~= resolve_seq(mf, aa2));
                assert(resolve(mf, tyv(d1)) == resolve(mf, tyv(d2)));
                lemma_extends_resolve(mf, m0, tyv(*ty1));
                lemma_extends_resolve(mf, m0, tyv(*ty2));
                lemma_extends_resolve(mf, m0, tyv(d1));
                lemma_extends_resolve(mf, m0, tyv(d2));
            }
            (mc, Ok(()))
        },
        (Type::Tuple(a1), Type::Tuple(a2)) => {
            let ghost len0 = m@.len();
            let ghost aa1 = tyv_seq(a1@);
            let ghost aa2 = tyv_seq(a2@);
            proof {
                lemma_tyv_seq(a1@);
                lemma_tyv_seq(a2@);
                lemma_resolve_seq(m0, aa1);
                lemma_resolve_seq(m0, aa2);
                assert(vars_below(tyv(d1), len0 as int));
                assert(vars_below(tyv(d2), len0 as int));
                assert forall|k: int|
                    0 <= k < a1@.len() implies vars_below(tyv(#[trigger] a1@[k]), len0 as int) by {
                    assert(aa1[k] == tyv(a1@[k]));
                }
                assert forall|k: int|
                    0 <= k < a2@.len() implies vars_below(tyv(#[trigger] a2@[k]), len0 as int) by {
                    assert(aa2[k] == tyv(a2@[k]));
                }
            }
            if a1.len() != a2.len() {
                return (m, Err(TypeErr::UnifyError(clone_type(&d1), clone_type(&d2))));
            }
            let mut mc = m;
            let mut i: usize = 0;
            while i < a1.len()
                invariant
                    i <= a1@.len(),
                    a1@.len() == a2@.len(),
                    mc@.len() == len0,
                    wf_subst(sv(mc@)),
                    subst_extends(sv(mc@), m0),
                    unbound_count(sv(mc@)) <= unbound_count(m0),
                    unbound_count(sv(mc@)) == unbound_count(m0) ==> sv(mc@) == m0,
                    forall|k: int|
                        0 <= k < i ==> resolve(sv(mc@), tyv(#[trigger] a1@[k])) == resolve(
                            sv(mc@),
                            tyv(a2@[k]),
                        ),
                    resolve(m0, tyv(*ty1)) == resolve(m0, tyv(*ty2)) ==> sv(mc@) == m0,
                decreases a1@.len() - i,
            {
                let ghost mprev = sv(mc@);
                proof {
                    if mprev == m0 {
                        lemma_resolve_component_size(m0, aa1, i as int);
                        lemma_resolve_component_size(m0, aa2, i as int);
                    }
                    if resolve(m0, tyv(*ty1)) == resolve(m0, tyv(*ty2)) {
                        assert(resolve_seq(m0, aa1) =~= resolve_seq(m0, aa2));
                        assert(resolve(m0, tyv(a1@[i as int])) == resolve(
                            m0,
                            tyv(a2@[i as int]),
                        ));
                    }
                }
                let (mcx, ri) = unify(mc, &a1[i], &a2[i]);
                mc = mcx;
                proof {
                    lemma_extends_trans(sv(mc@), mprev, m0);
                }
                if let Err(e) = ri {
                    return (mc, Err(e));
                }
                proof {
                    assert forall|k: int|
                        0 <= k < i + 1 implies resolve(sv(mc@), tyv(#[trigger] a1@[k]))
                        == resolve(sv(mc@), tyv(a2@[k])) by {
                        if k < i {
                            lemma_extends_resolve(sv(mc@), mprev, tyv(a1@[k]));
                            lemma_extends_resolve(sv(mc@), mprev, tyv(a2@[k]));
                        }
                    }
                }
                i += 1;
            }
            proof {
                let mf = sv(mc@);
                lemma_resolve_seq(mf, aa1);
                lemma_resolve_seq(mf, aa2);
                assert(resolve_seq(mf, aa1) =~= resolve_seq(mf, aa2));
                assert(resolve(mf, tyv(d1)) == resolve(mf, tyv(d2)));
                lemma_extends_resolve(mf, m0, tyv(*ty1));
                lemma_extends_resolve(mf, m0, tyv(*ty2));
                lemma_extends_resolve(mf, m0, tyv(d1));
                lemma_extends_resolve(mf, m0, tyv(d2));
            }
            (mc, Ok(()))
        },
        _ => (m, Err(TypeErr::UnifyError(clone_type(&d1), clone_type(&d2)))),
    }
}

/// A ground type has no variables, below any bound.
pub proof fn lemma_ground_vars_below(t: Ty, n: int)
    requires
        ground(t),
    ensures
        vars_below(t, n),
    decreases t,
{
    match t {
        Ty::Fun { args, ret } => {
            assert forall|i: int| 0 <= i < args.len() implies vars_below(#[trigger] args[i], n) by {
                lemma_ground_vars_below(args[i], n);
            }
            lemma_ground_vars_below(*ret, n);
        },
        Ty::Tuple(args) => {
            assert forall|i: int| 0 <= i < args.len() implies vars_below(#[trigger] args[i], n) by {
                lemma_ground_vars_below(args[i], n);
            }
        },
        Ty::Array(e) => {
            lemma_ground_vars_below(*e, n);
        },
        _ => {},
    }
}

/// A ground type mentions no variable bound in any environment.
pub proof fn lemma_ground_no_bound(m: Subst, t: Ty)
    requires
        ground(t),
    ensures
        no_bound_vars(m, t),
    decreases t,
{
    match t {
        Ty::Fun { args, ret } => {
            assert forall|i: int|
                0 <= i < args.len() implies no_bound_vars(m, #[trigger] args[i]) by {
                lemma_ground_no_bound(m, args[i]);
            }
            lemma_ground_no_bound(m, *ret);
        },
        Ty::Tuple(args) => {
            assert forall|i: int|
                0 <= i < args.len() implies no_bound_vars(m, #[trigger] args[i]) by {
                lemma_ground_no_bound(m, args[i]);
            }
        },
        Ty::Array(e) => {
            lemma_ground_no_bound(m, *e);
        },
        _ => {},
    }
}

/// A type whose variables are all below zero has none.
pub proof fn lemma_vars_below_zero_ground(t: Ty)
    requires
        vars_below(t, 0),
    ensures
        ground(t),
    decreases t,
{
    match t {
        Ty::Fun { args, ret } => {
            assert forall|i: int| 0 <= i < args.len() implies ground(#[trigger] args[i]) by {
                lemma_vars_below_zero_ground(args[i]);
            }
            lemma_vars_below_zero_ground(*ret);
        },
        Ty::Tuple(args) => {
            assert forall|i: int| 0 <= i < args.len() implies ground(#[trigger] args[i]) by {
                lemma_vars_below_zero_ground(args[i]);
            }
        },
        Ty::Array(e) => {
            lemma_vars_below_zero_ground(*e);
        },
        _ => {},
    }
}

/// Replace every remaining type variable by `Unit`.
pub open spec fn default_unit(t: Ty) -> Ty
    decreases t,
{
    match t {
        Ty::Fun { args, ret } => Ty::Fun {
            args: default_unit_seq(args),
            ret: Box::new(default_unit(*ret)),
        },
        Ty::Tuple(args) => Ty::Tuple(default_unit_seq(args)),
        Ty::Array(e) => Ty::Array(Box::new(default_unit(*e))),
        Ty::Var(_) => Ty::Unit,
        _ => t,
    }
}

/// Replace variables by `Unit` in every element.
pub open spec fn default_unit_seq(s: Seq<Ty>) -> Seq<Ty>
    decreases s,
{
    if s.len() == 0 {
        Seq::empty()
    } else {
        seq![default_unit(s[0])] + default_unit_seq(s.subrange(1, s.len() as int))
    }
}

/// `default_unit_seq` maps `default_unit`, element by element.
pub proof fn lemma_default_unit_seq(s: Seq<Ty>)
    ensures
        default_unit_seq(s).len() == s.len(),
        forall|i: int|
            0 <= i < s.len() ==> #[trigger] default_unit_seq(s)[i] == default_unit(s[i]),
    decreases s,
{
    if s.len() > 0 {
        lemma_default_unit_seq(s.subrange(1, s.len() as int));
    }
}

/// Defaulting is the identity on a ground type.
pub proof fn lemma_default_unit_id(t: Ty)
    requires
        ground(t),
    ensures
        default_unit(t) == t,
    decreases t,
{
    match t {
        Ty::Fun { args, ret } => {
            lemma_default_unit_seq(args);
            assert forall|i: int|
                0 <= i < args.len() implies #[trigger] default_unit_seq(args)[i] == args[i] by {
                lemma_default_unit_id(args[i]);
            }
            assert(default_unit_seq(args) =~= args);
            lemma_default_unit_id(*ret);
        },
        Ty::Tuple(args) => {
            lemma_default_unit_seq(args);
            assert forall|i: int|
                0 <= i < args.len() implies #[trigger] default_unit_seq(args)[i] == args[i] by {
                lemma_default_unit_id(args[i]);
            }
            assert(default_unit_seq(args) =~= args);
        },
        Ty::Array(e) => {
            lemma_default_unit_id(*e);
        },
        _ => {},
    }
}

/// Defaulting leaves a ground type.
pub proof fn lemma_default_unit_ground(t: Ty)
    ensures
        ground(default_unit(t)),
    decreases t,
{
    match t {
        Ty::Fun { args, ret } => {
            lemma_default_unit_seq(args);
            assert forall|i: int|
                0 <= i < default_unit_seq(args).len() implies ground(
                #[trigger] default_unit_seq(args)[i],
            ) by {
                lemma_default_unit_ground(args[i]);
            }
            lemma_default_unit_ground(*ret);
            assert(ground(Ty::Fun {
                args: default_unit_seq(args),
                ret: Box::new(default_unit(*ret)),
            }));
        },
        Ty::Tuple(args) => {
            lemma_default_unit_seq(args);
            assert forall|i: int|
                0 <= i < default_unit_seq(args).len() implies ground(
                #[trigger] default_unit_seq(args)[i],
            ) by {
                lemma_default_unit_ground(args[i]);
            }
            assert(ground(Ty::Tuple(default_unit_seq(args))));
        },
        Ty::Array(e) => {
            lemma_default_unit_ground(*e);
        },
        _ => {},
    }
}

/// Replace every remaining type variable in `t` by `Unit`.
#[verifier::loop_isolation(false)]
fn ground_default(t: &Type) -> (r: Type)
    ensures
        tyv(r) == default_unit(tyv(*t)),
        ground(tyv(r)),
    decreases ty_size(tyv(*t)),
{
    proof {
        lemma_default_unit_ground(tyv(*t));
    }
    match t {
        Type::Unit => Type::Unit,
        Type::Bool => Type::Bool,
        Type::Int => Type::Int,
        Type::Float => Type::Float,
        Type::Var(_) => Type::Unit,
        Type::Array(e) => Type::Array(Box::new(ground_default(&**e))),
        Type::Tuple(args) => {
            let mut out: Vec<Type> = Vec::new();
            let mut j: usize = 0;
            while j < args.len()
                invariant
                    j <= args.len(),
                    out@.len() == j as nat,
                    forall|k: int|
                        0 <= k < j ==> tyv(#[trigger] out@[k]) == default_unit(tyv(args@[k])),
                decreases args.len() - j,
            {
                proof {
                    lemma_ty_size_elem(args@, j as int);
                }
                let c = ground_default(&args[j]);
                out.push(c);
                j += 1;
            }
            proof {
                lemma_tyv_seq(out@);
                lemma_tyv_seq(args@);
                lemma_default_unit_seq(tyv_seq(args@));
                assert(tyv_seq(out@) =~= default_unit_seq(tyv_seq(args@)));
            }
            Type::Tuple(out)
        },
        Type::Fun { args, ret } => {
            let mut out: Vec<Type> = Vec::new();
            let mut j: usize = 0;
            while j < args.len()
                invariant
                    j <= args.len(),
                    out@.len() == j as nat,
                    forall|k: int|
                        0 <= k < j ==> tyv(#[trigger] out@[k]) == default_unit(tyv(args@[k])),
                decreases args.len() - j,
            {
                proof {
                    lemma_ty_size_elem(args@, j as int);
                }
                let c = ground_default(&args[j]);
                out.push(c);
                j += 1;
            }
            let new_ret = ground_default(&**ret);
            proof {
                lemma_tyv_seq(out@);
                lemma_tyv_seq(args@);
                lemma_default_unit_seq(tyv_seq(args@));
                assert(tyv_seq(out@) =~= default_unit_seq(tyv_seq(args@)));
            }
            Type::Fun { args: out, ret: Box::new(new_ret) }
        },
    }
}

/// Normalize an inferred type: apply the substitution in full, then
/// resolve any still-unbound variable to `Unit`.
pub fn norm_ty(subst: &SubstEnv, t: &Type) -> (r: Type)
    ensures
        tyv(r) == default_unit(resolve(sv(subst@), tyv(*t))),
        ground(tyv(r)),
{
    let rt = resolve_ty(subst, t);
    ground_default(&rt)
}

/// The flat table of inferred types, keyed by binder identity, that
/// inference returns.
pub type TypeEnv = Vec<(u32, Type)>;

/// A scope entry: the canonical binder and its type.
#[derive(Debug)]
pub struct Binder {
    pub binder: crate::ast::Var,
    pub ty: Type,
}

/// A stack of lexical frames mapping display names to binders. Entries
/// live in one flat vector; `marks` remembers where each frame began.
#[derive(Debug)]
pub struct Scope {
    pub items: Vec<(String, Binder)>,
    pub marks: Vec<usize>,
}

/// All types stored in the scope use variables below `n`.
pub open spec fn scope_wf(s: Scope, n: int) -> bool {
    forall|i: int|
        0 <= i < s.items@.len() ==> vars_below(tyv(#[trigger] s.items@[i].1.ty), n)
}

/// All types stored in the environment use variables below `n`.
pub open spec fn env_wf(e: Seq<(u32, Type)>, n: int) -> bool {
    forall|i: int| 0 <= i < e.len() ==> vars_below(tyv((#[trigger] e[i]).1), n)
}

/// A bound on scope types weakens upward.
pub proof fn lemma_scope_wf_mono(s: Scope, n1: int, n2: int)
    requires
        scope_wf(s, n1),
        n1 <= n2,
    ensures
        scope_wf(s, n2),
{
    assert forall|i: int|
        0 <= i < s.items@.len() implies vars_below(tyv(#[trigger] s.items@[i].1.ty), n2) by {
        lemma_vars_below_mono(tyv(s.items@[i].1.ty), n1, n2);
    }
}

/// A bound on environment types weakens upward.
pub proof fn lemma_env_wf_mono(e: Seq<(u32, Type)>, n1: int, n2: int)
    requires
        env_wf(e, n1),
        n1 <= n2,
    ensures
        env_wf(e, n2),
{
    assert forall|i: int| 0 <= i < e.len() implies vars_below(tyv((#[trigger] e[i]).1), n2) by {
        lemma_vars_below_mono(tyv(e[i].1), n1, n2);
    }
}

/// Two scopes with the same entries satisfy the same bounds.
pub proof fn lemma_scope_wf_same_items(s1: Scope, s2: Scope, n: int)
    requires
        s1.items@ == s2.items@,
        scope_wf(s1, n),
    ensures
        scope_wf(s2, n),
{
    assert forall|i: int|
        0 <= i < s2.items@.len() implies vars_below(tyv(#[trigger] s2.items@[i].1.ty), n) by {
        assert(s2.items@[i] == s1.items@[i]);
    }
}

/// A function type over in-range pieces is in range.
pub proof fn lemma_fun_vars_below(ats: Seq<Type>, rv: int, n: int)
    requires
        forall|k: int| 0 <= k < ats.len() ==> vars_below(tyv(#[trigger] ats[k]), n),
        0 <= rv < n,
    ensures
        vars_below(Ty::Fun { args: tyv_seq(ats), ret: Box::new(Ty::Var(rv)) }, n),
{
    lemma_tyv_seq(ats);
    assert forall|k: int|
        0 <= k < tyv_seq(ats).len() implies vars_below(#[trigger] tyv_seq(ats)[k], n) by {
        assert(tyv_seq(ats)[k] == tyv(ats[k]));
    }
    assert(*Box::new(Ty::Var(rv)) == Ty::Var(rv));
    assert(vars_below(Ty::Var(rv), n));
}

/// A tuple type over in-range pieces is in range.
pub proof fn lemma_tuple_vars_below(ats: Seq<Type>, n: int)
    requires
        forall|k: int| 0 <= k < ats.len() ==> vars_below(tyv(#[trigger] ats[k]), n),
    ensures
        vars_below(Ty::Tuple(tyv_seq(ats)), n),
{
    lemma_tyv_seq(ats);
    assert forall|k: int|
        0 <= k < tyv_seq(ats).len() implies vars_below(#[trigger] tyv_seq(ats)[k], n) by {
        assert(tyv_seq(ats)[k] == tyv(ats[k]));
    }
}

/// Pushing one in-range binding keeps a scope well formed.
pub proof fn lemma_scope_wf_push(s1: Scope, s2: Scope, n: int)
    requires
        s2.items@.len() == s1.items@.len() + 1,
        s2.items@.drop_last() == s1.items@,
        scope_wf(s1, n),
        vars_below(tyv(s2.items@.last().1.ty), n),
    ensures
        scope_wf(s2, n),
{
    assert forall|i: int|
        0 <= i < s2.items@.len() implies vars_below(tyv(#[trigger] s2.items@[i].1.ty), n) by {
        if i < s2.items@.len() - 1 {
            assert(s2.items@[i] == s2.items@.drop_last()[i]);
            assert(s2.items@[i] == s1.items@[i]);
        }
    }
}

/// The innermost binding of `name` in a flat entry list: the greatest
/// index whose key is `name`.
pub open spec fn scope_find(items: Seq<(String, Binder)>, name: Seq<char>) -> Option<int>
    decreases items,
{
    if items.len() == 0 {
        None
    } else if items.last().0@ == name {
        Some((items.len() - 1) as int)
    } else {
        scope_find(items.drop_last(), name)
    }
}

/// Looking a name up ignores a suffix with no match.
proof fn lemma_scope_find_prefix(items: Seq<(String, Binder)>, name: Seq<char>, j: int)
    requires
        0 <= j <= items.len(),
        forall|k: int| j <= k < items.len() ==> (#[trigger] items[k]).0@ != name,
    ensures
        scope_find(items, name) == scope_find(items.subrange(0, j), name),
    decreases items.len(),
{
    if j == items.len() {
        assert(items.subrange(0, j) =~= items);
    } else {
        assert(items.last().0@ != name);
        assert(items.drop_last() =~= items.subrange(0, items.len() - 1));
        lemma_scope_find_prefix(items.subrange(0, items.len() - 1), name, j);
        assert(items.subrange(0, items.len() - 1).subrange(0, j) =~= items.subrange(0, j));
    }
}

impl Scope {
    /// An empty scope.
    pub fn new() -> (s: Scope)
        ensures
            s.items@.len() == 0,
            s.marks@.len() == 0,
    {
        Scope { items: Vec::new(), marks: Vec::new() }
    }

    /// Open a new lexical frame.
    pub fn new_scope(&mut self)
        ensures
            final(self).items@ == old(self).items@,
            final(self).marks@.len() == old(self).marks@.len() + 1,
            final(self).marks@.drop_last() == old(self).marks@,
            final(self).marks@.last() as int == old(self).items@.len() as int,
    {
        let n = self.items.len();
        self.marks.push(n);
    }

    /// Close the innermost frame, dropping its bindings.
    pub fn pop_scope(&mut self)
        requires
            old(self).marks@.len() > 0,
            old(self).marks@.last() <= old(self).items@.len(),
        ensures
            final(self).items@ == old(self).items@.subrange(0, old(self).marks@.last() as int),
            final(self).marks@ == old(self).marks@.drop_last(),
    {
        let mark = self.marks.pop().unwrap();
        self.items.truncate(mark);
    }

    /// Bind `name` in the innermost frame.
    pub fn add(&mut self, name: String, b: Binder)
        ensures
            final(self).items@.len() == old(self).items@.len() + 1,
            final(self).items@.last().0 == name,
            final(self).items@.last().1 == b,
            final(self).items@.drop_last() == old(self).items@,
            final(self).marks@ == old(self).marks@,
    {
        self.items.push((name, b));
    }

    /// Look `name` up, innermost binding first, returning a copy of its
    /// entry: `Some` exactly when the name is bound, and then the
    /// innermost binder filed under it.
    #[verifier::loop_isolation(false)]
    pub fn get(&self, name: &String) -> (r: Option<Binder>)
        ensures
            r is Some <==> scope_find(self.items@, name@) is Some,
            r matches Some(b) ==> (scope_find(self.items@, name@) matches Some(i) && 0 <= i
                < self.items@.len() && b.binder.id == self.items@[i].1.binder.id
                && b.binder.name@ == self.items@[i].1.binder.name@ && tyv(b.ty) == tyv(
                self.items@[i].1.ty,
            )),
            r matches Some(b) ==> exists|i: int|
                0 <= i < self.items@.len() && tyv(b.ty) == tyv(
                    (#[trigger] self.items@[i]).1.ty,
                ),
    {
        let mut j: usize = self.items.len();
        while j > 0
            invariant
                j <= self.items@.len(),
                forall|k: int| j <= k < self.items@.len() ==> (#[trigger] self.items@[k]).0@
                    != name@,
            decreases j,
        {
            j -= 1;
            if self.items[j].0.eq(name) {
                let b = Binder {
                    binder: self.items[j].1.binder.duplicate(),
                    ty: clone_type(&self.items[j].1.ty),
                };
                proof {
                    lemma_scope_find_prefix(self.items@, name@, j + 1);
                    assert(self.items@.subrange(0, j + 1).last() == self.items@[j as int]);
                    assert(self.items@.subrange(0, j + 1).last().0@ == name@);
                    assert(scope_find(self.items@, name@) == Some(j as int));
                }
                return Some(b);
            }
        }
        proof {
            lemma_scope_find_prefix(self.items@, name@, 0);
            assert(self.items@.subrange(0, 0) =~= Seq::<(String, Binder)>::empty());
        }
        None
    }
}

/// Size of an expression, the measure for checking it; it also bounds
/// how many fresh type variables its checking can allocate.
pub open spec fn expr_size(e: crate::ast::Expr) -> nat
    decreases e,
{
    match e {
        crate::ast::Expr::Unit => 1,
        crate::ast::Expr::Bool(_) => 1,
        crate::ast::Expr::Int(_) => 1,
        crate::ast::Expr::Float(_) => 1,
        crate::ast::Expr::Var(_) => 1,
        crate::ast::Expr::Not(a) => 1 + expr_size(*a),
        crate::ast::Expr::Neg(a) => 1 + expr_size(*a),
        crate::ast::Expr::FNeg(a) => 1 + expr_size(*a),
        crate::ast::Expr::Add(a, b) => 1 + expr_size(*a) + expr_size(*b),
        crate::ast::Expr::Sub(a, b) => 1 + expr_size(*a) + expr_size(*b),
        crate::ast::Expr::FAdd(a, b) => 1 + expr_size(*a) + expr_size(*b),
        crate::ast::Expr::FSub(a, b) => 1 + expr_size(*a) + expr_size(*b),
        crate::ast::Expr::FMul(a, b) => 1 + expr_size(*a) + expr_size(*b),
        crate::ast::Expr::FDiv(a, b) => 1 + expr_size(*a) + expr_size(*b),
        crate::ast::Expr::Eq(a, b) => 1 + expr_size(*a) + expr_size(*b),
        crate::ast::Expr::Le(a, b) => 1 + expr_size(*a) + expr_size(*b),
        crate::ast::Expr::Array(a, b) => 2 + expr_size(*a) + expr_size(*b),
        crate::ast::Expr::Get(a, b) => 2 + expr_size(*a) + expr_size(*b),
        crate::ast::Expr::If(a, b, c) => 1 + expr_size(*a) + expr_size(*b) + expr_size(*c),
        crate::ast::Expr::Put(a, b, c) => 2 + expr_size(*a) + expr_size(*b) + expr_size(*c),
        crate::ast::Expr::Let { bndr: _, rhs, body } => 2 + expr_size(*rhs) + expr_size(*body),
        crate::ast::Expr::LetRec { bndr: _, args, rhs, body } => 2 + args@.len() + expr_size(*rhs)
            + expr_size(*body),
        crate::ast::Expr::App { fun, args } => 2 + expr_size(*fun) + exprs_size(args@),
        crate::ast::Expr::Tuple(args) => 1 + exprs_size(args@),
        crate::ast::Expr::LetTuple { bndrs, rhs, body } => 2 + bndrs@.len() + expr_size(*rhs)
            + expr_size(*body),
    }
}

/// Total size of a sequence of expressions.
pub open spec fn exprs_size(s: Seq<crate::ast::Expr>) -> nat
    decreases s,
{
    if s.len() == 0 {
        0
    } else {
        expr_size(s[0]) + exprs_size(s.subrange(1, s.len() as int))
    }
}

/// An element never outweighs the whole sequence.
pub proof fn lemma_exprs_size_index(s: Seq<crate::ast::Expr>, i: int)
    requires
        0 <= i < s.len(),
    ensures
        expr_size(s[i]) <= exprs_size(s),
    decreases s,
{
    if i > 0 {
        lemma_exprs_size_index(s.subrange(1, s.len() as int), i - 1);
    }
}

/// Splitting a suffix at its head.
pub proof fn lemma_exprs_size_suffix(s: Seq<crate::ast::Expr>, j: int)
    requires
        0 <= j < s.len(),
    ensures
        exprs_size(s.subrange(j, s.len() as int)) == expr_size(s[j]) + exprs_size(
            s.subrange(j + 1, s.len() as int),
        ),
{
    let suf = s.subrange(j, s.len() as int);
    assert(suf[0] == s[j]);
    assert(suf.subrange(1, suf.len() as int) =~= s.subrange(j + 1, s.len() as int));
}

/// Deep copy of a vector of types.
#[verifier::loop_isolation(false)]
pub fn clone_types(ts: &Vec<Type>) -> (r: Vec<Type>)
    ensures
        r@.len() == ts@.len(),
        tyv_seq(r@) == tyv_seq(ts@),
        forall|k: int| 0 <= k < ts@.len() ==> tyv(#[trigger] r@[k]) == tyv(ts@[k]),
{
    let mut out: Vec<Type> = Vec::new();
    let mut j: usize = 0;
    while j < ts.len()
        invariant
            j <= ts@.len(),
            out@.len() == j as nat,
            forall|k: int| 0 <= k < j ==> tyv(#[trigger] out@[k]) == tyv(ts@[k]),
        decreases ts@.len() - j,
    {
        let c = clone_type(&ts[j]);
        out.push(c);
        j += 1;
    }
    proof {
        lemma_tyv_seq(out@);
        lemma_tyv_seq(ts@);
        assert(tyv_seq(out@) =~= tyv_seq(ts@));
    }
    out
}

/// Deep copy of a vector of binders.
#[verifier::loop_isolation(false)]
fn dup_vars(vs: &Vec<crate::ast::Var>) -> (r: Vec<crate::ast::Var>)
    ensures
        r@.len() == vs@.len(),
{
    let mut out: Vec<crate::ast::Var> = Vec::new();
    let mut j: usize = 0;
    while j < vs.len()
        invariant
            j <= vs@.len(),
            out@.len() == j as nat,
        decreases vs@.len() - j,
    {
        let c = vs[j].duplicate();
        out.push(c);
        j += 1;
    }
    out
}

/// Check `e` and unify its type with the expected ground type.
#[verifier::loop_isolation(false)]
#[verifier::rlimit(60)]
fn check_expect(
    m: SubstEnv,
    ty_env: &mut TypeEnv,
    scope: &mut Scope,
    e: &crate::ast::Expr,
    expected: &Type,
) -> (res: (SubstEnv, Result<crate::ast::Expr, TypeErr>))
    requires
        wf_subst(sv(m@)),
        scope_wf(*old(scope), m@.len() as int),
        env_wf(old(ty_env)@, m@.len() as int),
        m@.len() + expr_size(*e) < 0xffff_ffff,
        ground(tyv(*expected)),
    ensures
        m@.len() <= res.0@.len(),
        res.0@.len() <= m@.len() + expr_size(*e),
        wf_subst(sv(res.0@)),
        subst_extends(sv(res.0@), sv(m@)),
        final(scope).items@ == old(scope).items@,
        final(scope).marks@ == old(scope).marks@,
        scope_wf(*final(scope), res.0@.len() as int),
        env_wf(final(ty_env)@, res.0@.len() as int),
        seq_ext(old(ty_env)@, final(ty_env)@),
    decreases expr_size(*e), 2nat,
{
    let ghost g0 = sv(m@);
    let (m, r) = type_check(m, ty_env, scope, e);
    let p = match r {
        Ok(p) => p,
        Err(e2) => {
            return (m, Err(e2));
        },
    };
    let ghost g1 = sv(m@);
    proof {
        lemma_ground_vars_below(tyv(*expected), g1.len() as int);
    }
    let (m, u) = unify(m, expected, &p.0);
    proof {
        lemma_extends_trans(sv(m@), g1, g0);
    }
    match u {
        Ok(()) => (m, Ok(p.1)),
        Err(e2) => (m, Err(e2)),
    }
}

/// Infer the type of `expr` in the given scope, extending the
/// substitution environment and recording binder types, and return the
/// type together with the expression with variable occurrences rewritten
/// to their binders.
#[verifier::loop_isolation(false)]
#[verifier::rlimit(100)]
pub fn type_check(
    m: SubstEnv,
    ty_env: &mut TypeEnv,
    scope: &mut Scope,
    expr: &crate::ast::Expr,
) -> (res: (SubstEnv, Result<(Type, crate::ast::Expr), TypeErr>))
    requires
        wf_subst(sv(m@)),
        scope_wf(*old(scope), m@.len() as int),
        env_wf(old(ty_env)@, m@.len() as int),
        m@.len() + expr_size(*expr) < 0xffff_ffff,
    ensures
        m@.len() <= res.0@.len(),
        res.0@.len() <= m@.len() + expr_size(*expr),
        wf_subst(sv(res.0@)),
        subst_extends(sv(res.0@), sv(m@)),
        final(scope).items@ == old(scope).items@,
        final(scope).marks@ == old(scope).marks@,
        scope_wf(*final(scope), res.0@.len() as int),
        env_wf(final(ty_env)@, res.0@.len() as int),
        seq_ext(old(ty_env)@, final(ty_env)@),
        res.1 matches Ok(p) ==> vars_below(tyv(p.0), res.0@.len() as int),
        expr is Unit ==> (res.1 matches Ok(p) && tyv(p.0) == Ty::Unit),
        expr is Bool ==> (res.1 matches Ok(p) && tyv(p.0) == Ty::Bool),
        expr is Int ==> (res.1 matches Ok(p) && tyv(p.0) == Ty::Int),
        expr is Float ==> (res.1 matches Ok(p) && tyv(p.0) == Ty::Float),
        (expr is Not || expr is Eq || expr is Le) ==> (res.1 matches Ok(p) ==> tyv(p.0) == Ty::Bool),
        (expr is Neg || expr is Add || expr is Sub) ==> (res.1 matches Ok(p) ==> tyv(p.0) == Ty::Int),
        (expr is FNeg || expr is FAdd || expr is FSub || expr is FMul || expr is FDiv) ==> (res.1 matches Ok(p) ==> tyv(p.0) == Ty::Float),
        expr is Put ==> (res.1 matches Ok(p) ==> tyv(p.0) == Ty::Unit),
        expr is Array ==> (res.1 matches Ok(p) ==> tyv(p.0) is Array),
        expr is Tuple ==> (res.1 matches Ok(p) ==> tyv(p.0) is Tuple),
        expr matches Expr::Var(v2) ==> (res.1 is Ok <==> scope_find(
            old(scope).items@,
            v2.name@,
        ) is Some),
        expr matches Expr::Var(v2) ==> (res.1 matches Err(er2) ==> (er2 matches
            TypeErr::UnboundVar(u) && u.id == v2.id && u.name@ == v2.name@)),
        expr matches Expr::Var(v2) ==> (scope_find(old(scope).items@, v2.name@) matches Some(
            i,
        ) ==> (res.1 matches Ok(p) && tyv(p.0) == tyv(old(scope).items@[i].1.ty))),
    decreases expr_size(*expr), 1nat,
{
    let ghost g0 = sv(m@);
    proof {
        lemma_extends_refl(g0);
    }
    match expr {
        Expr::Unit => (m, Ok((Type::Unit, Expr::Unit))),
        Expr::Bool(b) => (m, Ok((Type::Bool, Expr::Bool(*b)))),
        Expr::Int(i) => (m, Ok((Type::Int, Expr::Int(*i)))),
        Expr::Float(f) => (m, Ok((Type::Float, Expr::Float(*f)))),
        Expr::Not(e) => {
            let (m, r) = check_expect(m, ty_env, scope, &**e, &Type::Bool);
            match r {
                Ok(n) => (m, Ok((Type::Bool, Expr::Not(Box::new(n))))),
                Err(er) => (m, Err(er)),
            }
        },
        Expr::Neg(e) => {
            let (m, r) = check_expect(m, ty_env, scope, &**e, &Type::Int);
            match r {
                Ok(n) => (m, Ok((Type::Int, Expr::Neg(Box::new(n))))),
                Err(er) => (m, Err(er)),
            }
        },
        Expr::FNeg(e) => {
            let (m, r) = check_expect(m, ty_env, scope, &**e, &Type::Float);
            match r {
                Ok(n) => (m, Ok((Type::Float, Expr::FNeg(Box::new(n))))),
                Err(er) => (m, Err(er)),
            }
        },
        Expr::Add(e1, e2) => {
            let (m, r1) = check_expect(m, ty_env, scope, &**e1, &Type::Int);
            let n1 = match r1 {
                Ok(n) => n,
                Err(er) => {
                    return (m, Err(er));
                },
            };
            let ghost g1 = sv(m@);
            let (m, r2) = check_expect(m, ty_env, scope, &**e2, &Type::Int);
            proof {
                lemma_extends_trans(sv(m@), g1, g0);
            }
            match r2 {
                Ok(n2) => (m, Ok((Type::Int, Expr::Add(Box::new(n1), Box::new(n2))))),
                Err(er) => (m, Err(er)),
            }
        },
        Expr::Sub(e1, e2) => {
            let (m, r1) = check_expect(m, ty_env, scope, &**e1, &Type::Int);
            let n1 = match r1 {
                Ok(n) => n,
                Err(er) => {
                    return (m, Err(er));
                },
            };
            let ghost g1 = sv(m@);
            let (m, r2) = check_expect(m, ty_env, scope, &**e2, &Type::Int);
            proof {
                lemma_extends_trans(sv(m@), g1, g0);
            }
            match r2 {
                Ok(n2) => (m, Ok((Type::Int, Expr::Sub(Box::new(n1), Box::new(n2))))),
                Err(er) => (m, Err(er)),
            }
        },
        Expr::FAdd(e1, e2) => {
            let (m, r1) = check_expect(m, ty_env, scope, &**e1, &Type::Float);
            let n1 = match r1 {
                Ok(n) => n,
                Err(er) => {
                    return (m, Err(er));
                },
            };
            let ghost g1 = sv(m@);
            let (m, r2) = check_expect(m, ty_env, scope, &**e2, &Type::Float);
            proof {
                lemma_extends_trans(sv(m@), g1, g0);
            }
            match r2 {
                Ok(n2) => (m, Ok((Type::Float, Expr::FAdd(Box::new(n1), Box::new(n2))))),
                Err(er) => (m, Err(er)),
            }
        },
        Expr::FSub(e1, e2) => {
            let (m, r1) = check_expect(m, ty_env, scope, &**e1, &Type::Float);
            let n1 = match r1 {
                Ok(n) => n,
                Err(er) => {
                    return (m, Err(er));
                },
            };
            let ghost g1 = sv(m@);
            let (m, r2) = check_expect(m, ty_env, scope, &**e2, &Type::Float);
            proof {
                lemma_extends_trans(sv(m@), g1, g0);
            }
            match r2 {
                Ok(n2) => (m, Ok((Type::Float, Expr::FSub(Box::new(n1), Box::new(n2))))),
                Err(er) => (m, Err(er)),
            }
        },
        Expr::FMul(e1, e2) => {
            let (m, r1) = check_expect(m, ty_env, scope, &**e1, &Type::Float);
            let n1 = match r1 {
                Ok(n) => n,
                Err(er) => {
                    return (m, Err(er));
                },
            };
            let ghost g1 = sv(m@);
            let (m, r2) = check_expect(m, ty_env, scope, &**e2, &Type::Float);
            proof {
                lemma_extends_trans(sv(m@), g1, g0);
            }
            match r2 {
                Ok(n2) => (m, Ok((Type::Float, Expr::FMul(Box::new(n1), Box::new(n2))))),
                Err(er) => (m, Err(er)),
            }
        },
        Expr::FDiv(e1, e2) => {
            let (m, r1) = check_expect(m, ty_env, scope, &**e1, &Type::Float);
            let n1 = match r1 {
                Ok(n) => n,
                Err(er) => {
                    return (m, Err(er));
                },
            };
            let ghost g1 = sv(m@);
            let (m, r2) = check_expect(m, ty_env, scope, &**e2, &Type::Float);
            proof {
                lemma_extends_trans(sv(m@), g1, g0);
            }
            match r2 {
                Ok(n2) => (m, Ok((Type::Float, Expr::FDiv(Box::new(n1), Box::new(n2))))),
                Err(er) => (m, Err(er)),
            }
        },
        Expr::Var(var) => {
            match scope.get(&var.name) {
                Some(b) => {
                    proof {
                        let i = choose|i: int|
                            0 <= i < scope.items@.len() && tyv(b.ty) == tyv(
                                (#[trigger] scope.items@[i]).1.ty,
                            );
                        assert(vars_below(tyv(scope.items@[i].1.ty), sv(m@).len() as int));
                    }
                    (m, Ok((b.ty, Expr::Var(b.binder))))
                },
                None => (m, Err(TypeErr::UnboundVar(var.duplicate()))),
            }
        },
        Expr::Eq(_, _) => type_check_forms(m, ty_env, scope, expr),
        Expr::Le(_, _) => type_check_forms(m, ty_env, scope, expr),
        Expr::If(_, _, _) => type_check_forms(m, ty_env, scope, expr),
        Expr::Let { .. } => type_check_forms(m, ty_env, scope, expr),
        Expr::LetRec { .. } => type_check_binds(m, ty_env, scope, expr),
        Expr::LetTuple { .. } => type_check_binds(m, ty_env, scope, expr),
        _ => type_check_rest(m, ty_env, scope, expr),
    }
}

/// The recursive and tuple binding forms of `type_check`.
#[verifier::loop_isolation(false)]
#[verifier::rlimit(100)]
fn type_check_binds(
    m: SubstEnv,
    ty_env: &mut TypeEnv,
    scope: &mut Scope,
    expr: &crate::ast::Expr,
) -> (res: (SubstEnv, Result<(Type, crate::ast::Expr), TypeErr>))
    requires
        wf_subst(sv(m@)),
        scope_wf(*old(scope), m@.len() as int),
        env_wf(old(ty_env)@, m@.len() as int),
        m@.len() + expr_size(*expr) < 0xffff_ffff,
        expr is LetRec || expr is LetTuple,
    ensures
        m@.len() <= res.0@.len(),
        res.0@.len() <= m@.len() + expr_size(*expr),
        wf_subst(sv(res.0@)),
        subst_extends(sv(res.0@), sv(m@)),
        final(scope).items@ == old(scope).items@,
        final(scope).marks@ == old(scope).marks@,
        scope_wf(*final(scope), res.0@.len() as int),
        env_wf(final(ty_env)@, res.0@.len() as int),
        seq_ext(old(ty_env)@, final(ty_env)@),
        res.1 matches Ok(p) ==> vars_below(tyv(p.0), res.0@.len() as int),
    decreases expr_size(*expr), 0nat,
{
    let ghost g0 = sv(m@);
    match expr {
        Expr::LetRec { bndr, args, rhs, body } => {
            proof {
                lemma_extends_refl(g0);
            }
            let mut m = m;
            let mut arg_tys: Vec<Type> = Vec::new();
            let mut j: usize = 0;
            while j < args.len()
                invariant
                    j <= args@.len(),
                    g0.len() <= sv(m@).len(),
                    sv(m@).len() <= g0.len() + j as nat,
                    wf_subst(sv(m@)),
                    subst_extends(sv(m@), g0),
                    arg_tys@.len() == j as nat,
                    g0.len() + expr_size(*expr) < 0xffff_ffff,
                    forall|k: int|
                        0 <= k < j ==> vars_below(
                            tyv(#[trigger] arg_tys@[k]),
                            sv(m@).len() as int,
                        ),
                decreases args@.len() - j,
            {
                let ghost gp = sv(m@);
                let v = fresh_tyvar(&mut m);
                proof {
                    lemma_extends_trans(sv(m@), gp, g0);
                    assert forall|k: int|
                        0 <= k < j implies vars_below(
                        tyv(#[trigger] arg_tys@[k]),
                        sv(m@).len() as int,
                    ) by {
                        lemma_vars_below_mono(
                            tyv(arg_tys@[k]),
                            gp.len() as int,
                            sv(m@).len() as int,
                        );
                    }
                }
                arg_tys.push(Type::Var(v));
                j += 1;
            }
            let ghost gl = sv(m@);
            let rv = fresh_tyvar(&mut m);
            let ghost g1 = sv(m@);
            proof {
                lemma_extends_trans(g1, gl, g0);
                lemma_scope_wf_mono(*scope, g0.len() as int, g1.len() as int);
                lemma_env_wf_mono(ty_env@, g0.len() as int, g1.len() as int);
                assert forall|k: int|
                    0 <= k < arg_tys@.len() implies vars_below(
                    tyv(#[trigger] arg_tys@[k]),
                    g1.len() as int,
                ) by {
                    lemma_vars_below_mono(tyv(arg_tys@[k]), (g1.len() - 1) as int, g1.len() as int);
                }
            }
            let fun_ty = Type::Fun { args: clone_types(&arg_tys), ret: Box::new(Type::Var(rv)) };
            proof {
                match &fun_ty {
                    Type::Fun { args: ats, ret: _ } => {
                        assert forall|k: int|
                            0 <= k < ats@.len() implies vars_below(
                            tyv(#[trigger] ats@[k]),
                            g1.len() as int,
                        ) by {
                            lemma_vars_below_mono(
                                tyv(arg_tys@[k]),
                                (g1.len() - 1) as int,
                                g1.len() as int,
                            );
                        }
                        lemma_fun_vars_below(ats@, rv as int, g1.len() as int);
                        assert(tyv(Type::Var(rv)) == Ty::Var(rv as int));
                        assert(tyv(fun_ty) == Ty::Fun {
                            args: tyv_seq(ats@),
                            ret: Box::new(Ty::Var(rv as int)),
                        });
                    },
                    _ => {},
                }
                assert(vars_below(tyv(fun_ty), g1.len() as int));
            }
            let ghost env_pre = ty_env@;
            ty_env.push((bndr.id, clone_type(&fun_ty)));
            proof {
                assert forall|i: int|
                    0 <= i < ty_env@.len() implies vars_below(
                    tyv((#[trigger] ty_env@[i]).1),
                    g1.len() as int,
                ) by {
                    if i < env_pre.len() {
                        assert(ty_env@[i] == env_pre[i]);
                    }
                }
            }
            scope.new_scope();
            let ghost s1 = *scope;
            scope.add(
                bndr.name.clone(),
                Binder { binder: bndr.duplicate(), ty: clone_type(&fun_ty) },
            );
            let ghost s2 = *scope;
            proof {
                lemma_scope_wf_same_items(*old(scope), s1, g0.len() as int);
                lemma_scope_wf_mono(s1, g0.len() as int, g1.len() as int);
                lemma_scope_wf_push(s1, s2, g1.len() as int);
            }
            scope.new_scope();
            let mut j2: usize = 0;
            while j2 < args.len()
                invariant
                    j2 <= args@.len(),
                    args@.len() == arg_tys@.len(),
                    scope.items@.len() == old(scope).items@.len() + 1 + j2 as nat,
                    forall|k: int|
                        0 <= k < old(scope).items@.len() + 1 ==> #[trigger] scope.items@[k]
                            == s2.items@[k],
                    scope.marks@.len() == old(scope).marks@.len() + 2,
                    scope.marks@.last() as int == old(scope).items@.len() + 1,
                    scope.marks@.drop_last().last() as int == old(scope).items@.len() as int,
                    scope.marks@.drop_last().drop_last() == old(scope).marks@,
                    scope_wf(*scope, g1.len() as int),
                decreases args@.len() - j2,
            {
                let ghost sp = *scope;
                scope.add(
                    args[j2].name.clone(),
                    Binder { binder: args[j2].duplicate(), ty: clone_type(&arg_tys[j2]) },
                );
                proof {
                    lemma_scope_wf_push(sp, *scope, g1.len() as int);
                    assert forall|k: int|
                        0 <= k < old(scope).items@.len() + 1 implies #[trigger] scope.items@[k]
                        == s2.items@[k] by {
                        assert(scope.items@[k] == scope.items@.drop_last()[k]);
                    }
                }
                j2 += 1;
            }
            proof {
                assert(sv(m@) == g1);
                assert(wf_subst(sv(m@)));
                assert(scope_wf(*scope, sv(m@).len() as int));
                assert(env_wf(ty_env@, sv(m@).len() as int));
                assert(sv(m@).len() + expr_size(**rhs) < 0xffff_ffff);
            }
            let (m, r1) = type_check(m, ty_env, scope, &**rhs);
            proof {
                assert(subst_extends(sv(m@), g1));
                lemma_extends_trans(sv(m@), g1, g0);
            }
            let p1 = match r1 {
                Ok(p) => p,
                Err(er) => {
                    let ghost sa = *scope;
                    scope.pop_scope();
                    let ghost sb = *scope;
                    scope.pop_scope();
                    proof {
                        assert forall|k: int|
                            0 <= k < old(scope).items@.len() implies #[trigger] scope.items@[k]
                            == old(scope).items@[k] by {
                            assert(scope.items@[k] == sb.items@[k]);
                            assert(sb.items@[k] == sa.items@[k]);
                            assert(sa.items@[k] == s2.items@[k]);
                            assert(s2.items@[k] == s2.items@.drop_last()[k]);
                        }
                        assert(scope.items@ =~= old(scope).items@);
                        assert(scope.marks@ =~= old(scope).marks@);
                        lemma_scope_wf_same_items(*old(scope), *scope, g0.len() as int);
                        lemma_scope_wf_mono(*scope, g0.len() as int, sv(m@).len() as int);
                    }
                    return (m, Err(er));
                },
            };
            let ghost g2 = sv(m@);
            let rv_ty = Type::Var(rv);
            let (m, u) = unify(m, &rv_ty, &p1.0);
            proof {
                lemma_extends_trans(sv(m@), g2, g0);
            }
            let ghost sa = *scope;
            scope.pop_scope();
            proof {
                assert forall|k: int|
                    0 <= k < old(scope).items@.len() + 1 implies #[trigger] scope.items@[k]
                    == s2.items@[k] by {
                    assert(scope.items@[k] == sa.items@[k]);
                }
                assert(scope.items@ =~= s2.items@);
                lemma_scope_wf_same_items(s2, *scope, g1.len() as int);
            }
            if let Err(er) = u {
                let ghost sb = *scope;
                scope.pop_scope();
                proof {
                    assert forall|k: int|
                        0 <= k < old(scope).items@.len() implies #[trigger] scope.items@[k]
                        == old(scope).items@[k] by {
                        assert(scope.items@[k] == sb.items@[k]);
                        assert(sb.items@[k] == s2.items@[k]);
                        assert(s2.items@[k] == s2.items@.drop_last()[k]);
                    }
                    assert(scope.items@ =~= old(scope).items@);
                    assert(scope.marks@ =~= old(scope).marks@);
                    lemma_scope_wf_same_items(*old(scope), *scope, g0.len() as int);
                    lemma_scope_wf_mono(*scope, g0.len() as int, sv(m@).len() as int);
                }
                return (m, Err(er));
            }
            let ghost g3 = sv(m@);
            proof {
                lemma_scope_wf_mono(*scope, g1.len() as int, g3.len() as int);
            }
            let (m, r2) = type_check(m, ty_env, scope, &**body);
            proof {
                lemma_extends_trans(sv(m@), g3, g0);
            }
            let ghost sb = *scope;
            scope.pop_scope();
            proof {
                assert forall|k: int|
                    0 <= k < old(scope).items@.len() implies #[trigger] scope.items@[k]
                    == old(scope).items@[k] by {
                    assert(scope.items@[k] == sb.items@[k]);
                    assert(sb.items@[k] == s2.items@[k]);
                    assert(s2.items@[k] == s2.items@.drop_last()[k]);
                }
                assert(scope.items@ =~= old(scope).items@);
                assert(scope.marks@ =~= old(scope).marks@);
                lemma_scope_wf_same_items(*old(scope), *scope, g0.len() as int);
                lemma_scope_wf_mono(*scope, g0.len() as int, sv(m@).len() as int);
            }
            match r2 {
                Ok(p2) => (
                    m,
                    Ok(
                        (
                            p2.0,
                            Expr::LetRec {
                                bndr: bndr.duplicate(),
                                args: dup_vars(args),
                                rhs: Box::new(p1.1),
                                body: Box::new(p2.1),
                            },
                        ),
                    ),
                ),
                Err(er) => (m, Err(er)),
            }
        },
        Expr::LetTuple { bndrs, rhs, body } => {
            let ghost genv0 = ty_env@;
            proof {
                lemma_extends_refl(g0);
            }
            let mut m = m;
            let mut arg_tys: Vec<Type> = Vec::new();
            let mut j: usize = 0;
            while j < bndrs.len()
                invariant
                    j <= bndrs@.len(),
                    g0.len() <= sv(m@).len(),
                    sv(m@).len() <= g0.len() + j as nat,
                    wf_subst(sv(m@)),
                    subst_extends(sv(m@), g0),
                    arg_tys@.len() == j as nat,
                    g0.len() + expr_size(*expr) < 0xffff_ffff,
                    env_wf(ty_env@, sv(m@).len() as int),
                    seq_ext(genv0, ty_env@),
                    forall|k: int|
                        0 <= k < j ==> vars_below(
                            tyv(#[trigger] arg_tys@[k]),
                            sv(m@).len() as int,
                        ),
                decreases bndrs@.len() - j,
            {
                let ghost gp = sv(m@);
                let v = fresh_tyvar(&mut m);
                proof {
                    lemma_extends_trans(sv(m@), gp, g0);
                    lemma_env_wf_mono(ty_env@, gp.len() as int, sv(m@).len() as int);
                    assert forall|k: int|
                        0 <= k < j implies vars_below(
                        tyv(#[trigger] arg_tys@[k]),
                        sv(m@).len() as int,
                    ) by {
                        lemma_vars_below_mono(
                            tyv(arg_tys@[k]),
                            gp.len() as int,
                            sv(m@).len() as int,
                        );
                    }
                }
                let ghost env_pre = ty_env@;
                ty_env.push((bndrs[j].id, Type::Var(v)));
                proof {
                    assert(tyv(Type::Var(v)) == Ty::Var(v as int));
                    assert forall|i: int|
                        0 <= i < ty_env@.len() implies vars_below(
                        tyv((#[trigger] ty_env@[i]).1),
                        sv(m@).len() as int,
                    ) by {
                        if i < env_pre.len() {
                            assert(ty_env@[i] == env_pre[i]);
                        }
                    }
                }
                arg_tys.push(Type::Var(v));
                j += 1;
            }
            let ghost g1 = sv(m@);
            proof {
                lemma_scope_wf_mono(*scope, g0.len() as int, g1.len() as int);
            }
            let tuple_ty = Type::Tuple(clone_types(&arg_tys));
            proof {
                match &tuple_ty {
                    Type::Tuple(ats) => {
                        assert forall|k: int|
                            0 <= k < ats@.len() implies vars_below(
                            tyv(#[trigger] ats@[k]),
                            g1.len() as int,
                        ) by {
                            assert(tyv(ats@[k]) == tyv(arg_tys@[k]));
                        }
                        lemma_tuple_vars_below(ats@, g1.len() as int);
                    },
                    _ => {},
                }
                assert(vars_below(tyv(tuple_ty), g1.len() as int));
            }
            let (m, r1) = type_check(m, ty_env, scope, &**rhs);
            proof {
                lemma_extends_trans(sv(m@), g1, g0);
            }
            let p1 = match r1 {
                Ok(p) => p,
                Err(er) => {
                    return (m, Err(er));
                },
            };
            let ghost g2 = sv(m@);
            proof {
                lemma_vars_below_mono(tyv(tuple_ty), g1.len() as int, g2.len() as int);
            }
            let (m, u) = unify(m, &p1.0, &tuple_ty);
            proof {
                lemma_extends_trans(sv(m@), g2, g0);
            }
            if let Err(er) = u {
                return (m, Err(er));
            }
            scope.new_scope();
            let ghost s1 = *scope;
            proof {
                lemma_scope_wf_same_items(*old(scope), s1, g0.len() as int);
                lemma_scope_wf_mono(s1, g0.len() as int, g1.len() as int);
            }
            let mut j2: usize = 0;
            while j2 < bndrs.len()
                invariant
                    j2 <= bndrs@.len(),
                    bndrs@.len() == arg_tys@.len(),
                    scope.items@.len() == old(scope).items@.len() + j2 as nat,
                    forall|k: int|
                        0 <= k < old(scope).items@.len() ==> #[trigger] scope.items@[k]
                            == old(scope).items@[k],
                    scope.marks@.len() == old(scope).marks@.len() + 1,
                    scope.marks@.last() as int == old(scope).items@.len() as int,
                    scope.marks@.drop_last() == old(scope).marks@,
                    scope_wf(*scope, g1.len() as int),
                decreases bndrs@.len() - j2,
            {
                let ghost sp = *scope;
                scope.add(
                    bndrs[j2].name.clone(),
                    Binder { binder: bndrs[j2].duplicate(), ty: clone_type(&arg_tys[j2]) },
                );
                proof {
                    lemma_scope_wf_push(sp, *scope, g1.len() as int);
                    assert forall|k: int|
                        0 <= k < old(scope).items@.len() implies #[trigger] scope.items@[k]
                        == old(scope).items@[k] by {
                        assert(scope.items@[k] == scope.items@.drop_last()[k]);
                    }
                }
                j2 += 1;
            }
            let ghost g3 = sv(m@);
            proof {
                lemma_scope_wf_mono(*scope, g1.len() as int, g3.len() as int);
            }
            let (m, r2) = type_check(m, ty_env, scope, &**body);
            proof {
                lemma_extends_trans(sv(m@), g3, g0);
            }
            let ghost sb = *scope;
            scope.pop_scope();
            proof {
                assert forall|k: int|
                    0 <= k < old(scope).items@.len() implies #[trigger] scope.items@[k]
                    == old(scope).items@[k] by {
                    assert(scope.items@[k] == sb.items@[k]);
                }
                assert(scope.items@ =~= old(scope).items@);
                assert(scope.marks@ =~= old(scope).marks@);
                lemma_scope_wf_same_items(*old(scope), *scope, g0.len() as int);
                lemma_scope_wf_mono(*scope, g0.len() as int, sv(m@).len() as int);
            }
            match r2 {
                Ok(p2) => (
                    m,
                    Ok(
                        (
                            p2.0,
                            Expr::LetTuple {
                                bndrs: dup_vars(bndrs),
                                rhs: Box::new(p1.1),
                                body: Box::new(p2.1),
                            },
                        ),
                    ),
                ),
                Err(er) => (m, Err(er)),
            }
        },
        _ => {
            proof {
                assert(false);
            }
            (m, Err(TypeErr::UnifyError(Type::Unit, Type::Unit)))
        },
    }
}

/// The binding and application forms of `type_check`.
#[verifier::loop_isolation(false)]
#[verifier::rlimit(100)]
fn type_check_rest(
    m: SubstEnv,
    ty_env: &mut TypeEnv,
    scope: &mut Scope,
    expr: &crate::ast::Expr,
) -> (res: (SubstEnv, Result<(Type, crate::ast::Expr), TypeErr>))
    requires
        wf_subst(sv(m@)),
        scope_wf(*old(scope), m@.len() as int),
        env_wf(old(ty_env)@, m@.len() as int),
        m@.len() + expr_size(*expr) < 0xffff_ffff,
        expr is App || expr is Tuple || expr is Array || expr is Get || expr is Put,
    ensures
        m@.len() <= res.0@.len(),
        res.0@.len() <= m@.len() + expr_size(*expr),
        wf_subst(sv(res.0@)),
        subst_extends(sv(res.0@), sv(m@)),
        final(scope).items@ == old(scope).items@,
        final(scope).marks@ == old(scope).marks@,
        scope_wf(*final(scope), res.0@.len() as int),
        env_wf(final(ty_env)@, res.0@.len() as int),
        seq_ext(old(ty_env)@, final(ty_env)@),
        res.1 matches Ok(p) ==> vars_below(tyv(p.0), res.0@.len() as int),
        expr is Put ==> (res.1 matches Ok(p) ==> tyv(p.0) == Ty::Unit),
        expr is Array ==> (res.1 matches Ok(p) ==> tyv(p.0) is Array),
        expr is Tuple ==> (res.1 matches Ok(p) ==> tyv(p.0) is Tuple),
    decreases expr_size(*expr), 0nat,
{
    let ghost g0 = sv(m@);
    match expr {
        Expr::Array(e1, e2) => {
            let (m, r1) = check_expect(m, ty_env, scope, &**e1, &Type::Int);
            let n1 = match r1 {
                Ok(n) => n,
                Err(er) => {
                    return (m, Err(er));
                },
            };
            let ghost g1 = sv(m@);
            let (m, r2) = type_check(m, ty_env, scope, &**e2);
            proof {
                lemma_extends_trans(sv(m@), g1, g0);
            }
            match r2 {
                Ok(p2) => (
                    m,
                    Ok(
                        (
                            Type::Array(Box::new(p2.0)),
                            Expr::Array(Box::new(n1), Box::new(p2.1)),
                        ),
                    ),
                ),
                Err(er) => (m, Err(er)),
            }
        },
        Expr::Get(e1, e2) => {
            let mut m = m;
            let ev = fresh_tyvar(&mut m);
            let ghost g1 = sv(m@);
            proof {
                lemma_scope_wf_mono(*scope, g0.len() as int, g1.len() as int);
                lemma_env_wf_mono(ty_env@, g0.len() as int, g1.len() as int);
            }
            let (m, r1) = type_check(m, ty_env, scope, &**e1);
            proof {
                lemma_extends_trans(sv(m@), g1, g0);
            }
            let p1 = match r1 {
                Ok(p) => p,
                Err(er) => {
                    return (m, Err(er));
                },
            };
            let ghost g2 = sv(m@);
            let arr_ty = Type::Array(Box::new(Type::Var(ev)));
            proof {
                assert(tyv(Type::Var(ev)) == Ty::Var(ev as int));
                assert(tyv(arr_ty) == Ty::Array(Box::new(Ty::Var(ev as int))));
                assert(*Box::new(Ty::Var(ev as int)) == Ty::Var(ev as int));
                assert(vars_below(Ty::Var(ev as int), g2.len() as int));
                assert(vars_below(tyv(arr_ty), g2.len() as int));
            }
            let (m, u) = unify(m, &p1.0, &arr_ty);
            proof {
                lemma_extends_trans(sv(m@), g2, g0);
            }
            if let Err(er) = u {
                return (m, Err(er));
            }
            let ghost g3 = sv(m@);
            let (m, r2) = check_expect(m, ty_env, scope, &**e2, &Type::Int);
            proof {
                lemma_extends_trans(sv(m@), g3, g0);
            }
            match r2 {
                Ok(n2) => (
                    m,
                    Ok((Type::Var(ev), Expr::Get(Box::new(p1.1), Box::new(n2)))),
                ),
                Err(er) => (m, Err(er)),
            }
        },
        Expr::Put(e1, e2, e3) => {
            let mut m = m;
            let ev = fresh_tyvar(&mut m);
            let ghost g1 = sv(m@);
            proof {
                lemma_scope_wf_mono(*scope, g0.len() as int, g1.len() as int);
                lemma_env_wf_mono(ty_env@, g0.len() as int, g1.len() as int);
            }
            let (m, r1) = type_check(m, ty_env, scope, &**e1);
            proof {
                lemma_extends_trans(sv(m@), g1, g0);
            }
            let p1 = match r1 {
                Ok(p) => p,
                Err(er) => {
                    return (m, Err(er));
                },
            };
            let ghost g2 = sv(m@);
            let arr_ty = Type::Array(Box::new(Type::Var(ev)));
            proof {
                assert(tyv(Type::Var(ev)) == Ty::Var(ev as int));
                assert(tyv(arr_ty) == Ty::Array(Box::new(Ty::Var(ev as int))));
                assert(*Box::new(Ty::Var(ev as int)) == Ty::Var(ev as int));
                assert(vars_below(Ty::Var(ev as int), g2.len() as int));
                assert(vars_below(tyv(arr_ty), g2.len() as int));
            }
            let (m, u) = unify(m, &p1.0, &arr_ty);
            proof {
                lemma_extends_trans(sv(m@), g2, g0);
            }
            if let Err(er) = u {
                return (m, Err(er));
            }
            let ghost g3 = sv(m@);
            let (m, r2) = check_expect(m, ty_env, scope, &**e2, &Type::Int);
            proof {
                lemma_extends_trans(sv(m@), g3, g0);
            }
            let n2 = match r2 {
                Ok(n) => n,
                Err(er) => {
                    return (m, Err(er));
                },
            };
            let ghost g4 = sv(m@);
            let (m, r3) = type_check(m, ty_env, scope, &**e3);
            proof {
                lemma_extends_trans(sv(m@), g4, g0);
            }
            let p3 = match r3 {
                Ok(p) => p,
                Err(er) => {
                    return (m, Err(er));
                },
            };
            let ghost g5 = sv(m@);
            let ev_ty = Type::Var(ev);
            let (m, u2) = unify(m, &p3.0, &ev_ty);
            proof {
                lemma_extends_trans(sv(m@), g5, g0);
            }
            match u2 {
                Ok(()) => (
                    m,
                    Ok(
                        (
                            Type::Unit,
                            Expr::Put(Box::new(p1.1), Box::new(n2), Box::new(p3.1)),
                        ),
                    ),
                ),
                Err(er) => (m, Err(er)),
            }
        },
        Expr::Tuple(args) => {
            let ghost all = args@;
            let ghost genv0 = ty_env@;
            proof {
                lemma_extends_refl(g0);
                assert(args@.subrange(0, args@.len() as int) =~= args@);
            }
            let mut m = m;
            let mut arg_tys: Vec<Type> = Vec::new();
            let mut new_args: Vec<crate::ast::Expr> = Vec::new();
            let mut j: usize = 0;
            while j < args.len()
                invariant
                    j <= args@.len(),
                    g0.len() <= sv(m@).len(),
                    sv(m@).len() + exprs_size(args@.subrange(j as int, args@.len() as int))
                        <= g0.len() + exprs_size(args@),
                    wf_subst(sv(m@)),
                    subst_extends(sv(m@), g0),
                    scope.items@ == old(scope).items@,
                    scope.marks@ == old(scope).marks@,
                    scope_wf(*scope, sv(m@).len() as int),
                    env_wf(ty_env@, sv(m@).len() as int),
                    seq_ext(genv0, ty_env@),
                    arg_tys@.len() == j as nat,
                    new_args@.len() == j as nat,
                    forall|k: int|
                        0 <= k < j ==> vars_below(
                            tyv(#[trigger] arg_tys@[k]),
                            sv(m@).len() as int,
                        ),
                decreases args@.len() - j,
            {
                let ghost gp = sv(m@);
                proof {
                    lemma_exprs_size_index(args@, j as int);
                    lemma_exprs_size_suffix(args@, j as int);
                }
                let (mx, r) = type_check(m, ty_env, scope, &args[j]);
                m = mx;
                proof {
                    lemma_extends_trans(sv(m@), gp, g0);
                }
                match r {
                    Ok(p) => {
                        proof {
                            assert forall|k: int|
                                0 <= k < j implies vars_below(
                                tyv(#[trigger] arg_tys@[k]),
                                sv(m@).len() as int,
                            ) by {
                                lemma_vars_below_mono(
                                    tyv(arg_tys@[k]),
                                    gp.len() as int,
                                    sv(m@).len() as int,
                                );
                            }
                        }
                        arg_tys.push(p.0);
                        new_args.push(p.1);
                    },
                    Err(er) => {
                        return (m, Err(er));
                    },
                }
                j += 1;
            }
            proof {
                lemma_tuple_vars_below(arg_tys@, sv(m@).len() as int);
                assert(vars_below(tyv(Type::Tuple(arg_tys)), sv(m@).len() as int));
            }
            (m, Ok((Type::Tuple(arg_tys), Expr::Tuple(new_args))))
        },
        Expr::App { fun, args } => {
            let ghost genv0 = ty_env@;
            let mut m = m;
            let rv = fresh_tyvar(&mut m);
            let ghost g1 = sv(m@);
            proof {
                lemma_scope_wf_mono(*scope, g0.len() as int, g1.len() as int);
                lemma_env_wf_mono(ty_env@, g0.len() as int, g1.len() as int);
            }
            let mut arg_tys: Vec<Type> = Vec::new();
            let mut new_args: Vec<crate::ast::Expr> = Vec::new();
            let mut j: usize = 0;
            proof {
                assert(args@.subrange(0, args@.len() as int) =~= args@);
            }
            while j < args.len()
                invariant
                    j <= args@.len(),
                    g1.len() <= sv(m@).len(),
                    sv(m@).len() + exprs_size(args@.subrange(j as int, args@.len() as int))
                        <= g1.len() + exprs_size(args@),
                    wf_subst(sv(m@)),
                    subst_extends(sv(m@), g0),
                    scope.items@ == old(scope).items@,
                    scope.marks@ == old(scope).marks@,
                    scope_wf(*scope, sv(m@).len() as int),
                    env_wf(ty_env@, sv(m@).len() as int),
                    seq_ext(genv0, ty_env@),
                    arg_tys@.len() == j as nat,
                    new_args@.len() == j as nat,
                    forall|k: int|
                        0 <= k < j ==> vars_below(
                            tyv(#[trigger] arg_tys@[k]),
                            sv(m@).len() as int,
                        ),
                decreases args@.len() - j,
            {
                let ghost gp = sv(m@);
                proof {
                    lemma_exprs_size_index(args@, j as int);
                    lemma_exprs_size_suffix(args@, j as int);
                }
                let (mx, r) = type_check(m, ty_env, scope, &args[j]);
                m = mx;
                proof {
                    lemma_extends_trans(sv(m@), gp, g0);
                }
                match r {
                    Ok(p) => {
                        proof {
                            assert forall|k: int|
                                0 <= k < j implies vars_below(
                                tyv(#[trigger] arg_tys@[k]),
                                sv(m@).len() as int,
                            ) by {
                                lemma_vars_below_mono(
                                    tyv(arg_tys@[k]),
                                    gp.len() as int,
                                    sv(m@).len() as int,
                                );
                            }
                        }
                        arg_tys.push(p.0);
                        new_args.push(p.1);
                    },
                    Err(er) => {
                        return (m, Err(er));
                    },
                }
                j += 1;
            }
            let ghost g2 = sv(m@);
            let fun_ty = Type::Fun { args: arg_tys, ret: Box::new(Type::Var(rv)) };
            proof {
                match &fun_ty {
                    Type::Fun { args: ats, ret: _ } => {
                        lemma_fun_vars_below(ats@, rv as int, g2.len() as int);
                        assert(tyv(Type::Var(rv)) == Ty::Var(rv as int));
                        assert(tyv(fun_ty) == Ty::Fun {
                            args: tyv_seq(ats@),
                            ret: Box::new(Ty::Var(rv as int)),
                        });
                    },
                    _ => {},
                }
                assert(vars_below(tyv(fun_ty), g2.len() as int));
            }
            let (m, rf) = type_check(m, ty_env, scope, &**fun);
            proof {
                lemma_extends_trans(sv(m@), g2, g0);
            }
            let pf = match rf {
                Ok(p) => p,
                Err(er) => {
                    return (m, Err(er));
                },
            };
            let ghost g3 = sv(m@);
            proof {
                lemma_vars_below_mono(tyv(fun_ty), g2.len() as int, g3.len() as int);
            }
            let (m, u) = unify(m, &fun_ty, &pf.0);
            proof {
                lemma_extends_trans(sv(m@), g3, g0);
            }
            match u {
                Ok(()) => (
                    m,
                    Ok(
                        (
                            Type::Var(rv),
                            Expr::App { fun: Box::new(pf.1), args: new_args },
                        ),
                    ),
                ),
                Err(er) => (m, Err(er)),
            }
        },
        _ => {
            proof {
                assert(false);
            }
            (m, Err(TypeErr::UnifyError(Type::Unit, Type::Unit)))
        },
    }
}

/// The comparison, conditional and simple binding forms of
/// `type_check`.
#[verifier::loop_isolation(false)]
#[verifier::rlimit(100)]
fn type_check_forms(
    m: SubstEnv,
    ty_env: &mut TypeEnv,
    scope: &mut Scope,
    expr: &crate::ast::Expr,
) -> (res: (SubstEnv, Result<(Type, crate::ast::Expr), TypeErr>))
    requires
        wf_subst(sv(m@)),
        scope_wf(*old(scope), m@.len() as int),
        env_wf(old(ty_env)@, m@.len() as int),
        m@.len() + expr_size(*expr) < 0xffff_ffff,
        expr is Eq || expr is Le || expr is If || expr is Let,
    ensures
        m@.len() <= res.0@.len(),
        res.0@.len() <= m@.len() + expr_size(*expr),
        wf_subst(sv(res.0@)),
        subst_extends(sv(res.0@), sv(m@)),
        final(scope).items@ == old(scope).items@,
        final(scope).marks@ == old(scope).marks@,
        scope_wf(*final(scope), res.0@.len() as int),
        env_wf(final(ty_env)@, res.0@.len() as int),
        seq_ext(old(ty_env)@, final(ty_env)@),
        res.1 matches Ok(p) ==> vars_below(tyv(p.0), res.0@.len() as int),
        (expr is Eq || expr is Le) ==> (res.1 matches Ok(p) ==> tyv(p.0) == Ty::Bool),
    decreases expr_size(*expr), 0nat,
{
    let ghost g0 = sv(m@);
    match expr {
        Expr::Eq(e1, e2) => {
            let (m, r1) = type_check(m, ty_env, scope, &**e1);
            let p1 = match r1 {
                Ok(p) => p,
                Err(er) => {
                    return (m, Err(er));
                },
            };
            let ghost g1 = sv(m@);
            let (m, r2) = type_check(m, ty_env, scope, &**e2);
            proof {
                lemma_extends_trans(sv(m@), g1, g0);
            }
            let p2 = match r2 {
                Ok(p) => p,
                Err(er) => {
                    return (m, Err(er));
                },
            };
            let ghost g2 = sv(m@);
            proof {
                lemma_vars_below_mono(tyv(p1.0), g1.len() as int, g2.len() as int);
            }
            let (m, u) = unify(m, &p1.0, &p2.0);
            proof {
                lemma_extends_trans(sv(m@), g2, g0);
            }
            match u {
                Ok(()) => (m, Ok((Type::Bool, Expr::Eq(Box::new(p1.1), Box::new(p2.1))))),
                Err(er) => (m, Err(er)),
            }
        },
        Expr::Le(e1, e2) => {
            let (m, r1) = type_check(m, ty_env, scope, &**e1);
            let p1 = match r1 {
                Ok(p) => p,
                Err(er) => {
                    return (m, Err(er));
                },
            };
            let ghost g1 = sv(m@);
            let (m, r2) = type_check(m, ty_env, scope, &**e2);
            proof {
                lemma_extends_trans(sv(m@), g1, g0);
            }
            let p2 = match r2 {
                Ok(p) => p,
                Err(er) => {
                    return (m, Err(er));
                },
            };
            let ghost g2 = sv(m@);
            proof {
                lemma_vars_below_mono(tyv(p1.0), g1.len() as int, g2.len() as int);
            }
            let (m, u) = unify(m, &p1.0, &p2.0);
            proof {
                lemma_extends_trans(sv(m@), g2, g0);
            }
            match u {
                Ok(()) => (m, Ok((Type::Bool, Expr::Le(Box::new(p1.1), Box::new(p2.1))))),
                Err(er) => (m, Err(er)),
            }
        },
        Expr::If(e1, e2, e3) => {
            let (m, r1) = check_expect(m, ty_env, scope, &**e1, &Type::Bool);
            let n1 = match r1 {
                Ok(n) => n,
                Err(er) => {
                    return (m, Err(er));
                },
            };
            let ghost g1 = sv(m@);
            let (m, r2) = type_check(m, ty_env, scope, &**e2);
            proof {
                lemma_extends_trans(sv(m@), g1, g0);
            }
            let p2 = match r2 {
                Ok(p) => p,
                Err(er) => {
                    return (m, Err(er));
                },
            };
            let ghost g2 = sv(m@);
            let (m, r3) = type_check(m, ty_env, scope, &**e3);
            proof {
                lemma_extends_trans(sv(m@), g2, g0);
            }
            let p3 = match r3 {
                Ok(p) => p,
                Err(er) => {
                    return (m, Err(er));
                },
            };
            let ghost g3 = sv(m@);
            proof {
                lemma_vars_below_mono(tyv(p2.0), g2.len() as int, g3.len() as int);
            }
            let (m, u) = unify(m, &p2.0, &p3.0);
            proof {
                lemma_extends_trans(sv(m@), g3, g0);
                lemma_vars_below_mono(tyv(p2.0), g3.len() as int, sv(m@).len() as int);
            }
            match u {
                Ok(()) => (
                    m,
                    Ok(
                        (
                            p2.0,
                            Expr::If(Box::new(n1), Box::new(p2.1), Box::new(p3.1)),
                        ),
                    ),
                ),
                Err(er) => (m, Err(er)),
            }
        },
        Expr::Let { bndr, rhs, body } => {
            let mut m = m;
            let v = fresh_tyvar(&mut m);
            let ghost g1 = sv(m@);
            proof {
                lemma_scope_wf_mono(*scope, g0.len() as int, g1.len() as int);
                lemma_env_wf_mono(ty_env@, g0.len() as int, g1.len() as int);
            }
            let ghost env_pre = ty_env@;
            ty_env.push((bndr.id, Type::Var(v)));
            proof {
                assert(tyv(Type::Var(v)) == Ty::Var(v as int));
                assert forall|i: int|
                    0 <= i < ty_env@.len() implies vars_below(
                    tyv((#[trigger] ty_env@[i]).1),
                    g1.len() as int,
                ) by {
                    if i < env_pre.len() {
                        assert(ty_env@[i] == env_pre[i]);
                    }
                }
            }
            let (m, r1) = type_check(m, ty_env, scope, &**rhs);
            proof {
                lemma_extends_trans(sv(m@), g1, g0);
            }
            let p1 = match r1 {
                Ok(p) => p,
                Err(er) => {
                    return (m, Err(er));
                },
            };
            let ghost g2 = sv(m@);
            let bndr_ty = Type::Var(v);
            let (m, u) = unify(m, &bndr_ty, &p1.0);
            proof {
                lemma_extends_trans(sv(m@), g2, g0);
            }
            if let Err(er) = u {
                return (m, Err(er));
            }
            scope.new_scope();
            let ghost s_pre_add = *scope;
            scope.add(
                bndr.name.clone(),
                Binder { binder: bndr.duplicate(), ty: Type::Var(v) },
            );
            let ghost g3 = sv(m@);
            proof {
                lemma_scope_wf_same_items(*old(scope), s_pre_add, g0.len() as int);
                lemma_scope_wf_mono(s_pre_add, g0.len() as int, g3.len() as int);
                lemma_scope_wf_push(s_pre_add, *scope, g3.len() as int);
            }
            let (m, r2) = type_check(m, ty_env, scope, &**body);
            proof {
                lemma_extends_trans(sv(m@), g3, g0);
            }
            let ghost s_pre_pop = *scope;
            scope.pop_scope();
            proof {
                assert(s_pre_pop.items@.drop_last() == old(scope).items@);
                assert(s_pre_pop.marks@.last() as int == old(scope).items@.len() as int);
                assert(scope.items@ =~= s_pre_pop.items@.drop_last());
                assert(scope.items@ =~= old(scope).items@);
                lemma_scope_wf_same_items(*old(scope), *scope, g0.len() as int);
                lemma_scope_wf_mono(*scope, g0.len() as int, sv(m@).len() as int);
            }
            match r2 {
                Ok(p2) => (
                    m,
                    Ok(
                        (
                            p2.0,
                            Expr::Let {
                                bndr: bndr.duplicate(),
                                rhs: Box::new(p1.1),
                                body: Box::new(p2.1),
                            },
                        ),
                    ),
                ),
                Err(er) => (m, Err(er)),
            }
        },
        _ => {
            proof {
                assert(false);
            }
            (m, Err(TypeErr::UnifyError(Type::Unit, Type::Unit)))
        },
    }
}

/// A one-argument function type.
fn fun1(a: Type, r: Type) -> (t: Type)
    requires
        ground(tyv(a)),
        ground(tyv(r)),
    ensures
        ground(tyv(t)),
        tyv(t) == (Ty::Fun { args: seq![tyv(a)], ret: Box::new(tyv(r)) }),
{
    let ghost av = tyv(a);
    let ghost rv = tyv(r);
    let mut v: Vec<Type> = Vec::new();
    v.push(a);
    proof {
        lemma_tyv_seq(v@);
        assert(tyv_seq(v@) =~= seq![av]);
        assert(*Box::new(rv) == rv);
        assert(ground(Ty::Fun { args: seq![av], ret: Box::new(rv) }));
    }
    Type::Fun { args: v, ret: Box::new(r) }
}

/// Enter one built-in into the environment and the global scope frame.
fn register_builtin(ty_env: &mut TypeEnv, scope: &mut Scope, id: u32, name: &str, ty: Type)
    requires
        ground(tyv(ty)),
        env_wf(old(ty_env)@, 0),
        scope_wf(*old(scope), 0),
    ensures
        env_wf(final(ty_env)@, 0),
        scope_wf(*final(scope), 0),
        final(scope).marks@ == old(scope).marks@,
        final(ty_env)@.len() == old(ty_env)@.len() + 1,
        final(ty_env)@.drop_last() == old(ty_env)@,
        final(ty_env)@.last().0 == id,
        tyv(final(ty_env)@.last().1) == tyv(ty),
        final(scope).items@.len() == old(scope).items@.len() + 1,
        final(scope).items@.drop_last() == old(scope).items@,
        final(scope).items@.last().0@ == name@,
        final(scope).items@.last().1.binder.id == id,
        tyv(final(scope).items@.last().1.ty) == tyv(ty),
{
    let ghost env_pre = ty_env@;
    let ghost sc_pre = *scope;
    proof {
        lemma_ground_vars_below(tyv(ty), 0);
    }
    ty_env.push((id, clone_type(&ty)));
    scope.add(name.to_string(), Binder { binder: crate::ast::Var { id, name: name.to_string() }, ty });
    proof {
        assert forall|i: int|
            0 <= i < ty_env@.len() implies vars_below(tyv((#[trigger] ty_env@[i]).1), 0) by {
            if i < env_pre.len() {
                assert(ty_env@[i] == env_pre[i]);
            }
        }
        lemma_scope_wf_push(sc_pre, *scope, 0);
    }
}

/// The fixed signature of built-in `i`, in registration order:
/// print_int, print_newline, float_of_int, int_of_float, truncate,
/// abs_float, sqrt, sin, cos.
pub open spec fn builtin_sig(i: int) -> Ty {
    if i == 0 {
        Ty::Fun { args: seq![Ty::Int], ret: Box::new(Ty::Unit) }
    } else if i == 1 {
        Ty::Fun { args: seq![Ty::Unit], ret: Box::new(Ty::Unit) }
    } else if i == 2 {
        Ty::Fun { args: seq![Ty::Int], ret: Box::new(Ty::Float) }
    } else if i == 3 || i == 4 {
        Ty::Fun { args: seq![Ty::Float], ret: Box::new(Ty::Int) }
    } else {
        Ty::Fun { args: seq![Ty::Float], ret: Box::new(Ty::Float) }
    }
}

/// The initial environment and scope: one entry per built-in, with its
/// fixed source type.
pub fn mk_type_env(ty_env: &mut TypeEnv, scope: &mut Scope)
    requires
        old(ty_env)@.len() == 0,
        old(scope).items@.len() == 0,
        old(scope).marks@.len() == 0,
    ensures
        env_wf(final(ty_env)@, 0),
        scope_wf(*final(scope), 0),
        final(scope).marks@.len() == 0,
        final(ty_env)@.len() == 9,
        final(scope).items@.len() == 9,
        forall|i: int| 0 <= i < 9 ==> (#[trigger] final(ty_env)@[i]).0 == i,
        forall|i: int|
            0 <= i < 9 ==> tyv((#[trigger] final(ty_env)@[i]).1) == builtin_sig(i),
        forall|i: int|
            0 <= i < 9 ==> (#[trigger] final(scope).items@[i]).1.binder.id == i && tyv(
                final(scope).items@[i].1.ty,
            ) == builtin_sig(i),
{
    register_builtin(ty_env, scope, 0, "print_int", fun1(Type::Int, Type::Unit));
    register_builtin(ty_env, scope, 1, "print_newline", fun1(Type::Unit, Type::Unit));
    register_builtin(ty_env, scope, 2, "float_of_int", fun1(Type::Int, Type::Float));
    register_builtin(ty_env, scope, 3, "int_of_float", fun1(Type::Float, Type::Int));
    register_builtin(ty_env, scope, 4, "truncate", fun1(Type::Float, Type::Int));
    register_builtin(ty_env, scope, 5, "abs_float", fun1(Type::Float, Type::Float));
    register_builtin(ty_env, scope, 6, "sqrt", fun1(Type::Float, Type::Float));
    register_builtin(ty_env, scope, 7, "sin", fun1(Type::Float, Type::Float));
    register_builtin(ty_env, scope, 8, "cos", fun1(Type::Float, Type::Float));
}

/// Type-check a whole program: infer in the built-in scope, require the
/// top-level expression to have type `Unit`, and return the table of
/// binder types, every entry normalized to a ground type, together with
/// the program with variable occurrences resolved to their binders.
pub fn type_check_pgm(expr: &crate::ast::Expr) -> (res: Result<
    (TypeEnv, crate::ast::Expr),
    TypeErr,
>)
    requires
        expr_size(*expr) < 0xffff_0000,
    ensures
        res matches Ok(p) ==> forall|i: int|
            0 <= i < p.0@.len() ==> ground(tyv((#[trigger] p.0@[i]).1)),
        res matches Ok(p) ==> p.0@.len() >= 9,
        res matches Ok(p) ==> forall|i: int|
            0 <= i < 9 ==> (#[trigger] p.0@[i]).0 == i && tyv(p.0@[i].1) == builtin_sig(i),
        (expr is Int || expr is Bool || expr is Float) ==> (res matches Err(
            TypeErr::UnifyError(_, _),
        )),
{
    let mut ty_env: TypeEnv = Vec::new();
    let mut scope = Scope::new();
    mk_type_env(&mut ty_env, &mut scope);
    let ghost env_init = ty_env@;
    let m: SubstEnv = Vec::new();
    proof {
        assert(sv(m@).len() == 0);
        lemma_scope_wf_mono(scope, 0, sv(m@).len() as int);
        lemma_env_wf_mono(ty_env@, 0, sv(m@).len() as int);
    }
    let (m, r) = type_check(m, &mut ty_env, &mut scope, expr);
    let p = match r {
        Ok(p) => p,
        Err(e) => {
            return Err(e);
        },
    };
    let unit_ty = Type::Unit;
    let (m, u) = unify(m, &unit_ty, &p.0);
    if let Err(e) = u {
        return Err(e);
    }
    let mut out: TypeEnv = Vec::new();
    let mut j: usize = 0;
    while j < ty_env.len()
        invariant
            j <= ty_env@.len(),
            out@.len() == j as nat,
            forall|i: int| 0 <= i < j ==> ground(tyv((#[trigger] out@[i]).1)),
            forall|i: int|
                0 <= i < j ==> (#[trigger] out@[i]).0 == ty_env@[i].0 && tyv(out@[i].1)
                    == default_unit(resolve(sv(m@), tyv(ty_env@[i].1))),
        decreases ty_env@.len() - j,
    {
        let nt = norm_ty(&m, &ty_env[j].1);
        let id = ty_env[j].0;
        out.push((id, nt));
        j += 1;
    }
    proof {
        assert forall|i: int|
            0 <= i < 9 implies (#[trigger] out@[i]).0 == i && tyv(out@[i].1) == builtin_sig(
            i,
        ) by {
            assert(ty_env@[i] == env_init[i]);
            assert(tyv(ty_env@[i].1) == builtin_sig(i));
            lemma_vars_below_zero_ground(tyv(ty_env@[i].1));
            lemma_ground_no_bound(sv(m@), tyv(ty_env@[i].1));
            lemma_resolve_no_bound(sv(m@), tyv(ty_env@[i].1));
            lemma_default_unit_id(tyv(ty_env@[i].1));
        }
    }
    Ok((out, p.1))
}

} // verus!
