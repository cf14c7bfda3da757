use mc::type_check::{
    clone_type, deref_ty, norm_ty, occurs_check, resolve_ty, unify, SubstEnv, Type, TypeErr,
};

fn fresh(m: &mut SubstEnv) -> u32 {
    mc::type_check::fresh_tyvar(m)
}

/// Unifying a type with itself succeeds and leaves the substitution
/// unchanged.
#[test]
fn unify_reflexive() {
    let mut m: SubstEnv = Vec::new();
    let a = fresh(&mut m);
    let t = Type::Fun {
        args: vec![Type::Int, Type::Var(a)],
        ret: Box::new(Type::Array(Box::new(Type::Bool))),
    };
    let before = m.len();
    let (m2, r) = unify(m, &clone_type(&t), &t);
    assert!(r.is_ok());
    assert_eq!(m2.len(), before);
    // nothing became bound
    assert!(m2.iter().all(|e| e.is_none()));
}

/// After a successful unification the two types resolve to the same
/// type.
#[test]
fn unify_makes_equal() {
    let mut m: SubstEnv = Vec::new();
    let a = fresh(&mut m);
    let b = fresh(&mut m);
    let t1 = Type::Fun { args: vec![Type::Var(a)], ret: Box::new(Type::Var(b)) };
    let t2 = Type::Fun { args: vec![Type::Int], ret: Box::new(Type::Bool) };
    let (m2, r) = unify(m, &t1, &t2);
    assert!(r.is_ok());
    let r1 = resolve_ty(&m2, &t1);
    let r2 = resolve_ty(&m2, &t2);
    assert_eq!(r1, r2);
    assert_eq!(deref_ty(&m2, &Type::Var(a)), Type::Int);
    assert_eq!(deref_ty(&m2, &Type::Var(b)), Type::Bool);
}

/// Chained variable bindings resolve through to the ground type.
#[test]
fn unify_chains() {
    let mut m: SubstEnv = Vec::new();
    let v2 = fresh(&mut m);
    let v3 = fresh(&mut m);
    let v4 = fresh(&mut m);
    let v5 = fresh(&mut m);
    let (m, r) = unify(m, &Type::Var(v2), &Type::Var(v3));
    assert!(r.is_ok());
    let (m, r) = unify(m, &Type::Var(v2), &Type::Var(v4));
    assert!(r.is_ok());
    let (m, r) = unify(m, &Type::Var(v2), &Type::Var(v5));
    assert!(r.is_ok());
    let (m, r) = unify(m, &Type::Var(v5), &Type::Int);
    assert!(r.is_ok());
    for v in [v2, v3, v4, v5] {
        assert_eq!(deref_ty(&m, &Type::Var(v)), Type::Int);
    }
}

/// The occurs check spots a variable inside a compound type, and
/// unifying the two then fails with `InfiniteType`.
#[test]
fn occurs_check_infinite_type() {
    let mut m: SubstEnv = Vec::new();
    let a = fresh(&mut m);
    let t = Type::Fun { args: vec![Type::Var(a)], ret: Box::new(Type::Int) };
    assert!(occurs_check(&m, a, &t));
    let (m2, r) = unify(m, &Type::Var(a), &t);
    match r {
        Err(TypeErr::InfiniteType(_, _)) => {},
        other => panic!("expected InfiniteType, got {:?}", other),
    }
    drop(m2);
}

/// The occurs check is false for an unrelated variable; the unification
/// then succeeds.
#[test]
fn occurs_check_unrelated() {
    let mut m: SubstEnv = Vec::new();
    let a = fresh(&mut m);
    let b = fresh(&mut m);
    let t = Type::Fun { args: vec![Type::Var(b)], ret: Box::new(Type::Int) };
    assert!(!occurs_check(&m, a, &t));
    let (m2, r) = unify(m, &Type::Var(a), &t);
    assert!(r.is_ok());
    match deref_ty(&m2, &Type::Var(a)) {
        Type::Fun { args, ret } => {
            assert_eq!(args.len(), 1);
            assert_eq!(*ret, Type::Int);
        },
        other => panic!("bound to {:?}", other),
    }
}

/// Unifying distinct ground leaves fails.
#[test]
fn unify_mismatch() {
    let m: SubstEnv = Vec::new();
    let (_, r) = unify(m, &Type::Int, &Type::Bool);
    match r {
        Err(TypeErr::UnifyError(Type::Int, Type::Bool)) => {},
        other => panic!("expected UnifyError(Int, Bool), got {:?}", other),
    }
}

/// Function types of different arity fail to unify.
#[test]
fn unify_arity_mismatch() {
    let m: SubstEnv = Vec::new();
    let t1 = Type::Fun { args: vec![Type::Int], ret: Box::new(Type::Int) };
    let t2 = Type::Fun { args: vec![Type::Int, Type::Int], ret: Box::new(Type::Int) };
    let (_, r) = unify(m, &t1, &t2);
    assert!(matches!(r, Err(TypeErr::UnifyError(_, _))));
}

/// Normalization resolves bound variables and defaults unbound ones to
/// `Unit`, leaving a ground type.
#[test]
fn norm_defaults_to_unit() {
    let mut m: SubstEnv = Vec::new();
    let a = fresh(&mut m);
    let b = fresh(&mut m);
    let (m, r) = unify(m, &Type::Var(a), &Type::Int);
    assert!(r.is_ok());
    let t = Type::Tuple(vec![Type::Var(a), Type::Var(b)]);
    let n = norm_ty(&m, &t);
    assert_eq!(n, Type::Tuple(vec![Type::Int, Type::Unit]));
}

/// `is_array` recognizes exactly array types.
#[test]
fn is_array_works() {
    assert!(Type::Array(Box::new(Type::Int)).is_array());
    assert!(!Type::Int.is_array());
    assert!(!Type::Fun { args: vec![], ret: Box::new(Type::Unit) }.is_array());
}
