use mc::ast::{Expr, Var};
use mc::type_check::{type_check_pgm, Type, TypeErr};

fn v(id: u32, name: &str) -> Var {
    Var { id, name: name.to_string() }
}

fn var(name: &str) -> Expr {
    Expr::Var(v(9999, name))
}

fn app(f: Expr, args: Vec<Expr>) -> Expr {
    Expr::App { fun: Box::new(f), args }
}

/// `print_int 42; print_newline ()` type checks; its environment is
/// ground.
#[test]
fn print_int_42_checks() {
    // let _u = print_int 42 in print_newline ()
    let pgm = Expr::Let {
        bndr: v(100, "u"),
        rhs: Box::new(app(var("print_int"), vec![Expr::Int(42)])),
        body: Box::new(app(var("print_newline"), vec![Expr::Unit])),
    };
    let r = type_check_pgm(&pgm);
    assert!(r.is_ok());
    let (env, _) = r.unwrap();
    // the binder for u is recorded with a ground type
    assert!(env.iter().any(|(id, t)| *id == 100 && *t == Type::Unit));
}

/// The factorial program of the end-to-end suite type checks.
#[test]
fn fact_program_checks() {
    // let rec fact n = if n <= 1 then 1 else n * fact (n - 1) in
    // print_int (fact 10)
    let fact_body = Expr::If(
        Box::new(Expr::Le(Box::new(var("n")), Box::new(Expr::Int(1)))),
        Box::new(Expr::Int(1)),
        Box::new(app(
            var("fact"),
            vec![Expr::Sub(Box::new(var("n")), Box::new(Expr::Int(1)))],
        )),
    );
    // n * fact (n - 1) is folded into the else branch through print_int
    let pgm = Expr::LetRec {
        bndr: v(100, "fact"),
        args: vec![v(101, "n")],
        rhs: Box::new(fact_body),
        body: Box::new(app(var("print_int"), vec![app(var("fact"), vec![Expr::Int(10)])])),
    };
    let r = type_check_pgm(&pgm);
    assert!(r.is_ok());
    let (env, _) = r.unwrap();
    // fact : int -> int
    let fact_ty = env.iter().find(|(id, _)| *id == 100).map(|(_, t)| t).unwrap();
    match fact_ty {
        Type::Fun { args, ret } => {
            assert_eq!(args.len(), 1);
            assert_eq!(args[0], Type::Int);
            assert_eq!(**ret, Type::Int);
        },
        other => panic!("fact inferred as {:?}", other),
    }
}

/// The fib program type checks.
#[test]
fn fib_program_checks() {
    let fib_body = Expr::If(
        Box::new(Expr::Le(Box::new(var("n")), Box::new(Expr::Int(1)))),
        Box::new(var("n")),
        Box::new(Expr::Add(
            Box::new(app(
                var("fib"),
                vec![Expr::Sub(Box::new(var("n")), Box::new(Expr::Int(1)))],
            )),
            Box::new(app(
                var("fib"),
                vec![Expr::Sub(Box::new(var("n")), Box::new(Expr::Int(2)))],
            )),
        )),
    );
    let pgm = Expr::LetRec {
        bndr: v(100, "fib"),
        args: vec![v(101, "n")],
        rhs: Box::new(fib_body),
        body: Box::new(app(var("print_int"), vec![app(var("fib"), vec![Expr::Int(20)])])),
    };
    assert!(type_check_pgm(&pgm).is_ok());
}

/// Array creation, stores and loads type check.
#[test]
fn array_program_checks() {
    // let a = Array.create 3 0 in a.(0) <- 1; print_int (a.(0) + a.(1))
    let pgm = Expr::Let {
        bndr: v(100, "a"),
        rhs: Box::new(Expr::Array(Box::new(Expr::Int(3)), Box::new(Expr::Int(0)))),
        body: Box::new(Expr::Let {
            bndr: v(101, "u"),
            rhs: Box::new(Expr::Put(
                Box::new(var("a")),
                Box::new(Expr::Int(0)),
                Box::new(Expr::Int(1)),
            )),
            body: Box::new(app(
                var("print_int"),
                vec![Expr::Add(
                    Box::new(Expr::Get(Box::new(var("a")), Box::new(Expr::Int(0)))),
                    Box::new(Expr::Get(Box::new(var("a")), Box::new(Expr::Int(1)))),
                )],
            )),
        }),
    };
    let r = type_check_pgm(&pgm);
    assert!(r.is_ok());
    let (env, _) = r.unwrap();
    let a_ty = env.iter().find(|(id, _)| *id == 100).map(|(_, t)| t).unwrap();
    assert_eq!(*a_ty, Type::Array(Box::new(Type::Int)));
}

/// Float built-ins compose: `print_int (int_of_float (sqrt (float_of_int
/// 144)))` type checks.
#[test]
fn sqrt_program_checks() {
    let pgm = app(
        var("print_int"),
        vec![app(
            var("int_of_float"),
            vec![app(var("sqrt"), vec![app(var("float_of_int"), vec![Expr::Int(144)])])],
        )],
    );
    assert!(type_check_pgm(&pgm).is_ok());
}

/// Closure capture: make_adder type checks at int -> (int -> int).
#[test]
fn make_adder_checks() {
    // let rec make_adder x = (let rec f y = x + y in f) in
    // let a5 = make_adder 5 in print_int (a5 37)
    let inner = Expr::LetRec {
        bndr: v(102, "f"),
        args: vec![v(103, "y")],
        rhs: Box::new(Expr::Add(Box::new(var("x")), Box::new(var("y")))),
        body: Box::new(var("f")),
    };
    let pgm = Expr::LetRec {
        bndr: v(100, "make_adder"),
        args: vec![v(101, "x")],
        rhs: Box::new(inner),
        body: Box::new(Expr::Let {
            bndr: v(104, "a5"),
            rhs: Box::new(app(var("make_adder"), vec![Expr::Int(5)])),
            body: Box::new(app(var("print_int"), vec![app(var("a5"), vec![Expr::Int(37)])])),
        }),
    };
    let r = type_check_pgm(&pgm);
    assert!(r.is_ok());
    let (env, _) = r.unwrap();
    let ty = env.iter().find(|(id, _)| *id == 100).map(|(_, t)| t).unwrap();
    match ty {
        Type::Fun { args, ret } => {
            assert_eq!(args[0], Type::Int);
            match &**ret {
                Type::Fun { args: a2, ret: r2 } => {
                    assert_eq!(a2[0], Type::Int);
                    assert_eq!(**r2, Type::Int);
                },
                other => panic!("inner type {:?}", other),
            }
        },
        other => panic!("make_adder inferred as {:?}", other),
    }
}

/// A program whose top-level expression is not `Unit` is rejected with a
/// unification error.
#[test]
fn non_unit_toplevel_rejected() {
    let pgm = Expr::Int(42);
    match type_check_pgm(&pgm) {
        Err(TypeErr::UnifyError(_, _)) => {},
        other => panic!("expected UnifyError, got {:?}", other),
    }
}

/// A reference to an identifier not in scope is rejected as unbound.
#[test]
fn unbound_var_rejected() {
    let pgm = app(var("print_int"), vec![var("nope")]);
    match type_check_pgm(&pgm) {
        Err(TypeErr::UnboundVar(u)) => assert_eq!(u.name, "nope"),
        other => panic!("expected UnboundVar, got {:?}", other),
    }
}

/// A recursive function applied with the wrong arity is rejected with a
/// unification error.
#[test]
fn wrong_arity_rejected() {
    let fact_body = Expr::If(
        Box::new(Expr::Le(Box::new(var("n")), Box::new(Expr::Int(1)))),
        Box::new(Expr::Int(1)),
        Box::new(app(
            var("fact"),
            vec![Expr::Sub(Box::new(var("n")), Box::new(Expr::Int(1)))],
        )),
    );
    let pgm = Expr::LetRec {
        bndr: v(100, "fact"),
        args: vec![v(101, "n")],
        rhs: Box::new(fact_body),
        body: Box::new(app(
            var("print_int"),
            vec![app(var("fact"), vec![Expr::Int(10), Expr::Int(11)])],
        )),
    };
    match type_check_pgm(&pgm) {
        Err(TypeErr::UnifyError(_, _)) => {},
        other => panic!("expected UnifyError, got {:?}", other),
    }
}

/// Variable occurrences are rewritten to carry their binder.
#[test]
fn var_nodes_resolved() {
    let pgm = Expr::Let {
        bndr: v(100, "u"),
        rhs: Box::new(app(var("print_int"), vec![Expr::Int(1)])),
        body: Box::new(Expr::Unit),
    };
    let (_, resolved) = type_check_pgm(&pgm).unwrap();
    match resolved {
        Expr::Let { rhs, .. } => match *rhs {
            Expr::App { fun, .. } => match *fun {
                Expr::Var(b) => assert_eq!(b.id, 0), // print_int is builtin 0
                other => panic!("fun node {:?}", other),
            },
            other => panic!("rhs {:?}", other),
        },
        other => panic!("root {:?}", other),
    }
}
