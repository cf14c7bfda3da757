use mc::cg_types::RepType;
use mc::codegen::{codegen, rep_type_abi, word_cond, float_cond, AbiTy, FloatCond, IntCond, Op};
use mc::common::Cmp;
use mc::ctx::Ctx;
use mc::lower::block::{is_placeholder_instr, Block as SsaBlock, BlockIdx, PLACEHOLDER_INSTR_IDX};
use mc::lower::fun::{Asgn, Atom, Block, Exit, Expr, Fun, FunSig, Label, Stmt};
use mc::lower::instr::InstrIdx;
use mc::type_check::Type;

fn seal_count(ops: &[Op], b: usize) -> usize {
    ops.iter().filter(|o| matches!(o, Op::SealBlock(x) if *x == b)).count()
}

fn setup_ctx() -> (Ctx, Vec<u32>) {
    let mut ctx = Ctx::new();
    // one built-in, as the driver would register them
    let pi = ctx.add_var(
        "print_int".to_string(),
        "print_int".to_string(),
        Type::Fun { args: vec![Type::Int], ret: Box::new(Type::Unit) },
    );
    (ctx, vec![pi])
}

/// The smallest program: a main that binds a constant and returns it.
/// The plan declares the slot with the word width and seals its one
/// block exactly once.
#[test]
fn plan_constant_main() {
    let (mut ctx, builtins) = setup_ctx();
    let main_v = ctx.add_var("mn".to_string(), "mn".to_string(), Type::Int);
    let x = ctx.add_var("x".to_string(), "x".to_string(), Type::Int);
    let fun = Fun {
        name: main_v,
        args: vec![],
        blocks: vec![Block {
            label: Label(0),
            stmts: vec![Stmt::Asgn(Asgn { lhs: x, rhs: Expr::Atom(Atom::Int(42)) })],
            exit: Exit::Return(x),
        }],
        return_type: RepType::Word,
    };
    let plan = codegen(&mut ctx, &vec![fun], main_v, &builtins).unwrap();
    assert_eq!(plan.funcs.len(), 1);
    assert_eq!(plan.main_index, 0);
    let fp = &plan.funcs[0].1;
    assert_eq!(fp.n_blocks, 1);
    assert_eq!(seal_count(&fp.ops, 0), 1);
    // the declared slot for x has the word width
    assert!(fp.ops.iter().any(|o| matches!(o, Op::DeclareVar { slot, ty }
        if *slot == x && *ty == AbiTy::I64)));
    assert!(fp.ops.iter().any(|o| matches!(o, Op::Return(_))));
}

/// An array allocation synthesizes the initialization loop: three fresh
/// blocks, each sealed exactly once, with the stores and the bound
/// check.
#[test]
fn plan_array_alloc_loop() {
    let (mut ctx, builtins) = setup_ctx();
    let main_v = ctx.add_var("mn".to_string(), "mn".to_string(), Type::Int);
    let n = ctx.add_var("n".to_string(), "n".to_string(), Type::Int);
    let z = ctx.add_var("z".to_string(), "z".to_string(), Type::Int);
    let a = ctx.add_var("a".to_string(), "a".to_string(), Type::Array(Box::new(Type::Int)));
    let fun = Fun {
        name: main_v,
        args: vec![],
        blocks: vec![Block {
            label: Label(0),
            stmts: vec![
                Stmt::Asgn(Asgn { lhs: n, rhs: Expr::Atom(Atom::Int(3)) }),
                Stmt::Asgn(Asgn { lhs: z, rhs: Expr::Atom(Atom::Int(0)) }),
                Stmt::Asgn(Asgn { lhs: a, rhs: Expr::ArrayAlloc { len: n, elem: z } }),
            ],
            exit: Exit::Return(z),
        }],
        return_type: RepType::Word,
    };
    let plan = codegen(&mut ctx, &vec![fun], main_v, &builtins).unwrap();
    let fp = &plan.funcs[0].1;
    // the label block plus header, body and continuation
    assert_eq!(fp.n_blocks, 4);
    for b in 0..fp.n_blocks {
        assert_eq!(seal_count(&fp.ops, b), 1, "block {} not sealed exactly once", b);
    }
    assert!(fp.ops.iter().any(|o| matches!(o, Op::CallMalloc { .. })));
    assert!(fp.ops.iter().any(|o| matches!(o, Op::BrIcmp { cond: IntCond::Equal, .. })));
}

/// Branch lowering: word operands take a compare-and-branch with the
/// signed condition; the float comparison table is ordered.
#[test]
fn plan_branch_word() {
    let (mut ctx, builtins) = setup_ctx();
    let main_v = ctx.add_var("mn".to_string(), "mn".to_string(), Type::Int);
    let x = ctx.add_var("x".to_string(), "x".to_string(), Type::Int);
    let y = ctx.add_var("y".to_string(), "y".to_string(), Type::Int);
    let fun = Fun {
        name: main_v,
        args: vec![],
        blocks: vec![
            Block {
                label: Label(0),
                stmts: vec![
                    Stmt::Asgn(Asgn { lhs: x, rhs: Expr::Atom(Atom::Int(1)) }),
                    Stmt::Asgn(Asgn { lhs: y, rhs: Expr::Atom(Atom::Int(2)) }),
                ],
                exit: Exit::Branch {
                    v1: x,
                    v2: y,
                    cond: Cmp::LessThan,
                    then_label: Label(1),
                    else_label: Label(2),
                },
            },
            Block { label: Label(1), stmts: vec![], exit: Exit::Return(x) },
            Block { label: Label(2), stmts: vec![], exit: Exit::Return(y) },
        ],
        return_type: RepType::Word,
    };
    let plan = codegen(&mut ctx, &vec![fun], main_v, &builtins).unwrap();
    let fp = &plan.funcs[0].1;
    assert_eq!(fp.n_blocks, 3);
    for b in 0..fp.n_blocks {
        assert_eq!(seal_count(&fp.ops, b), 1);
    }
    assert!(fp.ops.iter().any(|o| matches!(
        o,
        Op::BrIcmp { cond: IntCond::SignedLessThan, then_block: 1, else_block: 2, .. }
    )));
}

/// A main with arguments is rejected.
#[test]
fn plan_bad_main_rejected() {
    let (mut ctx, builtins) = setup_ctx();
    let main_v = ctx.add_var("mn".to_string(), "mn".to_string(), Type::Int);
    let p = ctx.add_var("p".to_string(), "p".to_string(), Type::Int);
    let fun = Fun {
        name: main_v,
        args: vec![p],
        blocks: vec![Block { label: Label(0), stmts: vec![], exit: Exit::Return(p) }],
        return_type: RepType::Word,
    };
    assert!(codegen(&mut ctx, &vec![fun], main_v, &builtins).is_err());
}

/// The ABI translation and both condition tables.
#[test]
fn abi_and_condition_tables() {
    assert_eq!(rep_type_abi(RepType::Word), AbiTy::I64);
    assert_eq!(rep_type_abi(RepType::Float), AbiTy::F64);
    assert_eq!(word_cond(Cmp::Equal), IntCond::Equal);
    assert_eq!(word_cond(Cmp::NotEqual), IntCond::NotEqual);
    assert_eq!(word_cond(Cmp::LessThan), IntCond::SignedLessThan);
    assert_eq!(word_cond(Cmp::LessThanOrEqual), IntCond::SignedLessThanOrEqual);
    assert_eq!(word_cond(Cmp::GreaterThan), IntCond::SignedGreaterThan);
    assert_eq!(word_cond(Cmp::GreaterThanOrEqual), IntCond::SignedGreaterThanOrEqual);
    assert_eq!(float_cond(Cmp::Equal), FloatCond::Equal);
    assert_eq!(float_cond(Cmp::NotEqual), FloatCond::NotEqual);
    assert_eq!(float_cond(Cmp::LessThan), FloatCond::LessThan);
    assert_eq!(float_cond(Cmp::LessThanOrEqual), FloatCond::LessThanOrEqual);
    assert_eq!(float_cond(Cmp::GreaterThan), FloatCond::GreaterThan);
    assert_eq!(float_cond(Cmp::GreaterThanOrEqual), FloatCond::GreaterThanOrEqual);
}

/// The block-stream types: a fresh block is empty and unsealed, and the
/// placeholder test recognizes exactly the placeholder.
#[test]
fn ssa_block_basics() {
    let b = SsaBlock::new(BlockIdx::from_u32(7));
    assert_eq!(b.idx.as_u32(), 7);
    assert!(!b.filled);
    assert!(!b.sealed);
    assert!(is_placeholder_instr(b.first_instr));
    assert!(is_placeholder_instr(b.last_instr));
    assert!(!is_placeholder_instr(InstrIdx::from_u32(0)));
    assert_eq!(PLACEHOLDER_INSTR_IDX, u32::MAX - 1);
    let sig = FunSig { name: 0, args: vec![], return_type: RepType::Word };
    assert_eq!(sig.return_type, RepType::Word);
}

/// The lowered form of `print_int 42`: the built-in is referenced as an
/// imported data symbol and invoked indirectly, word-typed.
#[test]
fn plan_print_int_42() {
    let (mut ctx, builtins) = setup_ctx();
    let pi = builtins[0];
    let main_v = ctx.add_var("mn".to_string(), "mn".to_string(), Type::Int);
    let x = ctx.add_var("x".to_string(), "x".to_string(), Type::Int);
    let u = ctx.add_var("u".to_string(), "u".to_string(), Type::Unit);
    let z = ctx.add_var("z".to_string(), "z".to_string(), Type::Int);
    let fun = Fun {
        name: main_v,
        args: vec![],
        blocks: vec![Block {
            label: Label(0),
            stmts: vec![
                Stmt::Asgn(Asgn { lhs: x, rhs: Expr::Atom(Atom::Int(42)) }),
                Stmt::Asgn(Asgn { lhs: u, rhs: Expr::App(pi, vec![x], RepType::Word) }),
                Stmt::Asgn(Asgn { lhs: z, rhs: Expr::Atom(Atom::Int(0)) }),
            ],
            exit: Exit::Return(z),
        }],
        return_type: RepType::Word,
    };
    let plan = codegen(&mut ctx, &vec![fun], main_v, &builtins).unwrap();
    assert_eq!(plan.data_names, vec!["print_int".to_string()]);
    let fp = &plan.funcs[0].1;
    // the call site materializes the data address and calls indirectly
    assert!(fp.ops.iter().any(|o| matches!(o, Op::DataAddr { data: 0 })));
    assert!(fp.ops.iter().any(|o| matches!(o, Op::CallIndirect { .. })));
    for b in 0..fp.n_blocks {
        assert_eq!(seal_count(&fp.ops, b), 1);
    }
}

/// Branch lowering on float operands: an ordered float compare feeding a
/// branch-on-nonzero, then the else-side jump arrangement.
#[test]
fn plan_branch_float() {
    let (mut ctx, builtins) = setup_ctx();
    let main_v = ctx.add_var("mn".to_string(), "mn".to_string(), Type::Int);
    let x = ctx.add_var("x".to_string(), "x".to_string(), Type::Float);
    let y = ctx.add_var("y".to_string(), "y".to_string(), Type::Float);
    let z = ctx.add_var("z".to_string(), "z".to_string(), Type::Int);
    let fun = Fun {
        name: main_v,
        args: vec![],
        blocks: vec![
            Block {
                label: Label(0),
                stmts: vec![
                    Stmt::Asgn(Asgn { lhs: x, rhs: Expr::Atom(Atom::Float(0)) }),
                    Stmt::Asgn(Asgn { lhs: y, rhs: Expr::Atom(Atom::Float(1)) }),
                    Stmt::Asgn(Asgn { lhs: z, rhs: Expr::Atom(Atom::Int(0)) }),
                ],
                exit: Exit::Branch {
                    v1: x,
                    v2: y,
                    cond: Cmp::GreaterThanOrEqual,
                    then_label: Label(1),
                    else_label: Label(2),
                },
            },
            Block { label: Label(1), stmts: vec![], exit: Exit::Return(z) },
            Block { label: Label(2), stmts: vec![], exit: Exit::Return(z) },
        ],
        return_type: RepType::Word,
    };
    let plan = codegen(&mut ctx, &vec![fun], main_v, &builtins).unwrap();
    let fp = &plan.funcs[0].1;
    // the float slots were declared at the float width
    assert!(fp.ops.iter().any(|o| matches!(o, Op::DeclareVar { slot, ty }
        if *slot == x && *ty == AbiTy::F64)));
    // fcmp feeds a branch-on-nonzero at the resolved blocks
    let fcmp_at = fp.ops.iter().position(|o| matches!(
        o,
        Op::Fcmp { cond: FloatCond::GreaterThanOrEqual, .. }
    ));
    assert!(fcmp_at.is_some());
    assert!(fp.ops.iter().any(|o| matches!(
        o,
        Op::Brnz { val, then_block: 1, else_block: 2 } if *val == fcmp_at.unwrap()
    )));
    for b in 0..fp.n_blocks {
        assert_eq!(seal_count(&fp.ops, b), 1);
    }
}
